use vstd::prelude::*;

verus! {

/// In-memory model of a JSON document. Text and keys are held as UTF-8 bytes;
/// a number is held as its decimal rendering, so that no lossy re-encoding
/// happens before a unit decides what to do with it.
pub enum Json {
    Null,
    Bool(bool),
    Num(Vec<u8>),
    Str(Vec<u8>),
    Arr(Vec<Json>),
    Obj(Vec<(Vec<u8>, Json)>),
}

/// Mathematical view of a `Json` tree: the same tags over `Seq`.
pub enum JsonV {
    Null,
    Bool(bool),
    Num(Seq<u8>),
    Str(Seq<u8>),
    Arr(Seq<JsonV>),
    Obj(Seq<(Seq<u8>, JsonV)>),
}

pub open spec fn jv(j: Json) -> JsonV
    decreases j,
{
    match j {
        Json::Null => JsonV::Null,
        Json::Bool(b) => JsonV::Bool(b),
        Json::Num(n) => JsonV::Num(n@),
        Json::Str(s) => JsonV::Str(s@),
        Json::Arr(a) => JsonV::Arr(jv_seq(a@)),
        Json::Obj(o) => JsonV::Obj(jv_entries(o@)),
    }
}

pub open spec fn jv_seq(s: Seq<Json>) -> Seq<JsonV>
    decreases s,
{
    if s.len() == 0 {
        Seq::empty()
    } else {
        jv_seq(s.drop_last()).push(jv(s.last()))
    }
}

pub open spec fn jv_entries(s: Seq<(Vec<u8>, Json)>) -> Seq<(Seq<u8>, JsonV)>
    decreases s,
{
    if s.len() == 0 {
        Seq::empty()
    } else {
        jv_entries(s.drop_last()).push((s.last().0@, jv(s.last().1)))
    }
}

pub proof fn lemma_jv_seq_len(s: Seq<Json>)
    ensures
        jv_seq(s).len() == s.len(),
    decreases s,
{
    if s.len() > 0 {
        lemma_jv_seq_len(s.drop_last());
    }
}

pub proof fn lemma_jv_seq_index(s: Seq<Json>, i: int)
    requires
        0 <= i < s.len(),
    ensures
        jv_seq(s).len() == s.len(),
        jv_seq(s)[i] == jv(s[i]),
    decreases s,
{
    lemma_jv_seq_len(s);
    if s.len() > 0 && i < s.len() - 1 {
        lemma_jv_seq_index(s.drop_last(), i);
        lemma_jv_seq_len(s.drop_last());
    }
}

pub proof fn lemma_jv_entries_len(s: Seq<(Vec<u8>, Json)>)
    ensures
        jv_entries(s).len() == s.len(),
    decreases s,
{
    if s.len() > 0 {
        lemma_jv_entries_len(s.drop_last());
    }
}

pub proof fn lemma_jv_entries_index(s: Seq<(Vec<u8>, Json)>, i: int)
    requires
        0 <= i < s.len(),
    ensures
        jv_entries(s).len() == s.len(),
        jv_entries(s)[i] == (s[i].0@, jv(s[i].1)),
    decreases s,
{
    lemma_jv_entries_len(s);
    if s.len() > 0 && i < s.len() - 1 {
        lemma_jv_entries_index(s.drop_last(), i);
        lemma_jv_entries_len(s.drop_last());
    }
}


/// True exactly when two byte strings are equal.
pub fn bytes_eq(a: &[u8], b: &[u8]) -> (r: bool)
    ensures
        r == (a@ == b@),
{
    if a.len() != b.len() {
        assert(a@ != b@);
        return false;
    }
    let mut i: usize = 0;
    while i < a.len()
        invariant
            i <= a@.len(),
            a@.len() == b@.len(),
            forall|j: int| 0 <= j < i ==> a@[j] == b@[j],
        decreases a@.len() - i,
    {
        if a[i] != b[i] {
            assert(a@[i as int] != b@[i as int]);
            return false;
        }
        i += 1;
    }
    assert(a@ =~= b@);
    true
}

/// A fresh copy of a byte sequence.
pub fn clone_bytes(s: &[u8]) -> (r: Vec<u8>)
    ensures
        r@ == s@,
{
    let mut out: Vec<u8> = Vec::new();
    let mut i: usize = 0;
    while i < s.len()
        invariant
            i <= s@.len(),
            out@ == s@.subrange(0, i as int),
        decreases s@.len() - i,
    {
        out.push(s[i]);
        i += 1;
    }
    assert(out@ =~= s@);
    out
}

} // verus!
