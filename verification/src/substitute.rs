use vstd::prelude::*;
use vstd::string::StringSliceAdditionalSpecFns;
use crate::host::Host;

verus! {

/// Number of entries in the fixed substitution table.
pub const TABLE_LEN: usize = 20;

/// The pattern/replacement pair at position `i` of the fixed table.
pub open spec fn table_pair(i: int) -> (Seq<u8>, Seq<u8>) {
    if i == 0 { (vstd::utf8::encode_utf8("agent"@), vstd::utf8::encode_utf8("🕵️"@)) }
    else if i == 1 { (vstd::utf8::encode_utf8("allow"@), vstd::utf8::encode_utf8("👍"@)) }
    else if i == 2 { (vstd::utf8::encode_utf8("cloud"@), vstd::utf8::encode_utf8("☁️"@)) }
    else if i == 3 { (vstd::utf8::encode_utf8("container"@), vstd::utf8::encode_utf8("📦"@)) }
    else if i == 4 { (vstd::utf8::encode_utf8("docker"@), vstd::utf8::encode_utf8("🐳"@)) }
    else if i == 5 { (vstd::utf8::encode_utf8("eye"@), vstd::utf8::encode_utf8("👁"@)) }
    else if i == 6 { (vstd::utf8::encode_utf8("hash"@), vstd::utf8::encode_utf8("#️⃣"@)) }
    else if i == 7 { (vstd::utf8::encode_utf8("host"@), vstd::utf8::encode_utf8("💻"@)) }
    else if i == 8 { (vstd::utf8::encode_utf8("id"@), vstd::utf8::encode_utf8("🪪"@)) }
    else if i == 9 { (vstd::utf8::encode_utf8("image"@), vstd::utf8::encode_utf8("🖼"@)) }
    else if i == 10 { (vstd::utf8::encode_utf8("kubernetes"@), vstd::utf8::encode_utf8("🧑‍✈️"@)) }
    else if i == 11 { (vstd::utf8::encode_utf8("label"@), vstd::utf8::encode_utf8("🏷"@)) }
    else if i == 12 { (vstd::utf8::encode_utf8("log"@), vstd::utf8::encode_utf8("🪵"@)) }
    else if i == 13 { (vstd::utf8::encode_utf8("message"@), vstd::utf8::encode_utf8("✉️"@)) }
    else if i == 14 { (vstd::utf8::encode_utf8("path"@), vstd::utf8::encode_utf8("🛣"@)) }
    else if i == 15 { (vstd::utf8::encode_utf8("pod"@), vstd::utf8::encode_utf8("🛰"@)) }
    else if i == 16 { (vstd::utf8::encode_utf8("space"@), vstd::utf8::encode_utf8("🚀"@)) }
    else if i == 17 { (vstd::utf8::encode_utf8("stream"@), vstd::utf8::encode_utf8("🚿"@)) }
    else if i == 18 { (vstd::utf8::encode_utf8("time"@), vstd::utf8::encode_utf8("⏰"@)) }
    else { (vstd::utf8::encode_utf8("user"@), vstd::utf8::encode_utf8("🧑"@)) }
}

/// The fixed substitution table: listed order defines precedence when more
/// than one pattern could match at the same position.
pub open spec fn table_spec() -> Seq<(Seq<u8>, Seq<u8>)> {
    Seq::new(TABLE_LEN as nat, |i: int| table_pair(i))
}

/// Index of the first table entry, at or after `i`, whose pattern is a
/// non-empty prefix of `s`; `None` when no entry matches.
pub open spec fn first_match(t: Seq<(Seq<u8>, Seq<u8>)>, s: Seq<u8>, i: int) -> Option<int>
    decreases t.len() - i,
{
    if i < 0 || i >= t.len() {
        None
    } else if t[i].0.len() > 0 && t[i].0.is_prefix_of(s) {
        Some(i)
    } else {
        first_match(t, s, i + 1)
    }
}

/// Greedy left-to-right substitution: at each position the first matching
/// pattern is replaced and the cursor advances by the pattern's length; a
/// position with no match is copied unchanged. Bytes once consumed are never
/// re-examined.
pub open spec fn subst_spec(t: Seq<(Seq<u8>, Seq<u8>)>, s: Seq<u8>) -> Seq<u8>
    decreases s.len(),
{
    if s.len() == 0 {
        Seq::empty()
    } else {
        let m = first_match(t, s, 0);
        if m is Some && 0 <= m->0 < t.len() && t[m->0].0.len() > 0 && t[m->0].0.len() <= s.len() {
            t[m->0].1 + subst_spec(t, s.skip(t[m->0].0.len() as int))
        } else {
            seq![s[0]] + subst_spec(t, s.skip(1))
        }
    }
}

fn table_entry(k: usize) -> (e: (&'static str, &'static str))
    requires
        k < TABLE_LEN,
    ensures
        e.0.spec_bytes() == table_spec()[k as int].0,
        e.1.spec_bytes() == table_spec()[k as int].1,
{
    proof {
        assert(table_spec()[k as int] == table_pair(k as int));
    }
    let e: (&'static str, &'static str) = match k {
        0 => ("agent", "🕵️"),
        1 => ("allow", "👍"),
        2 => ("cloud", "☁️"),
        3 => ("container", "📦"),
        4 => ("docker", "🐳"),
        5 => ("eye", "👁"),
        6 => ("hash", "#️⃣"),
        7 => ("host", "💻"),
        8 => ("id", "🪪"),
        9 => ("image", "🖼"),
        10 => ("kubernetes", "🧑‍✈️"),
        11 => ("label", "🏷"),
        12 => ("log", "🪵"),
        13 => ("message", "✉️"),
        14 => ("path", "🛣"),
        15 => ("pod", "🛰"),
        16 => ("space", "🚀"),
        17 => ("stream", "🚿"),
        18 => ("time", "⏰"),
        _ => ("user", "🧑"),
    };
    e
}

/// True exactly when `pat` occurs as a prefix of `input` at offset `from`.
fn is_prefix_at(input: &[u8], from: usize, pat: &[u8]) -> (r: bool)
    requires
        from <= input@.len(),
    ensures
        r == pat@.is_prefix_of(input@.skip(from as int)),
{
    if pat.len() > input.len() - from {
        assert(!pat@.is_prefix_of(input@.skip(from as int)));
        return false;
    }
    let n: usize = input.len();
    let mut i: usize = 0;
    while i < pat.len()
        invariant
            i <= pat@.len(),
            n == input@.len(),
            from + pat@.len() <= input@.len(),
            forall|j: int| 0 <= j < i ==> pat@[j] == input@.skip(from as int)[j],
        decreases pat@.len() - i,
    {
        assert(from + i < n);
        if input[from + i] != pat[i] {
            assert(pat@[i as int] != input@.skip(from as int)[i as int]);
            return false;
        }
        i += 1;
    }
    assert(pat@ =~= input@.skip(from as int).subrange(0, pat@.len() as int));
    true
}

fn push_all(out: &mut Vec<u8>, s: &[u8])
    ensures
        final(out)@ == old(out)@ + s@,
{
    let mut i: usize = 0;
    while i < s.len()
        invariant
            i <= s@.len(),
            out@ == old(out)@ + s@.subrange(0, i as int),
        decreases s@.len() - i,
    {
        out.push(s[i]);
        i += 1;
    }
    assert(s@.subrange(0, s@.len() as int) =~= s@);
}

proof fn lemma_first_match_from(t: Seq<(Seq<u8>, Seq<u8>)>, s: Seq<u8>, k: int)
    requires
        0 <= k <= t.len(),
        forall|j: int| 0 <= j < k ==> !(t[j].0.len() > 0 && t[j].0.is_prefix_of(s)),
    ensures
        first_match(t, s, 0) == first_match(t, s, k),
    decreases k,
{
    if k > 0 {
        lemma_first_match_from(t, s, k - 1);
        assert(first_match(t, s, k - 1) == first_match(t, s, k));
    }
}


proof fn lemma_first_match_props(t: Seq<(Seq<u8>, Seq<u8>)>, s: Seq<u8>, i: int, k: int)
    requires
        first_match(t, s, i) == Some(k),
        0 <= i,
    ensures
        i <= k < t.len(),
        t[k].0.len() > 0,
        t[k].0.is_prefix_of(s),
        t[k].0.len() <= s.len(),
    decreases t.len() - i,
{
    if i < t.len() && !(t[i].0.len() > 0 && t[i].0.is_prefix_of(s)) {
        lemma_first_match_props(t, s, i + 1, k);
    }
}

/// One substitution pass over `input` with the fixed table.
pub fn process_input(input: &[u8]) -> (r: Vec<u8>)
    ensures
        r@ == subst_spec(table_spec(), input@),
{
    let ghost t = table_spec();
    let mut out: Vec<u8> = Vec::new();
    let mut from: usize = 0;
    proof {
        assert(t.len() == TABLE_LEN as nat);
        assert(input@.skip(0) =~= input@);
        assert(out@ + subst_spec(t, input@) =~= subst_spec(t, input@));
    }
    while from < input.len()
        invariant
            from <= input@.len(),
            subst_spec(t, input@) == out@ + subst_spec(t, input@.skip(from as int)),
            t == table_spec(),
            t.len() == TABLE_LEN,
        decreases input@.len() - from,
    {
        let ghost rest = input@.skip(from as int);
        assert(rest.len() > 0);
        let mut swapped = false;
        let mut k: usize = 0;
        while k < TABLE_LEN && !swapped
            invariant
                k <= TABLE_LEN,
                from <= input@.len(),
                t == table_spec(),
                t.len() == TABLE_LEN,
                rest == input@.skip(from as int),
                !swapped ==> forall|j: int|
                    0 <= j < k ==> !(t[j].0.len() > 0 && t[j].0.is_prefix_of(rest)),
                swapped ==> 1 <= k <= TABLE_LEN && first_match(t, rest, 0) == Some(k - 1),
            decreases TABLE_LEN - k,
        {
            let e = table_entry(k);
            let pat = e.0.as_bytes();
            if pat.len() > 0 && is_prefix_at(input, from, pat) {
                proof {
                    lemma_first_match_from(t, rest, k as int);
                    assert(first_match(t, rest, k as int) == Some(k as int));
                }
                swapped = true;
            } else {
                assert(!(t[k as int].0.len() > 0 && t[k as int].0.is_prefix_of(rest)));
            }
            k += 1;
        }
        let ghost out0 = out@;
        if swapped {
            let ghost km = k - 1;
            let e = table_entry(k - 1);
            proof {
                lemma_first_match_props(t, rest, 0, km);
                lemma_skip_skip(input@, from as int, t[km].0.len() as int);
                assert(subst_spec(t, rest) == t[km].1 + subst_spec(
                    t,
                    rest.skip(t[km].0.len() as int),
                ));
            }
            push_all(&mut out, e.1.as_bytes());
            from = from + e.0.as_bytes().len();
            proof {
                assert(out@ =~= out0 + t[km].1);
                assert(out0 + t[km].1 + subst_spec(t, input@.skip(from as int)) =~= out0 + (
                t[km].1 + subst_spec(t, input@.skip(from as int))));
                assert(out@ + subst_spec(t, input@.skip(from as int)) == subst_spec(t, input@));
            }
        } else {
            proof {
                lemma_first_match_from(t, rest, TABLE_LEN as int);
                assert(first_match(t, rest, 0) is None);
                assert(subst_spec(t, rest) == seq![rest[0]] + subst_spec(t, rest.skip(1)));
                lemma_skip_skip(input@, from as int, 1);
                assert(rest[0] == input@[from as int]);
            }
            out.push(input[from]);
            from = from + 1;
            proof {
                assert(out@ =~= out0 + seq![input@[from - 1]]);
                assert(out0 + seq![input@[from - 1]] + subst_spec(t, input@.skip(from as int))
                    =~= out0 + (seq![input@[from - 1]] + subst_spec(t, input@.skip(from as int))));
                assert(out@ + subst_spec(t, input@.skip(from as int)) == subst_spec(t, input@));
            }
        }
    }
    proof {
        assert(input@.skip(input@.len() as int) =~= Seq::<u8>::empty());
        assert(out@ + Seq::<u8>::empty() =~= out@);
    }
    out
}


/// The scan never matches across a position it has advanced past: once an
/// entry matches, the output continues with that entry's replacement and
/// the rest of the input strictly after the consumed pattern, so nothing
/// already consumed, and nothing inside a replacement, is matched again;
/// with no match one byte is copied and the scan moves strictly forward.
pub proof fn lemma_no_rescan(t: Seq<(Seq<u8>, Seq<u8>)>, s: Seq<u8>)
    requires
        s.len() > 0,
    ensures
        match first_match(t, s, 0) {
            Some(k) => subst_spec(t, s) == t[k].1 + subst_spec(t, s.skip(t[k].0.len() as int)),
            None => subst_spec(t, s) == seq![s[0]] + subst_spec(t, s.skip(1)),
        },
{
    match first_match(t, s, 0) {
        Some(k) => {
            lemma_first_match_props(t, s, 0, k);
        },
        None => {
        },
    }
}

proof fn lemma_skip_skip(s: Seq<u8>, a: int, b: int)
    requires
        0 <= a,
        0 <= b,
        a + b <= s.len(),
    ensures
        s.skip(a).skip(b) == s.skip(a + b),
{
    assert(s.skip(a).skip(b) =~= s.skip(a + b));
}

/// One invocation of the substitution unit: request the pending input,
/// substitute, deliver the result. No error condition exists.
pub fn receive_from_host<H: Host>(host: &mut H, len: usize)
    requires
        len == old(host).data().len(),
    ensures
        final(host).data() == old(host).data(),
        final(host).sent() == old(host).sent().push(subst_spec(table_spec(), old(host).data())),
        final(host).errors() == old(host).errors(),
{
    let input = host.get_data(len);
    let output = process_input(input.as_slice());
    host.send(output.as_slice());
}

} // verus!
