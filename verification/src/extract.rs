use vstd::prelude::*;
use crate::host::{Host, grew_by_one, lemma_grew_by_one};
use crate::jsonio::{json_of, json_bytes_of, parse_json, json_to_vec};
use crate::value::{
    Json, JsonV, jv, jv_entries, lemma_jv_entries_len, lemma_jv_entries_index, bytes_eq,
    clone_bytes,
};

verus! {

/// How many capture slots the line grammar has: the whole match, then the
/// eleven named fields.
pub const GROUP_COUNT: usize = 12;

/// Capture slot of the field that is re-encoded as a timestamp.
pub const TIME_IDX: usize = 4;

/// The fixed line grammar: one access-log line with remote, host, user,
/// time, request, code, size, and an optional referer/agent/forwarded-for
/// tail.
pub open spec fn log_pattern() -> Seq<char> {
    "^(?P<remote>[^ ]*) (?P<host>[^ ]*) (?P<user>[^ ]*) \\[(?P<time>[^\\]]*)\\] \"(?P<method>\\S+)(?: +(?P<path>[^\"]*?)(?: +\\S*)?)?\" (?P<code>[^ ]*) (?P<size>[^ ]*)(?: \"(?P<referer>[^\"]*)\" \"(?P<agent>[^\"]*)\"(?:\\s+(?P<http_x_forwarded_for>[^ ]+))?)?$"@
}

/// The timestamp layout the time field is expected to follow.
pub open spec fn time_layout() -> Seq<char> {
    "%d/%b/%Y:%H:%M:%S %z"@
}

/// The key under which a record carries the log line.
pub open spec fn msg_key() -> Seq<u8> {
    vstd::utf8::encode_utf8("message"@)
}

/// Name of capture slot `i`.
pub open spec fn group_name(i: int) -> Seq<u8> {
    if i == 1 { vstd::utf8::encode_utf8("remote"@) }
    else if i == 2 { vstd::utf8::encode_utf8("host"@) }
    else if i == 3 { vstd::utf8::encode_utf8("user"@) }
    else if i == 4 { vstd::utf8::encode_utf8("time"@) }
    else if i == 5 { vstd::utf8::encode_utf8("method"@) }
    else if i == 6 { vstd::utf8::encode_utf8("path"@) }
    else if i == 7 { vstd::utf8::encode_utf8("code"@) }
    else if i == 8 { vstd::utf8::encode_utf8("size"@) }
    else if i == 9 { vstd::utf8::encode_utf8("referer"@) }
    else if i == 10 { vstd::utf8::encode_utf8("agent"@) }
    else { vstd::utf8::encode_utf8("http_x_forwarded_for"@) }
}

/// What matching `text` against the compiled form of `pat` yields: the
/// capture slots in index order, the whole match first, each slot the
/// matched bytes of a group that participated; or nothing when the text
/// does not match (or the pattern does not compile).
pub uninterp spec fn regex_caps_of(pat: Seq<char>, text: Seq<u8>) -> Option<Seq<Option<Seq<u8>>>>;

/// Relies on regex::bytes::Regex::{new, captures}: the capture slots are a
/// function of pattern and text alone.
#[verifier::external_body]
fn regex_captures(pattern: &str, text: &[u8]) -> (r: Option<Vec<Option<Vec<u8>>>>)
    ensures
        r is Some <==> regex_caps_of(pattern@, text@) is Some,
        r matches Some(v) ==> regex_caps_of(pattern@, text@) matches Some(s) && v@.len() == s.len()
            && forall|i: int|
            0 <= i < s.len() ==> ((v@[i] is Some <==> s[i] is Some) && (v@[i] matches Some(b)
                ==> s[i] == Some(b@))),
{
    match regex::bytes::Regex::new(pattern) {
        Ok(re) => re.captures(text).map(|c|
            c.iter().map(|m| m.map(|x| x.as_bytes().to_vec())).collect()),
        Err(_) => None,
    }
}

/// What parsing `text` under the given layout yields: seconds since the
/// Unix epoch, or nothing when the text does not follow the layout.
pub uninterp spec fn time_of(layout: Seq<char>, text: Seq<u8>) -> Option<i64>;

/// Relies on chrono::DateTime::parse_from_str and DateTime::timestamp: the
/// epoch seconds are a function of text and layout alone.
#[verifier::external_body]
fn parse_time_with(layout: &str, text: &[u8]) -> (r: Option<i64>)
    ensures
        r == time_of(layout@, text@),
{
    core::str::from_utf8(text).ok().and_then(|t| chrono::DateTime::parse_from_str(t,
        layout).ok()).map(|d| d.timestamp())
}

/// Decimal digits of `n`, most significant first.
pub open spec fn dec_digits(n: nat) -> Seq<u8>
    decreases n,
{
    if n < 10 {
        seq![(48 + n) as u8]
    } else {
        dec_digits(n / 10).push((48 + n % 10) as u8)
    }
}

/// Decimal rendering of a signed number.
pub open spec fn dec_i64(n: int) -> Seq<u8> {
    if n < 0 {
        seq![45u8] + dec_digits((-n) as nat)
    } else {
        dec_digits(n as nat)
    }
}

fn render_u64(n: u64) -> (r: Vec<u8>)
    ensures
        r@ == dec_digits(n as nat),
    decreases n,
{
    if n < 10 {
        let mut v: Vec<u8> = Vec::new();
        v.push((48 + n) as u8);
        assert(v@ =~= dec_digits(n as nat));
        v
    } else {
        let mut v = render_u64(n / 10);
        v.push((48 + n % 10) as u8);
        v
    }
}

/// Decimal rendering of a signed 64-bit number as ASCII bytes.
pub fn render_i64(n: i64) -> (r: Vec<u8>)
    ensures
        r@ == dec_i64(n as int),
{
    if n < 0 {
        let m: u64 = ((-(n + 1)) as u64) + 1;
        assert(m == -(n as int));
        let mut v: Vec<u8> = Vec::new();
        v.push(45);
        let ds = render_u64(m);
        let mut i: usize = 0;
        while i < ds.len()
            invariant
                i <= ds@.len(),
                v@ == seq![45u8] + ds@.subrange(0, i as int),
            decreases ds@.len() - i,
        {
            v.push(ds[i]);
            i += 1;
        }
        assert(ds@.subrange(0, ds@.len() as int) =~= ds@);
        assert(v@ =~= seq![45u8] + dec_digits((-(n as int)) as nat));
        v
    } else {
        render_u64(n as u64)
    }
}

/// Index of the first entry of `s`, at or after `i`, whose key is `k`.
pub open spec fn first_key_idx(s: Seq<(Seq<u8>, JsonV)>, k: Seq<u8>, i: int) -> Option<int>
    decreases s.len() - i,
{
    if i < 0 || i >= s.len() {
        None
    } else if s[i].0 == k {
        Some(i)
    } else {
        first_key_idx(s, k, i + 1)
    }
}

/// The value stored under key `k`, taking the first entry when a key
/// repeats.
pub open spec fn obj_lookup(s: Seq<(Seq<u8>, JsonV)>, k: Seq<u8>) -> Option<JsonV> {
    match first_key_idx(s, k, 0) {
        Some(i) => Some(s[i].1),
        None => None,
    }
}

/// Insertion into an object: an existing key keeps its place and takes the
/// new value; a new key is appended.
pub open spec fn obj_insert_spec(s: Seq<(Seq<u8>, JsonV)>, k: Seq<u8>, v: JsonV) -> Seq<
    (Seq<u8>, JsonV),
> {
    match first_key_idx(s, k, 0) {
        Some(i) => s.update(i, (k, v)),
        None => s.push((k, v)),
    }
}

proof fn lemma_first_key_from(s: Seq<(Seq<u8>, JsonV)>, k: Seq<u8>, i: int)
    requires
        0 <= i <= s.len(),
        forall|j: int| 0 <= j < i ==> s[j].0 != k,
    ensures
        first_key_idx(s, k, 0) == first_key_idx(s, k, i),
    decreases i,
{
    if i > 0 {
        lemma_first_key_from(s, k, i - 1);
    }
}


proof fn lemma_first_key_props(s: Seq<(Seq<u8>, JsonV)>, k: Seq<u8>, i: int, r: int)
    requires
        0 <= i,
        first_key_idx(s, k, i) == Some(r),
    ensures
        i <= r < s.len(),
        s[r].0 == k,
        forall|j: int| i <= j < r ==> s[j].0 != k,
    decreases s.len() - i,
{
    if i < s.len() && s[i].0 != k {
        lemma_first_key_props(s, k, i + 1, r);
    }
}

proof fn lemma_first_key_none(s: Seq<(Seq<u8>, JsonV)>, k: Seq<u8>, i: int)
    requires
        0 <= i,
        first_key_idx(s, k, i) is None,
    ensures
        forall|j: int| i <= j < s.len() ==> s[j].0 != k,
    decreases s.len() - i,
{
    if i < s.len() {
        lemma_first_key_none(s, k, i + 1);
    }
}

/// Writing the same field twice changes a record no more than writing it
/// once: re-deriving an already-written field leaves the record as it was.
pub proof fn lemma_insert_idempotent(s: Seq<(Seq<u8>, JsonV)>, k: Seq<u8>, v: JsonV)
    ensures
        obj_insert_spec(obj_insert_spec(s, k, v), k, v) == obj_insert_spec(s, k, v),
{
    match first_key_idx(s, k, 0) {
        Some(i) => {
            lemma_first_key_props(s, k, 0, i);
            let s1 = s.update(i, (k, v));
            lemma_first_key_from(s1, k, i);
            assert(first_key_idx(s1, k, i) == Some(i));
            assert(obj_insert_spec(s1, k, v) =~= s1);
        },
        None => {
            lemma_first_key_none(s, k, 0);
            let s1 = s.push((k, v));
            lemma_first_key_from(s1, k, s.len() as int);
            assert(first_key_idx(s1, k, s.len() as int) == Some(s.len() as int));
            assert(obj_insert_spec(s1, k, v) =~= s1);
        },
    }
}


proof fn lemma_first_key_update_other(
    s: Seq<(Seq<u8>, JsonV)>,
    k: Seq<u8>,
    k1: Seq<u8>,
    v: JsonV,
    r: int,
    i: int,
)
    requires
        0 <= i,
        0 <= r < s.len(),
        s[r].0 == k1,
        k != k1,
    ensures
        first_key_idx(s.update(r, (k1, v)), k, i) == first_key_idx(s, k, i),
    decreases s.len() - i,
{
    if i < s.len() {
        lemma_first_key_update_other(s, k, k1, v, r, i + 1);
    }
}

proof fn lemma_first_key_push_other(
    s: Seq<(Seq<u8>, JsonV)>,
    k: Seq<u8>,
    k1: Seq<u8>,
    v: JsonV,
    i: int,
)
    requires
        0 <= i,
        k != k1,
    ensures
        first_key_idx(s.push((k1, v)), k, i) == first_key_idx(s, k, i),
    decreases s.len() + 1 - i,
{
    if i <= s.len() {
        lemma_first_key_push_other(s, k, k1, v, i + 1);
    }
}

/// A field that is not being written keeps its value: inserting under one
/// key never changes what any other key holds.
pub proof fn lemma_insert_preserves_others(
    s: Seq<(Seq<u8>, JsonV)>,
    k1: Seq<u8>,
    v: JsonV,
    k: Seq<u8>,
)
    requires
        k != k1,
    ensures
        obj_lookup(obj_insert_spec(s, k1, v), k) == obj_lookup(s, k),
{
    match first_key_idx(s, k1, 0) {
        Some(r) => {
            lemma_first_key_props(s, k1, 0, r);
            lemma_first_key_update_other(s, k, k1, v, r, 0);
            match first_key_idx(s, k, 0) {
                Some(i) => {
                    lemma_first_key_props(s, k, 0, i);
                    assert(s.update(r, (k1, v))[i] == s[i]);
                },
                None => {
                },
            }
        },
        None => {
            lemma_first_key_push_other(s, k, k1, v, 0);
            match first_key_idx(s, k, 0) {
                Some(i) => {
                    lemma_first_key_props(s, k, 0, i);
                    assert(s.push((k1, v))[i] == s[i]);
                },
                None => {
                },
            }
        },
    }
}

/// Finds the first entry keyed `k`, reporting its position.
#[verifier::loop_isolation(false)]
fn find_key(o: &Vec<(Vec<u8>, Json)>, k: &[u8]) -> (r: Option<usize>)
    ensures
        r matches Some(i) ==> i < o@.len() && first_key_idx(jv_entries(o@), k@, 0) == Some(
            i as int,
        ),
        r is None ==> first_key_idx(jv_entries(o@), k@, 0) is None,
{
    let ghost s = jv_entries(o@);
    proof {
        lemma_jv_entries_len(o@);
    }
    let mut i: usize = 0;
    while i < o.len()
        invariant
            i <= o@.len(),
            forall|j: int| 0 <= j < i ==> s[j].0 != k@,
        decreases o@.len() - i,
    {
        proof {
            lemma_jv_entries_index(o@, i as int);
        }
        if bytes_eq(o[i].0.as_slice(), k) {
            proof {
                lemma_first_key_from(s, k@, i as int);
            }
            return Some(i);
        }
        i += 1;
    }
    proof {
        lemma_first_key_from(s, k@, o@.len() as int);
    }
    None
}

proof fn lemma_jv_entries_update(s: Seq<(Vec<u8>, Json)>, i: int, e: (Vec<u8>, Json))
    requires
        0 <= i < s.len(),
    ensures
        jv_entries(s.update(i, e)) == jv_entries(s).update(i, (e.0@, jv(e.1))),
    decreases s,
{
    lemma_jv_entries_len(s);
    lemma_jv_entries_len(s.update(i, e));
    if i == s.len() - 1 {
        assert(s.update(i, e).drop_last() =~= s.drop_last());
        assert(s.update(i, e).last() == e);
        assert(jv_entries(s).update(i, (e.0@, jv(e.1))) =~= jv_entries(s.drop_last()).push(
            (e.0@, jv(e.1)),
        ));
    } else {
        assert(s.update(i, e).drop_last() =~= s.drop_last().update(i, e));
        lemma_jv_entries_update(s.drop_last(), i, e);
        assert(s.update(i, e).last() == s.last());
        assert(jv_entries(s).update(i, (e.0@, jv(e.1))) =~= jv_entries(s.drop_last()).update(
            i,
            (e.0@, jv(e.1)),
        ).push((s.last().0@, jv(s.last().1))));
    }
}

proof fn lemma_jv_entries_push(s: Seq<(Vec<u8>, Json)>, e: (Vec<u8>, Json))
    ensures
        jv_entries(s.push(e)) == jv_entries(s).push((e.0@, jv(e.1))),
{
    assert(s.push(e).drop_last() =~= s);
    assert(s.push(e).last() == e);
}

/// Inserts one field into a record, overwriting in place or appending.
#[verifier::loop_isolation(false)]
fn obj_insert(o: &mut Vec<(Vec<u8>, Json)>, k: Vec<u8>, v: Json)
    ensures
        jv_entries(final(o)@) == obj_insert_spec(jv_entries(old(o)@), k@, jv(v)),
{
    proof {
        lemma_jv_entries_len(o@);
    }
    match find_key(o, k.as_slice()) {
        Some(i) => {
            let ghost s0 = o@;
            o[i] = (k, v);
            proof {
                assert(o@ == s0.update(i as int, o@[i as int]));
                lemma_jv_entries_update(s0, i as int, o@[i as int]);
            }
        },
        None => {
            let ghost s0 = o@;
            o.push((k, v));
            proof {
                lemma_jv_entries_push(s0, o@[o@.len() - 1]);
            }
        },
    }
}

/// The fields one capture slot contributes: none when the group did not
/// participate, else its name paired with the matched text, the time slot
/// re-encoded as epoch seconds when the text follows the layout.
pub open spec fn entry_at(caps: Seq<Option<Seq<u8>>>, i: int) -> Seq<(Seq<u8>, JsonV)> {
    if 0 <= i < caps.len() && caps[i] is Some {
        seq![(group_name(i), group_value(i, caps[i].unwrap()))]
    } else {
        Seq::empty()
    }
}

pub open spec fn group_value(i: int, text: Seq<u8>) -> JsonV {
    if i == TIME_IDX {
        match time_of(time_layout(), text) {
            Some(t) => JsonV::Str(dec_i64(t as int)),
            None => JsonV::Str(text),
        }
    } else {
        JsonV::Str(text)
    }
}

/// The fields contributed by capture slots below `i`, in slot order.
pub open spec fn entries_upto(caps: Seq<Option<Seq<u8>>>, i: int) -> Seq<(Seq<u8>, JsonV)>
    decreases i,
{
    if i <= 1 {
        Seq::empty()
    } else {
        entries_upto(caps, i - 1) + entry_at(caps, i - 1)
    }
}

/// The fields a message contributes: those of its match against the line
/// grammar, none when it does not match.
pub open spec fn new_fields(m: Seq<u8>) -> Seq<(Seq<u8>, JsonV)> {
    match regex_caps_of(log_pattern(), m) {
        Some(caps) => entries_upto(caps, GROUP_COUNT as int),
        None => Seq::empty(),
    }
}

/// Sequential insertion of fields into a record, oldest first.
pub open spec fn insert_all(s: Seq<(Seq<u8>, JsonV)>, es: Seq<(Seq<u8>, JsonV)>) -> Seq<
    (Seq<u8>, JsonV),
>
    decreases es,
{
    if es.len() == 0 {
        s
    } else {
        obj_insert_spec(insert_all(s, es.drop_last()), es.last().0, es.last().1)
    }
}

/// The outcome of extraction on a parsed record: the re-serialized record
/// with its matched fields merged in, or nothing when there is no object,
/// no string message, no match, or no capturing group.
pub open spec fn extract_result(j: JsonV) -> Option<Seq<u8>> {
    match j {
        JsonV::Obj(o) => match obj_lookup(o, msg_key()) {
            Some(mj) => match mj {
                JsonV::Str(m) => if new_fields(m).len() == 0 {
                    None
                } else {
                    Some(json_bytes_of(JsonV::Obj(insert_all(o, new_fields(m)))))
                },
                _ => None,
            },
            None => None,
        },
        _ => None,
    }
}


fn group_name_bytes(i: usize) -> (r: Vec<u8>)
    requires
        1 <= i < GROUP_COUNT,
    ensures
        r@ == group_name(i as int),
{
    let n: &str = match i {
        1 => "remote",
        2 => "host",
        3 => "user",
        4 => "time",
        5 => "method",
        6 => "path",
        7 => "code",
        8 => "size",
        9 => "referer",
        10 => "agent",
        _ => "http_x_forwarded_for",
    };
    clone_bytes(n.as_bytes())
}

/// One extraction pass over a record: parse it, match its message against
/// the line grammar, merge every captured field back in (the time field
/// re-encoded as epoch seconds where its text follows the layout), and
/// re-serialize. `Ok(None)` reports that nothing applied.
#[verifier::loop_isolation(false)]
#[verifier::rlimit(100)]
pub fn process_input(input: &[u8]) -> (r: Result<Option<Vec<u8>>, String>)
    ensures
        json_of(input@) is None <==> r is Err,
        json_of(input@) matches Some(j) ==> r matches Ok(ro) && (match extract_result(j) {
            Some(b) => ro matches Some(v) && v@ == b,
            None => ro is None,
        }),
{
    let parsed = parse_json(input);
    let v = match parsed {
        Err(e) => {
            return Err(e);
        },
        Ok(v) => v,
    };
    let ghost jfull = jv(v);
    let mut o = match v {
        Json::Obj(o) => o,
        _ => {
            return Ok(None);
        },
    };
    let ghost o0 = jv_entries(o@);
    assert(jfull == JsonV::Obj(o0));
    let mi = match find_key(&o, "message".as_bytes()) {
        Some(i) => i,
        None => {
            return Ok(None);
        },
    };
    proof {
        lemma_jv_entries_index(o@, mi as int);
    }
    let msg: Vec<u8> = match &o[mi].1 {
        Json::Str(s) => clone_bytes(s.as_slice()),
        _ => {
            assert(obj_lookup(o0, msg_key()) matches Some(mj) && !(mj is Str));
            return Ok(None);
        },
    };
    assert(obj_lookup(o0, msg_key()) == Some(JsonV::Str(msg@)));
    let caps = match regex_captures("^(?P<remote>[^ ]*) (?P<host>[^ ]*) (?P<user>[^ ]*) \\[(?P<time>[^\\]]*)\\] \"(?P<method>\\S+)(?: +(?P<path>[^\"]*?)(?: +\\S*)?)?\" (?P<code>[^ ]*) (?P<size>[^ ]*)(?: \"(?P<referer>[^\"]*)\" \"(?P<agent>[^\"]*)\"(?:\\s+(?P<http_x_forwarded_for>[^ ]+))?)?$", msg.as_slice()) {
        Some(c) => c,
        None => {
            assert(new_fields(msg@) =~= Seq::<(Seq<u8>, JsonV)>::empty());
            return Ok(None);
        },
    };
    let ghost capsv = (match regex_caps_of(log_pattern(), msg@) {
        Some(cs) => cs,
        None => Seq::empty(),
    });
    let mut added = false;
    let mut gi: usize = 1;
    proof {
        assert(entries_upto(capsv, 1) =~= Seq::<(Seq<u8>, JsonV)>::empty());
    }
    while gi < GROUP_COUNT
        invariant
            1 <= gi <= GROUP_COUNT,
            jv_entries(o@) == insert_all(o0, entries_upto(capsv, gi as int)),
            added == (entries_upto(capsv, gi as int).len() != 0),
        decreases GROUP_COUNT - gi,
    {
        let ghost pre = entries_upto(capsv, gi as int);
        if gi < caps.len() {
            let mut took = false;
            match &caps[gi] {
                Some(text) => {
                    let value: Json = if gi == TIME_IDX {
                        match parse_time_with("%d/%b/%Y:%H:%M:%S %z", text.as_slice()) {
                            Some(t) => Json::Str(render_i64(t)),
                            None => Json::Str(clone_bytes(text.as_slice())),
                        }
                    } else {
                        Json::Str(clone_bytes(text.as_slice()))
                    };
                    assert(jv(value) == group_value(gi as int, capsv[gi as int].unwrap()));
                    let name = group_name_bytes(gi);
                    let ghost e = (group_name(gi as int), jv(value));
                    obj_insert(&mut o, name, value);
                    added = true;
                    proof {
                        assert(entry_at(capsv, gi as int) =~= seq![e]);
                        assert(entries_upto(capsv, gi as int + 1) == pre + seq![e]);
                        assert((pre + seq![e]).drop_last() =~= pre);
                        assert((pre + seq![e]).last() == e);
                        assert(insert_all(o0, pre + seq![e]) == obj_insert_spec(
                            insert_all(o0, pre),
                            e.0,
                            e.1,
                        ));
                        assert(jv_entries(o@) == insert_all(
                            o0,
                            entries_upto(capsv, gi as int + 1),
                        ));
                        assert(entries_upto(capsv, gi as int + 1).len() != 0) by {
                            assert(entries_upto(capsv, gi as int + 1) == pre + seq![e]);
                        }
                    }
                    took = true;
                },
                None => {
                    assert(entry_at(capsv, gi as int) =~= Seq::<(Seq<u8>, JsonV)>::empty());
                },
            }
            if !took {
                proof {
                    assert(entries_upto(capsv, gi as int + 1) =~= pre);
                }
            }
        } else {
            proof {
                assert(entry_at(capsv, gi as int) =~= Seq::<(Seq<u8>, JsonV)>::empty());
                assert(entries_upto(capsv, gi as int + 1) =~= pre);
            }
        }
        gi += 1;
    }
    if !added {
        assert(new_fields(msg@).len() == 0);
        return Ok(None);
    }
    let jobj = Json::Obj(o);
    let out = json_to_vec(&jobj);
    proof {
        assert(new_fields(msg@) == entries_upto(capsv, GROUP_COUNT as int));
        assert(jv(jobj) == JsonV::Obj(insert_all(o0, new_fields(msg@))));
        assert(extract_result(jfull) == Some(json_bytes_of(jv(jobj))));
    }
    Ok(Some(out))
}


/// One invocation of the extraction unit: request the pending input, run
/// one extraction pass, deliver the new record, or pass the input through
/// unchanged when nothing applied, or report the parse failure and deliver
/// nothing.
pub fn receive_from_host<H: Host>(host: &mut H, len: usize)
    requires
        len == old(host).data().len(),
    ensures
        final(host).data() == old(host).data(),
        match json_of(old(host).data()) {
            Some(j) => final(host).errors() == old(host).errors() && (match extract_result(j) {
                Some(b) => final(host).sent() == old(host).sent().push(b),
                None => final(host).sent() == old(host).sent().push(old(host).data()),
            }),
            None => final(host).sent() == old(host).sent() && grew_by_one(
                old(host).errors(),
                final(host).errors(),
            ),
        },
{
    let input = host.get_data(len);
    match process_input(input.as_slice()) {
        Ok(Some(out)) => {
            host.send(out.as_slice());
        },
        Ok(None) => {
            host.send(input.as_slice());
        },
        Err(e) => {
            host.error(e.as_str());
            proof {
                lemma_grew_by_one(old(host).errors(), e@);
            }
        },
    }
}

} // verus!
