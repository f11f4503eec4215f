use vstd::prelude::*;
use crate::host::{Host, grew_by_one, lemma_grew_by_one};
use crate::jsonio::{json_of, f64_bits_of, parse_json, num_bits};
use crate::msgpack::{
    Msg, MsgV, mv, mv_seq, mv_entries, msgpack_spec, encodable, encode_value, lemma_mv_seq_push,
    lemma_mv_entries_push,
};
use crate::value::{
    Json, JsonV, jv, jv_seq, jv_entries, lemma_jv_seq_len, lemma_jv_seq_index,
    lemma_jv_entries_len, lemma_jv_entries_index, clone_bytes,
};

verus! {

/// Why a conversion produced no output: the input was not JSON text, or the
/// resulting tree cannot be carried by the target format's length headers.
#[derive(Debug)]
pub enum ConvertError {
    Decode(String),
    Encode,
}

/// The structural mapping between the two value models: nulls to nil,
/// booleans and strings unchanged, every number to a 64-bit float, arrays
/// element by element, objects to maps whose keys become string values,
/// entry order preserved.
pub open spec fn convert_spec(j: JsonV) -> MsgV
    decreases j,
{
    match j {
        JsonV::Null => MsgV::Nil,
        JsonV::Bool(b) => MsgV::Bool(b),
        JsonV::Num(s) => MsgV::F64(f64_bits_of(s)),
        JsonV::Str(s) => MsgV::Str(s),
        JsonV::Arr(a) => MsgV::Arr(convert_list(a)),
        JsonV::Obj(o) => MsgV::Dict(convert_entries(o)),
    }
}

pub open spec fn convert_list(s: Seq<JsonV>) -> Seq<MsgV>
    decreases s,
{
    if s.len() == 0 {
        Seq::empty()
    } else {
        convert_list(s.drop_last()).push(convert_spec(s.last()))
    }
}

pub open spec fn convert_entries(s: Seq<(Seq<u8>, JsonV)>) -> Seq<(MsgV, MsgV)>
    decreases s,
{
    if s.len() == 0 {
        Seq::empty()
    } else {
        convert_entries(s.drop_last()).push((MsgV::Str(s.last().0), convert_spec(s.last().1)))
    }
}

proof fn lemma_convert_list_take_step(s: Seq<JsonV>, i: int)
    requires
        0 <= i < s.len(),
    ensures
        convert_list(s.take(i + 1)) == convert_list(s.take(i)).push(convert_spec(s[i])),
{
    assert(s.take(i + 1).drop_last() =~= s.take(i));
    assert(s.take(i + 1).last() == s[i]);
}

proof fn lemma_convert_entries_take_step(s: Seq<(Seq<u8>, JsonV)>, i: int)
    requires
        0 <= i < s.len(),
    ensures
        convert_entries(s.take(i + 1)) == convert_entries(s.take(i)).push(
            (MsgV::Str(s[i].0), convert_spec(s[i].1)),
        ),
{
    assert(s.take(i + 1).drop_last() =~= s.take(i));
    assert(s.take(i + 1).last() == s[i]);
}

/// Recursive structural conversion of one value.
#[verifier::loop_isolation(false)]
#[verifier::rlimit(60)]
pub fn convert_value(v: &Json) -> (m: Msg)
    ensures
        mv(m) == convert_spec(jv(*v)),
    decreases *v,
{
    match v {
        Json::Null => Msg::Nil,
        Json::Bool(b) => Msg::Bool(*b),
        Json::Num(n) => Msg::F64(num_bits(n.as_slice())),
        Json::Str(s) => Msg::Str(clone_bytes(s.as_slice())),
        Json::Arr(a) => {
            let ghost js = jv_seq(a@);
            proof {
                lemma_jv_seq_len(a@);
                assert(js.take(0) =~= Seq::<JsonV>::empty());
            }
            let mut out: Vec<Msg> = Vec::new();
            let mut i: usize = 0;
            while i < a.len()
                invariant
                    i <= a@.len(),
                    js == jv_seq(a@),
                    js.len() == a@.len(),
                    mv_seq(out@) == convert_list(js.take(i as int)),
                decreases a@.len() - i,
            {
                proof {
                    lemma_jv_seq_index(a@, i as int);
                    assert(decreases_to!(*v => *a));
                    assert(decreases_to!(*a => a@));
                    assert(decreases_to!(a@ => a@[i as int]));
                    assert(decreases_to!(*v => a@[i as int]));
                }
                let child = convert_value(&a[i]);
                let ghost out0 = out@;
                out.push(child);
                proof {
                    lemma_mv_seq_push(out0, child);
                    lemma_convert_list_take_step(js, i as int);
                    assert(mv_seq(out@) == convert_list(js.take(i as int + 1)));
                }
                i += 1;
            }
            proof {
                assert(js.take(js.len() as int) =~= js);
            }
            Msg::Arr(out)
        },
        Json::Obj(o) => {
            let ghost js = jv_entries(o@);
            proof {
                lemma_jv_entries_len(o@);
                assert(js.take(0) =~= Seq::<(Seq<u8>, JsonV)>::empty());
            }
            let mut out: Vec<(Msg, Msg)> = Vec::new();
            let mut i: usize = 0;
            while i < o.len()
                invariant
                    i <= o@.len(),
                    js == jv_entries(o@),
                    js.len() == o@.len(),
                    mv_entries(out@) == convert_entries(js.take(i as int)),
                decreases o@.len() - i,
            {
                proof {
                    lemma_jv_entries_index(o@, i as int);
                    assert(decreases_to!(*v => *o));
                    assert(decreases_to!(*o => o@));
                    assert(decreases_to!(o@ => o@[i as int]));
                    assert(decreases_to!(o@[i as int] => o@[i as int].1));
                    assert(decreases_to!(*v => o@[i as int].1));
                }
                let key = Msg::Str(clone_bytes(o[i].0.as_slice()));
                let child = convert_value(&o[i].1);
                let entry = (key, child);
                let ghost out0 = out@;
                out.push(entry);
                proof {
                    lemma_mv_entries_push(out0, entry);
                    lemma_convert_entries_take_step(js, i as int);
                    assert(mv_entries(out@) == convert_entries(js.take(i as int + 1)));
                }
                i += 1;
            }
            proof {
                assert(js.take(js.len() as int) =~= js);
            }
            Msg::Dict(out)
        },
    }
}

/// The full conversion of one input buffer: parse as JSON, map the tree,
/// lay it out in the target format's bytes.
pub fn process_input(input: &[u8]) -> (r: Result<Vec<u8>, ConvertError>)
    ensures
        match json_of(input@) {
            Some(j) => {
                &&& (r is Ok <==> encodable(convert_spec(j)))
                &&& (r matches Ok(b) ==> b@ == msgpack_spec(convert_spec(j)))
                &&& (r is Err ==> r matches Err(ConvertError::Encode))
            },
            None => r matches Err(ConvertError::Decode(_)),
        },
{
    match parse_json(input) {
        Ok(v) => {
            let m = convert_value(&v);
            let mut out: Vec<u8> = Vec::new();
            let ok = encode_value(&m, &mut out);
            if ok {
                proof {
                    assert(Seq::<u8>::empty() + msgpack_spec(mv(m)) =~= msgpack_spec(mv(m)));
                }
                Ok(out)
            } else {
                Err(ConvertError::Encode)
            }
        },
        Err(e) => Err(ConvertError::Decode(e)),
    }
}

/// One invocation of the conversion unit: request the pending input, convert
/// it, deliver the encoded bytes, or report why there are none.
pub fn receive_from_host<H: Host>(host: &mut H, len: usize)
    requires
        len == old(host).data().len(),
    ensures
        final(host).data() == old(host).data(),
        match json_of(old(host).data()) {
            Some(j) => if encodable(convert_spec(j)) {
                final(host).sent() == old(host).sent().push(msgpack_spec(convert_spec(j)))
                    && final(host).errors() == old(host).errors()
            } else {
                final(host).sent() == old(host).sent() && grew_by_one(
                    old(host).errors(),
                    final(host).errors(),
                )
            },
            None => final(host).sent() == old(host).sent() && grew_by_one(
                old(host).errors(),
                final(host).errors(),
            ),
        },
{
    let input = host.get_data(len);
    match process_input(input.as_slice()) {
        Ok(out) => {
            host.send(out.as_slice());
        },
        Err(ConvertError::Decode(e)) => {
            host.error(e.as_str());
            proof {
                lemma_grew_by_one(old(host).errors(), e@);
            }
        },
        Err(ConvertError::Encode) => {
            host.error("value too large for the target format");
            proof {
                lemma_grew_by_one(old(host).errors(), "value too large for the target format"@);
            }
        },
    }
}

} // verus!
