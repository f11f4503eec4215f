use vstd::prelude::*;

verus! {

/// In-memory model of the target binary format's value set, restricted to the
/// six tags the converter produces. A float is carried as its IEEE 754 bit
/// pattern, which is all the byte layout needs.
pub enum Msg {
    Nil,
    Bool(bool),
    F64(u64),
    Str(Vec<u8>),
    Arr(Vec<Msg>),
    Dict(Vec<(Msg, Msg)>),
}

/// Mathematical view of a `Msg` tree: the same tags over `Seq`.
pub enum MsgV {
    Nil,
    Bool(bool),
    F64(u64),
    Str(Seq<u8>),
    Arr(Seq<MsgV>),
    Dict(Seq<(MsgV, MsgV)>),
}

pub open spec fn mv(m: Msg) -> MsgV
    decreases m,
{
    match m {
        Msg::Nil => MsgV::Nil,
        Msg::Bool(b) => MsgV::Bool(b),
        Msg::F64(bits) => MsgV::F64(bits),
        Msg::Str(s) => MsgV::Str(s@),
        Msg::Arr(a) => MsgV::Arr(mv_seq(a@)),
        Msg::Dict(o) => MsgV::Dict(mv_entries(o@)),
    }
}

pub open spec fn mv_seq(s: Seq<Msg>) -> Seq<MsgV>
    decreases s,
{
    if s.len() == 0 {
        Seq::empty()
    } else {
        mv_seq(s.drop_last()).push(mv(s.last()))
    }
}

pub open spec fn mv_entries(s: Seq<(Msg, Msg)>) -> Seq<(MsgV, MsgV)>
    decreases s,
{
    if s.len() == 0 {
        Seq::empty()
    } else {
        mv_entries(s.drop_last()).push((mv(s.last().0), mv(s.last().1)))
    }
}


pub proof fn lemma_mv_seq_push(s: Seq<Msg>, x: Msg)
    ensures
        mv_seq(s.push(x)) == mv_seq(s).push(mv(x)),
{
    assert(s.push(x).drop_last() =~= s);
    assert(s.push(x).last() == x);
}

pub proof fn lemma_mv_entries_push(s: Seq<(Msg, Msg)>, e: (Msg, Msg))
    ensures
        mv_entries(s.push(e)) == mv_entries(s).push((mv(e.0), mv(e.1))),
{
    assert(s.push(e).drop_last() =~= s);
    assert(s.push(e).last() == e);
}

/// Largest length a string, array or map header can carry.
pub const MAX_LEN32: usize = 0xffff_ffff;

/// Big-endian bytes of a 16-bit length.
pub open spec fn be16(n: int) -> Seq<u8> {
    seq![(n / 0x100 % 0x100) as u8, (n % 0x100) as u8]
}

/// Big-endian bytes of a 32-bit length.
pub open spec fn be32(n: int) -> Seq<u8> {
    seq![
        (n / 0x1000000 % 0x100) as u8,
        (n / 0x10000 % 0x100) as u8,
        (n / 0x100 % 0x100) as u8,
        (n % 0x100) as u8,
    ]
}

/// Big-endian bytes of a 64-bit value.
pub open spec fn be64(n: u64) -> Seq<u8> {
    seq![
        (n as int / 0x100000000000000 % 0x100) as u8,
        (n as int / 0x1000000000000 % 0x100) as u8,
        (n as int / 0x10000000000 % 0x100) as u8,
        (n as int / 0x100000000 % 0x100) as u8,
        (n as int / 0x1000000 % 0x100) as u8,
        (n as int / 0x10000 % 0x100) as u8,
        (n as int / 0x100 % 0x100) as u8,
        (n as int % 0x100) as u8,
    ]
}

/// Header bytes announcing a string of `n` bytes.
pub open spec fn str_header(n: int) -> Seq<u8> {
    if n < 32 {
        seq![(0xa0 + n) as u8]
    } else if n < 0x100 {
        seq![0xd9u8, n as u8]
    } else if n < 0x10000 {
        seq![0xdau8] + be16(n)
    } else {
        seq![0xdbu8] + be32(n)
    }
}

/// Header bytes announcing an array of `n` elements.
pub open spec fn arr_header(n: int) -> Seq<u8> {
    if n < 16 {
        seq![(0x90 + n) as u8]
    } else if n < 0x10000 {
        seq![0xdcu8] + be16(n)
    } else {
        seq![0xddu8] + be32(n)
    }
}

/// Header bytes announcing a map of `n` key/value pairs.
pub open spec fn map_header(n: int) -> Seq<u8> {
    if n < 16 {
        seq![(0x80 + n) as u8]
    } else if n < 0x10000 {
        seq![0xdeu8] + be16(n)
    } else {
        seq![0xdfu8] + be32(n)
    }
}

/// True when every string, array and map in the tree fits its 32-bit length
/// header; the only shapes the byte layout cannot carry.
pub open spec fn encodable(m: MsgV) -> bool
    decreases m,
{
    match m {
        MsgV::Nil => true,
        MsgV::Bool(_) => true,
        MsgV::F64(_) => true,
        MsgV::Str(s) => s.len() <= MAX_LEN32,
        MsgV::Arr(a) => a.len() <= MAX_LEN32 && encodable_list(a),
        MsgV::Dict(o) => o.len() <= MAX_LEN32 && encodable_entries(o),
    }
}

pub open spec fn encodable_list(s: Seq<MsgV>) -> bool
    decreases s,
{
    if s.len() == 0 {
        true
    } else {
        encodable_list(s.drop_last()) && encodable(s.last())
    }
}

pub open spec fn encodable_entries(s: Seq<(MsgV, MsgV)>) -> bool
    decreases s,
{
    if s.len() == 0 {
        true
    } else {
        encodable_entries(s.drop_last()) && encodable(s.last().0) && encodable(s.last().1)
    }
}

/// The canonical byte layout of a value: one type tag, a length where the tag
/// calls for one, then the payload.
pub open spec fn msgpack_spec(m: MsgV) -> Seq<u8>
    decreases m,
{
    match m {
        MsgV::Nil => seq![0xc0u8],
        MsgV::Bool(b) => if b {
            seq![0xc3u8]
        } else {
            seq![0xc2u8]
        },
        MsgV::F64(bits) => seq![0xcbu8] + be64(bits),
        MsgV::Str(s) => str_header(s.len() as int) + s,
        MsgV::Arr(a) => arr_header(a.len() as int) + enc_list(a),
        MsgV::Dict(o) => map_header(o.len() as int) + enc_entries(o),
    }
}

pub open spec fn enc_list(s: Seq<MsgV>) -> Seq<u8>
    decreases s,
{
    if s.len() == 0 {
        Seq::empty()
    } else {
        enc_list(s.drop_last()) + msgpack_spec(s.last())
    }
}

pub open spec fn enc_entries(s: Seq<(MsgV, MsgV)>) -> Seq<u8>
    decreases s,
{
    if s.len() == 0 {
        Seq::empty()
    } else {
        enc_entries(s.drop_last()) + msgpack_spec(s.last().0) + msgpack_spec(s.last().1)
    }
}

fn push_byte(out: &mut Vec<u8>, b: u8)
    ensures
        final(out)@ == old(out)@ + seq![b],
{
    out.push(b);
    assert(out@ =~= old(out)@ + seq![b]);
}

fn push_bytes(out: &mut Vec<u8>, s: &[u8])
    ensures
        final(out)@ == old(out)@ + s@,
{
    let mut i: usize = 0;
    while i < s.len()
        invariant
            i <= s@.len(),
            out@ == old(out)@ + s@.subrange(0, i as int),
        decreases s@.len() - i,
    {
        out.push(s[i]);
        i += 1;
    }
    assert(s@.subrange(0, s@.len() as int) =~= s@);
}

fn push_be16(out: &mut Vec<u8>, n: usize)
    requires
        n < 0x10000,
    ensures
        final(out)@ == old(out)@ + be16(n as int),
{
    out.push((n / 0x100 % 0x100) as u8);
    out.push((n % 0x100) as u8);
    assert(out@ =~= old(out)@ + be16(n as int));
}

fn push_be32(out: &mut Vec<u8>, n: usize)
    requires
        n <= MAX_LEN32,
    ensures
        final(out)@ == old(out)@ + be32(n as int),
{
    out.push((n / 0x1000000 % 0x100) as u8);
    out.push((n / 0x10000 % 0x100) as u8);
    out.push((n / 0x100 % 0x100) as u8);
    out.push((n % 0x100) as u8);
    assert(out@ =~= old(out)@ + be32(n as int));
}

fn push_be64(out: &mut Vec<u8>, n: u64)
    ensures
        final(out)@ == old(out)@ + be64(n),
{
    out.push((n / 0x100000000000000 % 0x100) as u8);
    out.push((n / 0x1000000000000 % 0x100) as u8);
    out.push((n / 0x10000000000 % 0x100) as u8);
    out.push((n / 0x100000000 % 0x100) as u8);
    out.push((n / 0x1000000 % 0x100) as u8);
    out.push((n / 0x10000 % 0x100) as u8);
    out.push((n / 0x100 % 0x100) as u8);
    out.push((n % 0x100) as u8);
    assert(out@ =~= old(out)@ + be64(n));
}

proof fn lemma_take_step_list(s: Seq<MsgV>, i: int)
    requires
        0 <= i < s.len(),
    ensures
        enc_list(s.take(i + 1)) == enc_list(s.take(i)) + msgpack_spec(s[i]),
        encodable_list(s.take(i + 1)) == (encodable_list(s.take(i)) && encodable(s[i])),
{
    assert(s.take(i + 1).drop_last() =~= s.take(i));
    assert(s.take(i + 1).last() == s[i]);
}

proof fn lemma_take_step_entries(s: Seq<(MsgV, MsgV)>, i: int)
    requires
        0 <= i < s.len(),
    ensures
        enc_entries(s.take(i + 1)) == enc_entries(s.take(i)) + msgpack_spec(s[i].0)
            + msgpack_spec(s[i].1),
        encodable_entries(s.take(i + 1)) == (encodable_entries(s.take(i)) && encodable(s[i].0)
            && encodable(s[i].1)),
{
    assert(s.take(i + 1).drop_last() =~= s.take(i));
    assert(s.take(i + 1).last() == s[i]);
}

proof fn lemma_mv_seq_index(s: Seq<Msg>, i: int)
    requires
        0 <= i < s.len(),
    ensures
        mv_seq(s).len() == s.len(),
        mv_seq(s)[i] == mv(s[i]),
    decreases s,
{
    if s.len() > 0 {
        if i < s.len() - 1 {
            lemma_mv_seq_index(s.drop_last(), i);
        } else {
            if s.len() > 1 {
                lemma_mv_seq_index(s.drop_last(), 0);
            }
        }
        assert(mv_seq(s) == mv_seq(s.drop_last()).push(mv(s.last())));
        lemma_mv_seq_len(s.drop_last());
    }
}

proof fn lemma_mv_seq_len(s: Seq<Msg>)
    ensures
        mv_seq(s).len() == s.len(),
    decreases s,
{
    if s.len() > 0 {
        lemma_mv_seq_len(s.drop_last());
    }
}

proof fn lemma_mv_entries_index(s: Seq<(Msg, Msg)>, i: int)
    requires
        0 <= i < s.len(),
    ensures
        mv_entries(s).len() == s.len(),
        mv_entries(s)[i] == (mv(s[i].0), mv(s[i].1)),
    decreases s,
{
    lemma_mv_entries_len(s);
    if s.len() > 0 {
        if i < s.len() - 1 {
            lemma_mv_entries_index(s.drop_last(), i);
        }
        lemma_mv_entries_len(s.drop_last());
    }
}

proof fn lemma_mv_entries_len(s: Seq<(Msg, Msg)>)
    ensures
        mv_entries(s).len() == s.len(),
    decreases s,
{
    if s.len() > 0 {
        lemma_mv_entries_len(s.drop_last());
    }
}

/// Appends the byte layout of `m` to `out`. Returns `false`, leaving `out` in
/// an unspecified state, exactly when some length in the tree overflows its
/// header; the caller then discards the buffer.
#[verifier::loop_isolation(false)]
#[verifier::rlimit(60)]
pub fn encode_value(m: &Msg, out: &mut Vec<u8>) -> (ok: bool)
    ensures
        ok == encodable(mv(*m)),
        ok ==> final(out)@ == old(out)@ + msgpack_spec(mv(*m)),
    decreases *m,
{
    match m {
        Msg::Nil => {
            push_byte(out, 0xc0);
            true
        },
        Msg::Bool(b) => {
            push_byte(out, if *b { 0xc3 } else { 0xc2 });
            true
        },
        Msg::F64(bits) => {
            push_byte(out, 0xcb);
            push_be64(out, *bits);
            assert(out@ =~= old(out)@ + (seq![0xcbu8] + be64(*bits)));
            true
        },
        Msg::Str(s) => {
            let n = s.len();
            if n > MAX_LEN32 {
                return false;
            }
            if n < 32 {
                push_byte(out, (0xa0 + n) as u8);
            } else if n < 0x100 {
                push_byte(out, 0xd9);
                push_byte(out, n as u8);
                assert(out@ =~= old(out)@ + seq![0xd9u8, n as u8]);
            } else if n < 0x10000 {
                push_byte(out, 0xda);
                push_be16(out, n);
                assert(out@ =~= old(out)@ + (seq![0xdau8] + be16(n as int)));
            } else {
                push_byte(out, 0xdb);
                push_be32(out, n);
                assert(out@ =~= old(out)@ + (seq![0xdbu8] + be32(n as int)));
            }
            push_bytes(out, s.as_slice());
            assert(out@ =~= old(out)@ + (str_header(s@.len() as int) + s@));
            true
        },
        Msg::Arr(a) => {
            let n = a.len();
            if n > MAX_LEN32 {
                proof {
                    lemma_mv_seq_len(a@);
                }
                return false;
            }
            if n < 16 {
                push_byte(out, (0x90 + n) as u8);
            } else if n < 0x10000 {
                push_byte(out, 0xdc);
                push_be16(out, n);
                assert(out@ =~= old(out)@ + (seq![0xdcu8] + be16(n as int)));
            } else {
                push_byte(out, 0xdd);
                push_be32(out, n);
                assert(out@ =~= old(out)@ + (seq![0xddu8] + be32(n as int)));
            }
            let ghost hdr = out@;
            let ghost vs = mv_seq(a@);
            proof {
                lemma_mv_seq_len(a@);
                assert(vs.take(0) =~= Seq::empty());
            }
            let mut i: usize = 0;
            while i < n
                invariant
                    i <= n,
                    n == a@.len(),
                    n <= MAX_LEN32,
                    vs == mv_seq(a@),
                    vs.len() == n,
                    out@ == hdr + enc_list(vs.take(i as int)),
                    encodable_list(vs.take(i as int)),
                decreases n - i,
            {
                proof {
                    lemma_mv_seq_index(a@, i as int);
                    assert(decreases_to!(*m => *a));
                    assert(decreases_to!(*a => a@));
                    assert(decreases_to!(a@ => a@[i as int]));
                    assert(decreases_to!(*m => a@[i as int]));
                }
                let ok = encode_value(&a[i], out);
                if !ok {
                    proof {
                        assert(vs[i as int] == mv(a@[i as int]));
                        assert(!encodable(vs[i as int]));
                        lemma_take_step_list(vs, i as int);
                        assert(!encodable_list(vs.take(i as int + 1)));
                        lemma_encodable_list_prefix(vs, i as int + 1);
                        assert(!encodable_list(vs));
                        assert(mv(*m) == MsgV::Arr(vs));
                        assert(!encodable(mv(*m)));
                    }
                    return false;
                }
                proof {
                    lemma_take_step_list(vs, i as int);
                }
                i += 1;
            }
            proof {
                assert(vs.take(n as int) =~= vs);
                assert(out@ =~= old(out)@ + (arr_header(n as int) + enc_list(vs)));
            }
            true
        },
        Msg::Dict(o) => {
            let n = o.len();
            if n > MAX_LEN32 {
                proof {
                    lemma_mv_entries_len(o@);
                }
                return false;
            }
            if n < 16 {
                push_byte(out, (0x80 + n) as u8);
            } else if n < 0x10000 {
                push_byte(out, 0xde);
                push_be16(out, n);
                assert(out@ =~= old(out)@ + (seq![0xdeu8] + be16(n as int)));
            } else {
                push_byte(out, 0xdf);
                push_be32(out, n);
                assert(out@ =~= old(out)@ + (seq![0xdfu8] + be32(n as int)));
            }
            let ghost hdr = out@;
            let ghost vs = mv_entries(o@);
            proof {
                lemma_mv_entries_len(o@);
                assert(vs.take(0) =~= Seq::empty());
            }
            let mut i: usize = 0;
            while i < n
                invariant
                    i <= n,
                    n == o@.len(),
                    n <= MAX_LEN32,
                    vs == mv_entries(o@),
                    vs.len() == n,
                    out@ == hdr + enc_entries(vs.take(i as int)),
                    encodable_entries(vs.take(i as int)),
                decreases n - i,
            {
                proof {
                    lemma_mv_entries_index(o@, i as int);
                    assert(decreases_to!(*m => *o));
                    assert(decreases_to!(*o => o@));
                    assert(decreases_to!(o@ => o@[i as int]));
                    assert(decreases_to!(o@[i as int] => o@[i as int].0));
                    assert(decreases_to!(o@[i as int] => o@[i as int].1));
                    assert(decreases_to!(*m => o@[i as int].0));
                    assert(decreases_to!(*m => o@[i as int].1));
                }
                let ok_k = encode_value(&o[i].0, out);
                if !ok_k {
                    proof {
                        assert(vs[i as int].0 == mv(o@[i as int].0));
                        lemma_take_step_entries(vs, i as int);
                        lemma_encodable_entries_prefix(vs, i as int + 1);
                        assert(!encodable_entries(vs));
                        assert(mv(*m) == MsgV::Dict(vs));
                    }
                    return false;
                }
                let ok_v = encode_value(&o[i].1, out);
                if !ok_v {
                    proof {
                        assert(vs[i as int].1 == mv(o@[i as int].1));
                        lemma_take_step_entries(vs, i as int);
                        lemma_encodable_entries_prefix(vs, i as int + 1);
                        assert(!encodable_entries(vs));
                        assert(mv(*m) == MsgV::Dict(vs));
                    }
                    return false;
                }
                proof {
                    lemma_take_step_entries(vs, i as int);
                    assert(out@ =~= hdr + enc_entries(vs.take(i as int + 1)));
                }
                i += 1;
            }
            proof {
                assert(vs.take(n as int) =~= vs);
                assert(out@ =~= old(out)@ + (map_header(n as int) + enc_entries(vs)));
            }
            true
        },
    }
}

proof fn lemma_encodable_list_prefix(s: Seq<MsgV>, i: int)
    requires
        0 <= i <= s.len(),
        !encodable_list(s.take(i)),
    ensures
        !encodable_list(s),
    decreases s.len() - i,
{
    if i < s.len() {
        lemma_take_step_list(s, i);
        lemma_encodable_list_prefix(s, i + 1);
    } else {
        assert(s.take(i) =~= s);
    }
}

proof fn lemma_encodable_entries_prefix(s: Seq<(MsgV, MsgV)>, i: int)
    requires
        0 <= i <= s.len(),
        !encodable_entries(s.take(i)),
    ensures
        !encodable_entries(s),
    decreases s.len() - i,
{
    if i < s.len() {
        lemma_take_step_entries(s, i);
        lemma_encodable_entries_prefix(s, i + 1);
    } else {
        assert(s.take(i) =~= s);
    }
}

} // verus!
