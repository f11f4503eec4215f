use vstd::prelude::*;

verus! {

/// Boundary to the runtime that schedules an invocation: it supplies the
/// input bytes, receives output buffers, and receives error reports.
///
/// Implementations live outside this library (the real runtime binding, or a
/// test double); the contracts below are the boundary guarantees every
/// implementation is expected to honour: `get_data` hands over exactly the
/// pending input, `send` records one delivered buffer, `error` records one
/// reported message, and no call disturbs the other two channels.
pub trait Host {
    /// The input bytes pending for the current invocation. The default
    /// stands for a host with nothing pending; a binding models its real
    /// buffer here.
    open spec fn data(&self) -> Seq<u8> {
        Seq::empty()
    }

    /// Every buffer delivered to the host so far, oldest first.
    open spec fn sent(&self) -> Seq<Seq<u8>> {
        Seq::empty()
    }

    /// Every error message reported to the host so far, oldest first.
    open spec fn errors(&self) -> Seq<Seq<char>> {
        Seq::empty()
    }

    /// Obtains exactly `len` bytes of input; no partial reads.
    fn get_data(&mut self, len: usize) -> (r: Vec<u8>)
        requires
            len == old(self).data().len(),
        ensures
            r@ == old(self).data(),
            final(self).data() == old(self).data(),
            final(self).sent() == old(self).sent(),
            final(self).errors() == old(self).errors(),
    ;

    /// Hands a result buffer to the host; the return value tells whether the
    /// host accepted it, which never fails the invocation itself.
    fn send(&mut self, v: &[u8]) -> (accepted: bool)
        ensures
            final(self).data() == old(self).data(),
            final(self).sent() == old(self).sent().push(v@),
            final(self).errors() == old(self).errors(),
    ;

    /// Reports that the invocation could not produce a result.
    fn error(&mut self, msg: &str)
        ensures
            final(self).data() == old(self).data(),
            final(self).sent() == old(self).sent(),
            final(self).errors() == old(self).errors().push(msg@),
    ;
}


/// `post` is `pre` with exactly one element appended.
pub open spec fn grew_by_one<T>(pre: Seq<T>, post: Seq<T>) -> bool {
    post.len() == pre.len() + 1 && post.subrange(0, pre.len() as int) == pre
}

pub proof fn lemma_grew_by_one<T>(pre: Seq<T>, x: T)
    ensures
        grew_by_one(pre, pre.push(x)),
{
    assert(pre.push(x).subrange(0, pre.len() as int) =~= pre);
}

} // verus!
