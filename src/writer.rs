use vstd::prelude::*;

use crate::error::{Error, ErrorKind, Result};

verus! {

/// The write side of a segment: the position at which the next byte lands,
/// and the bytes written since the last flush. `flush` hands those bytes out
/// to be committed to the file; `pos` already counts them, so that the
/// position read after a framed write and its flush is the end of the record.
pub struct PosWriter {
    pending: Vec<u8>,
    pos: u64,
}

impl PosWriter {
    /// The offset of the next byte to be written.
    pub closed spec fn spec_pos(self) -> u64 {
        self.pos
    }

    /// The bytes written and not yet flushed.
    pub closed spec fn spec_pending(self) -> Seq<u8> {
        self.pending@
    }

    /// The pending bytes lie at the end of the segment.
    pub closed spec fn wf(self) -> bool {
        self.pending@.len() <= self.pos
    }

    /// A writer positioned at `pos`, the length of the segment it appends to.
    pub fn new(pos: u64) -> (r: PosWriter)
        ensures
            r.wf(),
            r.spec_pos() == pos,
            r.spec_pending() == Seq::<u8>::empty(),
    {
        PosWriter { pending: Vec::new(), pos }
    }

    pub fn pos(&self) -> (r: u64)
        ensures
            r == self.spec_pos(),
    {
        self.pos
    }

    /// Appends `buf`, advancing the position by its length. Fails, changing
    /// nothing, where the position would pass `u64::MAX`.
    pub fn write(&mut self, buf: &[u8]) -> (r: Result<usize>)
        requires
            old(self).wf(),
        ensures
            final(self).wf(),
            match r {
                Ok(n) => {
                    &&& n == buf@.len()
                    &&& final(self).spec_pos() == old(self).spec_pos() + buf@.len()
                    &&& final(self).spec_pending() == old(self).spec_pending() + buf@
                },
                Err(e) => {
                    &&& old(self).spec_pos() + buf@.len() > u64::MAX
                    &&& e.kind is Io
                    &&& *final(self) == *old(self)
                },
            },
    {
        let n = buf.len();
        if n as u128 + self.pos as u128 > u64::MAX as u128 {
            return Err(Error::new(ErrorKind::Io(String::from_str("segment offset overflow"))));
        }
        let ghost before = self.pending@;
        let mut i: usize = 0;
        while i < n
            invariant
                0 <= i <= n,
                n == buf@.len(),
                self.pos == old(self).pos,
                self.pending@ == before + buf@.subrange(0, i as int),
            decreases n - i,
        {
            self.pending.push(buf[i]);
            i += 1;
            proof {
                assert(buf@.subrange(0, i as int) == buf@.subrange(0, i - 1 as int).push(buf@[i - 1]));
            }
        }
        assert(buf@.subrange(0, n as int) == buf@);
        self.pos = self.pos + n as u64;
        Ok(n)
    }

    /// Moves the position back to `pos`, dropping the pending bytes: those
    /// of a write that will not be committed.
    pub fn seek(&mut self, pos: u64)
        requires
            pos <= old(self).spec_pos(),
        ensures
            final(self).wf(),
            final(self).spec_pos() == pos,
            final(self).spec_pending() == Seq::<u8>::empty(),
    {
        self.pending = Vec::new();
        self.pos = pos;
    }

    /// Hands out the pending bytes, to be committed to the segment in order,
    /// and forgets them. The position stays where it is.
    pub fn flush(&mut self) -> (r: Vec<u8>)
        requires
            old(self).wf(),
        ensures
            final(self).wf(),
            r@ == old(self).spec_pending(),
            final(self).spec_pending() == Seq::<u8>::empty(),
            final(self).spec_pos() == old(self).spec_pos(),
    {
        let mut out: Vec<u8> = Vec::new();
        std::mem::swap(&mut out, &mut self.pending);
        out
    }
}

} // verus!
