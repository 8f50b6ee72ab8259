//! The payload bytes a reader holds after finding the marker, handed out
//! before any more bytes are read from the image.
use vstd::prelude::*;

verus! {

/// Bytes already read past the marker and not yet handed out.
pub struct PayloadBuffer {
    bytes: Vec<u8>,
    pos: usize,
}

impl PayloadBuffer {
    /// The bytes not yet handed out.
    pub closed spec fn remaining(&self) -> Seq<u8> {
        self.bytes@.skip(self.pos as int)
    }

    pub closed spec fn wf(&self) -> bool {
        self.pos <= self.bytes@.len()
    }

    /// A buffer that holds `bytes`.
    pub fn new(bytes: Vec<u8>) -> (r: PayloadBuffer)
        ensures
            r.wf(),
            r.remaining() == bytes@,
    {
        let r = PayloadBuffer { bytes, pos: 0 };
        assert(r.bytes@.skip(0) =~= r.bytes@);
        r
    }

    /// Whether every byte has been handed out.
    pub fn is_empty(&self) -> (r: bool)
        requires
            self.wf(),
        ensures
            r == (self.remaining().len() == 0),
    {
        self.pos >= self.bytes.len()
    }

    /// Copies as many held bytes as fit into the front of `buf` and returns how
    /// many that was; the rest of `buf` is left as it was.
    pub fn take_into(&mut self, buf: &mut [u8]) -> (n: usize)
        requires
            old(self).wf(),
        ensures
            final(self).wf(),
            n == if old(self).remaining().len() < old(buf)@.len() {
                old(self).remaining().len()
            } else {
                old(buf)@.len()
            },
            final(buf)@ == old(self).remaining().take(n as int) + old(buf)@.skip(n as int),
            final(self).remaining() == old(self).remaining().skip(n as int),
    {
        let ghost rem = self.remaining();
        let mut n: usize = 0;
        while self.pos < self.bytes.len() && n < buf.len()
            invariant
                self.wf(),
                self.bytes@ == old(self).bytes@,
                self.pos == old(self).pos + n,
                rem == old(self).bytes@.skip(old(self).pos as int),
                n <= buf@.len(),
                buf@.len() == old(buf)@.len(),
                n <= rem.len(),
                self.bytes@.len() - self.pos == rem.len() - n,
                self.remaining() == rem.skip(n as int),
                buf@ == rem.take(n as int) + old(buf)@.skip(n as int),
            decreases buf@.len() - n,
        {
            assert(self.remaining()[0] == rem[n as int]);
            buf[n] = self.bytes[self.pos];
            self.pos = self.pos + 1;
            n = n + 1;
            assert(self.remaining() =~= rem.skip(n as int));
            assert(buf@ =~= rem.take(n as int) + old(buf)@.skip(n as int));
        }
        n
    }
}

} // verus!
