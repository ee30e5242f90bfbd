//! A one-directional, peekable view over an owned byte buffer.

use vstd::prelude::*;

verus! {

/// An ordered cursor over a byte buffer. Bytes are handed out front to
/// back; once a byte has been consumed it is never offered again. The
/// abstraction a caller reasons about is `remaining()`, the bytes not yet
/// consumed.
pub struct ByteCursor {
    bytes: Vec<u8>,
    pos: usize,
}

impl ByteCursor {
    /// The cursor never stands past the end of its buffer.
    pub closed spec fn wf(self) -> bool {
        self.pos <= self.bytes@.len()
    }

    /// The bytes not yet consumed, in the order they will be offered.
    pub closed spec fn remaining(self) -> Seq<u8> {
        self.bytes@.skip(self.pos as int)
    }

    /// A fresh cursor offers the whole buffer.
    pub fn new(bytes: Vec<u8>) -> (c: ByteCursor)
        ensures
            c.wf(),
            c.remaining() == bytes@,
    {
        let c = ByteCursor { bytes, pos: 0 };
        proof {
            assert(c.remaining() =~= c.bytes@);
        }
        c
    }

    /// The next byte, without consuming it.
    pub fn peek(&self) -> (r: Option<u8>)
        requires
            self.wf(),
        ensures
            r == (if self.remaining().len() == 0 {
                Option::<u8>::None
            } else {
                Option::<u8>::Some(self.remaining()[0])
            }),
    {
        if self.pos < self.bytes.len() {
            Some(self.bytes[self.pos])
        } else {
            None
        }
    }

    /// Consume and return the next byte; at the end of the buffer nothing
    /// changes and nothing is returned.
    pub fn advance(&mut self) -> (r: Option<u8>)
        requires
            old(self).wf(),
        ensures
            final(self).wf(),
            old(self).remaining().len() == 0 ==> r is None && final(self).remaining()
                == old(self).remaining(),
            old(self).remaining().len() > 0 ==> r == Option::<u8>::Some(old(self).remaining()[0])
                && final(self).remaining() == old(self).remaining().skip(1),
    {
        if self.pos < self.bytes.len() {
            let b = self.bytes[self.pos];
            self.pos = self.pos + 1;
            proof {
                assert(self.remaining() =~= old(self).remaining().skip(1));
            }
            Some(b)
        } else {
            None
        }
    }

    /// Consume and return every byte not yet consumed, leaving the cursor
    /// exhausted.
    pub fn take_rest(&mut self) -> (v: Vec<u8>)
        requires
            old(self).wf(),
        ensures
            final(self).wf(),
            v@ == old(self).remaining(),
            final(self).remaining().len() == 0,
    {
        let rest = self.bytes.split_off(self.pos);
        self.pos = self.bytes.len();
        proof {
            assert(rest@ =~= old(self).remaining());
            assert(self.remaining() =~= Seq::<u8>::empty());
        }
        rest
    }
}

} // verus!
