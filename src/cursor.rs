//! The byte cursor that decoding reads from.
use vstd::prelude::*;

verus! {

/// A read-only view of a byte buffer with a position; decoding consumes the
/// unread bytes from the front.
pub struct ByteCursor {
    data: Vec<u8>,
    pos: usize,
}

impl ByteCursor {
    /// The bytes not yet read.
    pub closed spec fn rest(&self) -> Seq<u8> {
        self.data@.subrange(self.pos as int, self.data@.len() as int)
    }

    #[verifier::type_invariant]
    spec fn inv(&self) -> bool {
        self.pos <= self.data@.len()
    }

    /// A cursor at the start of a copy of `b`.
    pub fn new(b: &[u8]) -> (r: ByteCursor)
        ensures
            r.rest() == b@,
    {
        let mut data: Vec<u8> = Vec::new();
        let mut i: usize = 0;
        while i < b.len()
            invariant
                i <= b@.len(),
                data@ == b@.subrange(0, i as int),
            decreases b@.len() - i,
        {
            data.push(b[i]);
            i = i + 1;
        }
        proof {
            assert(data@ == b@.subrange(0, b@.len() as int));
            assert(b@.subrange(0, b@.len() as int) == b@);
        }
        let r = ByteCursor { data, pos: 0 };
        assert(r.rest() == r.data@.subrange(0, r.data@.len() as int));
        r
    }

    /// The number of bytes not yet read.
    pub fn remaining(&self) -> (r: usize)
        ensures
            r == self.rest().len(),
    {
        proof {
            use_type_invariant(self);
        }
        self.data.len() - self.pos
    }

    /// The unread bytes, without consuming them.
    pub fn peek_remaining(&self) -> (r: &[u8])
        ensures
            r@ == self.rest(),
    {
        proof {
            use_type_invariant(self);
        }
        let (_, tail) = self.data.as_slice().split_at(self.pos);
        tail
    }

    /// Skips `n` bytes, which must be there.
    pub fn advance(&mut self, n: usize)
        requires
            n <= old(self).rest().len(),
        ensures
            final(self).rest() == old(self).rest().skip(n as int),
    {
        proof {
            use_type_invariant(&*self);
        }
        let end = self.data.len();
        assert(self.pos + n <= end);
        self.pos = self.pos + n;
        assert(self.rest() =~= old(self).rest().skip(n as int));
    }

    /// Reads one byte; `None`, with nothing consumed, when no byte is left.
    pub fn get_u8(&mut self) -> (r: Option<u8>)
        ensures
            old(self).rest().len() == 0 ==> r is None && final(self).rest() == old(self).rest(),
            old(self).rest().len() > 0 ==> r == Some(old(self).rest()[0]) && final(self).rest()
                == old(self).rest().skip(1),
    {
        proof {
            use_type_invariant(&*self);
        }
        if self.pos < self.data.len() {
            let v = self.data[self.pos];
            self.pos = self.pos + 1;
            assert(self.rest() =~= old(self).rest().skip(1));
            Some(v)
        } else {
            None
        }
    }

    /// Reads the next `n` bytes; `None`, with nothing consumed, when fewer
    /// than `n` are left.
    pub fn take(&mut self, n: usize) -> (r: Option<Vec<u8>>)
        ensures
            n > old(self).rest().len() ==> r is None && final(self).rest() == old(self).rest(),
            n <= old(self).rest().len() ==> r is Some && r->0@ == old(self).rest().take(n as int)
                && final(self).rest() == old(self).rest().skip(n as int),
    {
        proof {
            use_type_invariant(&*self);
        }
        if n > self.data.len() - self.pos {
            return None;
        }
        let mut out: Vec<u8> = Vec::new();
        let mut i: usize = 0;
        while i < n
            invariant
                i <= n,
                self.pos + n <= self.data.len(),
                self == old(self),
                out@ == self.data@.subrange(self.pos as int, self.pos + i),
            decreases n - i,
        {
            out.push(self.data[self.pos + i]);
            i = i + 1;
        }
        self.pos = self.pos + n;
        assert(out@ =~= old(self).rest().take(n as int));
        assert(self.rest() =~= old(self).rest().skip(n as int));
        Some(out)
    }
}

} // verus!
