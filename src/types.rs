//! The codec interface: the wire model of each shape, the byte sink that
//! encoding writes to, and the encode and decode operations.
use vstd::prelude::*;

use crate::cursor::ByteCursor;

verus! {

/// An append-only destination for encoded bytes.
pub trait ByteWriter {
    /// Everything written so far.
    spec fn written(&self) -> Seq<u8>;

    /// Appends `b` to what was written.
    fn write(&mut self, b: &[u8])
        ensures
            final(self).written() == old(self).written() + b@,
    ;
}

impl ByteWriter for Vec<u8> {
    open spec fn written(&self) -> Seq<u8> {
        self@
    }

    fn write(&mut self, b: &[u8]) {
        let ghost start = self@;
        let mut i: usize = 0;
        while i < b.len()
            invariant
                i <= b@.len(),
                self@ == start + b@.subrange(0, i as int),
            decreases b@.len() - i,
        {
            self.push(b[i]);
            i = i + 1;
            assert(self@ =~= start + b@.subrange(0, i as int));
        }
        assert(b@.subrange(0, b@.len() as int) =~= b@);
    }
}

/// The wire format of a shape: a mathematical model of its values, the
/// bytes that encode a model, and how a byte sequence is read back.
pub trait WireFormat: Sized {
    /// What a value of the shape stands for.
    type M;

    /// The model of a value.
    spec fn model(&self) -> Self::M;

    /// The models that the wire format can carry: those whose lengths and
    /// counts fit a size.
    spec fn valid(m: Self::M) -> bool;

    /// The bytes that encode `m`.
    spec fn encoding(m: Self::M) -> Seq<u8>;

    /// Reads one value from the front of `s`: its model and the number of
    /// bytes consumed, or `None` when `s` is truncated or malformed.
    spec fn decoding(s: Seq<u8>) -> Option<(Self::M, nat)>;

    /// Decoding the encoding of a model, whatever follows it, gives the model
    /// back and consumes exactly the encoding.
    proof fn lemma_round_trip(m: Self::M, rest: Seq<u8>)
        requires
            Self::valid(m),
        ensures
            Self::decoding(Self::encoding(m) + rest) == Some((m, Self::encoding(m).len())),
    ;

    /// Decoding reads only within its input, and what it reads decides it:
    /// the same first bytes give the same result whatever follows them.
    proof fn lemma_prefix(s: Seq<u8>, rest: Seq<u8>)
        ensures
            Self::decoding(s) matches Some((m, n)) ==> n <= s.len() && Self::decoding(
                s.take(n as int) + rest,
            ) == Some((m, n)),
    ;
}

/// A shape that can be written to a byte sink.
pub trait ToBytes: WireFormat {
    /// Appends the encoding of `self` to `out`.
    fn to_bytes<W: ByteWriter>(&self, out: &mut W)
        ensures
            final(out).written() == old(out).written() + Self::encoding(self.model()),
    ;
}

/// A shape that can be read from a byte cursor.
pub trait FromBytes: WireFormat {
    /// Reads one value from the front of `b`. On success exactly the bytes
    /// of the value are consumed; truncated or malformed input gives `None`.
    fn from_bytes(b: &mut ByteCursor) -> (r: Option<Self>)
        ensures
            match Self::decoding(old(b).rest()) {
                None => r is None,
                Some((m, n)) => {
                    &&& r is Some
                    &&& r->0.model() == m
                    &&& n <= old(b).rest().len()
                    &&& final(b).rest() == old(b).rest().skip(n as int)
                },
            },
    ;
}

/// Encodes `t` into a new byte vector.
pub fn to_bytes<T: ToBytes>(t: &T) -> (r: Vec<u8>)
    ensures
        r@ == T::encoding(t.model()),
{
    let mut out: Vec<u8> = Vec::new();
    t.to_bytes(&mut out);
    assert(out@ =~= T::encoding(t.model()));
    out
}

/// Decodes one value from the front of `b`; `None` when `b` is truncated or
/// malformed for the shape. ByteCursor after the value are ignored.
pub fn from_bytes<T: FromBytes>(b: &[u8]) -> (r: Option<T>)
    ensures
        match T::decoding(b@) {
            None => r is None,
            Some((m, _)) => r is Some && r->0.model() == m,
        },
{
    let mut cursor = ByteCursor::new(b);
    T::from_bytes(&mut cursor)
}

} // verus!
