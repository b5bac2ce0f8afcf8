//! Shapes built from other shapes: optionals, boxes and sequences.
use vstd::prelude::*;

use crate::cursor::ByteCursor;
use crate::scalar::{FALSE_BYTE, TRUE_BYTE};
use crate::types::{ByteWriter, FromBytes, ToBytes, WireFormat};

verus! {

broadcast use vstd::seq_lib::group_seq_properties;

impl<T: WireFormat> WireFormat for Option<T> {
    type M = Option<T::M>;

    open spec fn model(&self) -> Option<T::M> {
        match self {
            None => None,
            Some(v) => Some(v.model()),
        }
    }

    open spec fn valid(m: Option<T::M>) -> bool {
        match m {
            None => true,
            Some(x) => T::valid(x),
        }
    }

    /// A presence byte, `'0'` or `'1'`, then the payload if present.
    open spec fn encoding(m: Option<T::M>) -> Seq<u8> {
        match m {
            None => seq![FALSE_BYTE],
            Some(x) => seq![TRUE_BYTE] + T::encoding(x),
        }
    }

    /// Any presence byte but `'0'` announces a payload.
    open spec fn decoding(s: Seq<u8>) -> Option<(Option<T::M>, nat)> {
        if s.len() == 0 {
            None
        } else if s[0] == FALSE_BYTE {
            Some((None, 1))
        } else {
            match T::decoding(s.skip(1)) {
                None => None,
                Some((x, n)) => Some((Some(x), n + 1)),
            }
        }
    }

    proof fn lemma_round_trip(m: Option<T::M>, rest: Seq<u8>) {
        let s = Self::encoding(m) + rest;
        assert(s[0] == Self::encoding(m)[0]);
        if let Some(x) = m {
            assert(s.skip(1) =~= T::encoding(x) + rest);
            T::lemma_round_trip(x, rest);
        }
    }

    proof fn lemma_prefix(s: Seq<u8>, rest: Seq<u8>) {
        if s.len() > 0 {
            T::lemma_prefix(s.skip(1), rest);
            if let Some((m, n)) = Self::decoding(s) {
                let t = s.take(n as int) + rest;
                assert(t[0] == s[0]);
                if s[0] != FALSE_BYTE {
                    assert(t.skip(1) =~= s.skip(1).take(n - 1) + rest);
                }
            }
        }
    }
}

impl<T: ToBytes> ToBytes for Option<T> {
    fn to_bytes<W: ByteWriter>(&self, out: &mut W) {
        match self {
            None => {
                let flag: Vec<u8> = vec![FALSE_BYTE];
                out.write(flag.as_slice());
                assert(flag@ =~= Self::encoding(self.model()));
            },
            Some(v) => {
                let flag: Vec<u8> = vec![TRUE_BYTE];
                out.write(flag.as_slice());
                v.to_bytes(out);
                assert(out.written() =~= old(out).written() + Self::encoding(self.model()));
            },
        }
    }
}

impl<T: FromBytes> FromBytes for Option<T> {
    fn from_bytes(b: &mut ByteCursor) -> (r: Option<Option<T>>) {
        let ghost s = b.rest();
        match b.get_u8() {
            None => None,
            Some(flag) => {
                if flag == FALSE_BYTE {
                    Some(None)
                } else {
                    match T::from_bytes(b) {
                        None => None,
                        Some(v) => {
                            assert(b.rest() =~= s.skip((Self::decoding(s)->0).1 as int));
                            Some(Some(v))
                        },
                    }
                }
            },
        }
    }
}

impl<T: WireFormat> WireFormat for Box<T> {
    type M = T::M;

    open spec fn model(&self) -> T::M {
        (**self).model()
    }

    open spec fn valid(m: T::M) -> bool {
        T::valid(m)
    }

    /// A box is carried as its contents.
    open spec fn encoding(m: T::M) -> Seq<u8> {
        T::encoding(m)
    }

    open spec fn decoding(s: Seq<u8>) -> Option<(T::M, nat)> {
        T::decoding(s)
    }

    proof fn lemma_round_trip(m: T::M, rest: Seq<u8>) {
        T::lemma_round_trip(m, rest);
    }

    proof fn lemma_prefix(s: Seq<u8>, rest: Seq<u8>) {
        T::lemma_prefix(s, rest);
    }
}

impl<T: ToBytes> ToBytes for Box<T> {
    fn to_bytes<W: ByteWriter>(&self, out: &mut W) {
        (**self).to_bytes(out);
    }
}

impl<T: FromBytes> FromBytes for Box<T> {
    fn from_bytes(b: &mut ByteCursor) -> (r: Option<Box<T>>) {
        match T::from_bytes(b) {
            None => None,
            Some(v) => Some(Box::new(v)),
        }
    }
}

} // verus!
