//! Raw byte buffers (`bytes::Bytes`): a size giving the length, then the
//! bytes as they are, with no validation.
use vstd::prelude::*;

use crate::cursor::ByteCursor;
use crate::size::{
    lemma_size_decoding_bound, lemma_size_prefix, lemma_size_round_trip, read_size, size_decoding,
    size_encoding, write_size,
};
use crate::types::{ByteWriter, FromBytes, ToBytes, WireFormat};

verus! {

broadcast use vstd::seq_lib::group_seq_properties;

#[verifier::external_type_specification]
#[verifier::external_body]
pub struct ExSharedBytes(bytes::Bytes);

/// The bytes that a shared buffer holds.
pub uninterp spec fn shared_contents(b: bytes::Bytes) -> Seq<u8>;

/// Relies on `bytes::Bytes::copy_from_slice`: the new buffer holds a copy of
/// `data`.
#[verifier::external_body]
fn shared_from_slice(data: &[u8]) -> (r: bytes::Bytes)
    ensures
        shared_contents(r) == data@,
{
    bytes::Bytes::copy_from_slice(data)
}

/// Relies on `Deref` for `bytes::Bytes`: the slice of the buffer's contents.
#[verifier::external_body]
fn shared_as_slice(b: &bytes::Bytes) -> (r: &[u8])
    ensures
        r@ == shared_contents(*b),
{
    b.as_ref()
}

impl WireFormat for bytes::Bytes {
    type M = Seq<u8>;

    open spec fn model(&self) -> Seq<u8> {
        shared_contents(*self)
    }

    open spec fn valid(m: Seq<u8>) -> bool {
        m.len() <= u64::MAX
    }

    open spec fn encoding(m: Seq<u8>) -> Seq<u8> {
        size_encoding(m.len()) + m
    }

    open spec fn decoding(s: Seq<u8>) -> Option<(Seq<u8>, nat)> {
        match size_decoding(s) {
            None => None,
            Some((n, k)) => {
                if k + n <= s.len() {
                    Some((s.subrange(k as int, (k + n) as int), k + n))
                } else {
                    None
                }
            },
        }
    }

    proof fn lemma_round_trip(m: Seq<u8>, rest: Seq<u8>) {
        lemma_size_round_trip(m.len(), m + rest);
        let s = Self::encoding(m) + rest;
        assert(s =~= size_encoding(m.len()) + (m + rest));
        let k = size_encoding(m.len()).len();
        assert(s.subrange(k as int, (k + m.len()) as int) =~= m);
    }

    proof fn lemma_prefix(s: Seq<u8>, rest: Seq<u8>) {
        lemma_size_decoding_bound(s);
        if let Some((n, k)) = size_decoding(s) {
            if k + n <= s.len() {
                let span = s.subrange(k as int, (k + n) as int);
                lemma_size_prefix(s, span + rest);
                let t = s.take((k + n) as int) + rest;
                assert(t =~= s.take(k as int) + (span + rest));
                assert(t.subrange(k as int, (k + n) as int) =~= span);
            }
        }
    }
}

impl ToBytes for bytes::Bytes {
    fn to_bytes<W: ByteWriter>(&self, out: &mut W) {
        let data = shared_as_slice(self);
        write_size(data.len() as u64, out);
        out.write(data);
        assert(out.written() =~= old(out).written() + Self::encoding(self.model()));
    }
}

impl FromBytes for bytes::Bytes {
    fn from_bytes(b: &mut ByteCursor) -> (r: Option<bytes::Bytes>) {
        let ghost s = b.rest();
        proof {
            lemma_size_decoding_bound(s);
        }
        let n = match read_size(b) {
            None => return None,
            Some(n) => n,
        };
        if n > b.remaining() as u64 {
            return None;
        }
        let v = match b.take(n as usize) {
            None => return None,
            Some(v) => v,
        };
        let ghost k = match size_decoding(s) {
            Some((_, k)) => k,
            None => 0,
        };
        assert(v@ =~= s.subrange(k as int, k + n));
        assert(b.rest() =~= s.skip(k + n));
        Some(shared_from_slice(v.as_slice()))
    }
}

} // verus!
