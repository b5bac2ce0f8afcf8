//! Strings: a size giving the byte length, then the UTF-8 bytes.
use vstd::prelude::*;
use vstd::utf8::{decode_utf8, encode_utf8, valid_utf8};

use crate::cursor::ByteCursor;
use crate::size::{
    lemma_size_decoding_bound, lemma_size_prefix, lemma_size_round_trip, read_size, size_decoding,
    size_encoding, write_size,
};
use crate::types::{ByteWriter, FromBytes, ToBytes, WireFormat};

verus! {

broadcast use vstd::seq_lib::group_seq_properties;

/// Relies on `String::from_utf8`: it succeeds exactly when the bytes are
/// valid UTF-8, and the string then holds the characters they encode.
#[verifier::external_body]
fn string_from_utf8(v: Vec<u8>) -> (r: Option<String>)
    ensures
        r is Some <==> valid_utf8(v@),
        r matches Some(s) ==> s@ == decode_utf8(v@),
{
    String::from_utf8(v).ok()
}

impl WireFormat for String {
    type M = Seq<char>;

    open spec fn model(&self) -> Seq<char> {
        self@
    }

    open spec fn valid(m: Seq<char>) -> bool {
        encode_utf8(m).len() <= u64::MAX
    }

    open spec fn encoding(m: Seq<char>) -> Seq<u8> {
        size_encoding(encode_utf8(m).len()) + encode_utf8(m)
    }

    /// The declared byte span must be present and valid UTF-8.
    open spec fn decoding(s: Seq<u8>) -> Option<(Seq<char>, nat)> {
        match size_decoding(s) {
            None => None,
            Some((n, k)) => {
                if k + n <= s.len() && valid_utf8(s.subrange(k as int, (k + n) as int)) {
                    Some((decode_utf8(s.subrange(k as int, (k + n) as int)), k + n))
                } else {
                    None
                }
            },
        }
    }

    proof fn lemma_round_trip(m: Seq<char>, rest: Seq<u8>) {
        broadcast use vstd::utf8::encode_utf8_decode_utf8, vstd::utf8::encode_utf8_valid_utf8;

        let bytes = encode_utf8(m);
        let n = bytes.len();
        lemma_size_round_trip(n, bytes + rest);
        let s = Self::encoding(m) + rest;
        assert(s =~= size_encoding(n) + (bytes + rest));
        let k = size_encoding(n).len();
        assert(s.subrange(k as int, (k + n) as int) =~= bytes);
    }

    proof fn lemma_prefix(s: Seq<u8>, rest: Seq<u8>) {
        lemma_size_decoding_bound(s);
        if let Some((n, k)) = size_decoding(s) {
            if k + n <= s.len() {
                let span = s.subrange(k as int, (k + n) as int);
                lemma_size_prefix(s, span + rest);
                let t = s.take((k + n) as int) + rest;
                assert(t =~= s.take(k as int) + (span + rest));
                assert(t.subrange(k as int, (k + n) as int) =~= span);
            }
        }
    }
}

impl ToBytes for String {
    fn to_bytes<W: ByteWriter>(&self, out: &mut W) {
        let bytes = self.as_str().as_bytes();
        write_size(bytes.len() as u64, out);
        out.write(bytes);
        assert(out.written() =~= old(out).written() + Self::encoding(self.model()));
    }
}

impl FromBytes for String {
    fn from_bytes(b: &mut ByteCursor) -> (r: Option<String>) {
        let ghost s = b.rest();
        proof {
            lemma_size_decoding_bound(s);
        }
        let n = match read_size(b) {
            None => return None,
            Some(n) => n,
        };
        if n > b.remaining() as u64 {
            return None;
        }
        let v = match b.take(n as usize) {
            None => return None,
            Some(v) => v,
        };
        let ghost k = match size_decoding(s) {
            Some((_, k)) => k,
            None => 0,
        };
        assert(v@ =~= s.subrange(k as int, k + n));
        assert(b.rest() =~= s.skip(k + n));
        string_from_utf8(v)
    }
}

} // verus!
