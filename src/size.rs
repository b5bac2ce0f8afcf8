//! The size codec: the length prefix of every variable-size shape.
//!
//! A size below 254 is one byte; a size below 2^32 is the marker 254 and four
//! little-endian bytes; a larger size is the marker 255 and eight
//! little-endian bytes. The markers 254 and 255 are reserved, so those two
//! values take the four-byte form, and every size has exactly one encoding.
use vstd::prelude::*;
use vstd::bytes::*;

use crate::cursor::ByteCursor;
use crate::types::ByteWriter;

verus! {

broadcast use vstd::seq_lib::group_seq_properties;

/// The first value that needs the four-byte form.
pub const SMALL_LIMIT: u64 = 254;

/// The first value that needs the eight-byte form.
pub const WIDE_LIMIT: u64 = 0x1_0000_0000;

/// The bytes that encode the size `n` (for `n < 2^64`).
pub open spec fn size_encoding(n: nat) -> Seq<u8> {
    if n < SMALL_LIMIT {
        seq![n as u8]
    } else if n < WIDE_LIMIT {
        seq![254u8] + spec_u32_to_le_bytes(n as u32)
    } else {
        seq![255u8] + spec_u64_to_le_bytes(n as u64)
    }
}

/// Reads a size from the front of `s`: the value and the number of bytes it
/// took, or `None` when `s` ends first.
pub open spec fn size_decoding(s: Seq<u8>) -> Option<(nat, nat)> {
    if s.len() == 0 {
        None
    } else if s[0] == 254 {
        if s.len() >= 5 {
            Some((spec_u32_from_le_bytes(s.subrange(1, 5)) as nat, 5))
        } else {
            None
        }
    } else if s[0] == 255 {
        if s.len() >= 9 {
            Some((spec_u64_from_le_bytes(s.subrange(1, 9)) as nat, 9))
        } else {
            None
        }
    } else {
        Some((s[0] as nat, 1))
    }
}

/// The number of bytes that the size `n` takes on the wire.
pub open spec fn size_width(n: nat) -> nat {
    if n < SMALL_LIMIT {
        1
    } else if n < WIDE_LIMIT {
        5
    } else {
        9
    }
}

/// Every size below 2^64 is read back from its encoding, whatever follows
/// it, and the encoding is one, five or nine bytes long by the size's tier.
pub proof fn lemma_size_round_trip(n: nat, rest: Seq<u8>)
    requires
        n <= u64::MAX,
    ensures
        size_encoding(n).len() == size_width(n),
        size_decoding(size_encoding(n) + rest) == Some((n, size_width(n))),
{
    lemma_auto_spec_u32_to_from_le_bytes();
    lemma_auto_spec_u64_to_from_le_bytes();
    let s = size_encoding(n) + rest;
    if n < SMALL_LIMIT {
        assert(s[0] == n as u8);
    } else if n < WIDE_LIMIT {
        assert(s.subrange(1, 5) =~= spec_u32_to_le_bytes(n as u32));
    } else {
        assert(s.subrange(1, 9) =~= spec_u64_to_le_bytes(n as u64));
    }
}

/// What a size decoding consumes lies within the input.
pub proof fn lemma_size_decoding_bound(s: Seq<u8>)
    ensures
        size_decoding(s) matches Some((n, k)) ==> k <= s.len() && n <= u64::MAX && k > 0,
{
}

/// A size decoding depends only on the bytes it consumes.
pub proof fn lemma_size_prefix(s: Seq<u8>, rest: Seq<u8>)
    ensures
        size_decoding(s) matches Some((n, k)) ==> size_decoding(s.take(k as int) + rest) == Some(
            (n, k),
        ),
{
    if let Some((n, k)) = size_decoding(s) {
        let t = s.take(k as int) + rest;
        assert(t[0] == s[0]);
        if s[0] == 254 {
            assert(t.subrange(1, 5) =~= s.subrange(1, 5));
        } else if s[0] == 255 {
            assert(t.subrange(1, 9) =~= s.subrange(1, 9));
        }
    }
}

/// Appends the encoding of the size `n` to `out`.
pub fn write_size<W: ByteWriter>(n: u64, out: &mut W)
    ensures
        final(out).written() == old(out).written() + size_encoding(n as nat),
{
    if n < SMALL_LIMIT {
        let v: Vec<u8> = vec![n as u8];
        out.write(v.as_slice());
        assert(v@ =~= size_encoding(n as nat));
    } else if n < WIDE_LIMIT {
        let marker: Vec<u8> = vec![254u8];
        out.write(marker.as_slice());
        let v = u32_to_le_bytes(n as u32);
        out.write(v.as_slice());
        assert(marker@ + v@ =~= size_encoding(n as nat));
    } else {
        let marker: Vec<u8> = vec![255u8];
        out.write(marker.as_slice());
        let v = u64_to_le_bytes(n);
        out.write(v.as_slice());
        assert(marker@ + v@ =~= size_encoding(n as nat));
    }
}

/// Reads a size from the front of `b`; `None` when the input ends first.
pub fn read_size(b: &mut ByteCursor) -> (r: Option<u64>)
    ensures
        match size_decoding(old(b).rest()) {
            None => r is None,
            Some((n, k)) => {
                &&& r == Some(n as u64)
                &&& k <= old(b).rest().len()
                &&& final(b).rest() == old(b).rest().skip(k as int)
            },
        },
{
    let ghost s = b.rest();
    let m = match b.get_u8() {
        None => return None,
        Some(m) => m,
    };
    if m == 254 {
        match b.take(4) {
            None => None,
            Some(v) => {
                assert(v@ =~= s.subrange(1, 5));
                assert(b.rest() =~= s.skip(5));
                Some(u32_from_le_bytes(v.as_slice()) as u64)
            },
        }
    } else if m == 255 {
        match b.take(8) {
            None => None,
            Some(v) => {
                assert(v@ =~= s.subrange(1, 9));
                assert(b.rest() =~= s.skip(9));
                Some(u64_from_le_bytes(v.as_slice()))
            },
        }
    } else {
        Some(m as u64)
    }
}

} // verus!
