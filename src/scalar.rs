//! Fixed-width scalars: integers as little-endian bytes, `usize` as a size,
//! booleans as the ASCII digits `'1'` and `'0'`, and unit as nothing.
use vstd::prelude::*;
use vstd::bytes::*;

use crate::cursor::ByteCursor;
use crate::size::{
    lemma_size_decoding_bound, lemma_size_prefix, lemma_size_round_trip, read_size, size_decoding,
    size_encoding, write_size,
};
use crate::types::{ByteWriter, FromBytes, ToBytes, WireFormat};

verus! {

broadcast use vstd::seq_lib::group_seq_properties;

impl WireFormat for u8 {
    type M = u8;

    open spec fn model(&self) -> u8 {
        *self
    }

    open spec fn valid(m: u8) -> bool {
        true
    }

    open spec fn encoding(m: u8) -> Seq<u8> {
        seq![m]
    }

    open spec fn decoding(s: Seq<u8>) -> Option<(u8, nat)> {
        if s.len() >= 1 {
            Some((s[0], 1))
        } else {
            None
        }
    }

    proof fn lemma_round_trip(m: u8, rest: Seq<u8>) {
        assert((Self::encoding(m) + rest)[0] == m as u8);
    }

    proof fn lemma_prefix(s: Seq<u8>, rest: Seq<u8>) {
        if s.len() >= 1 {
            assert((s.take(1) + rest)[0] == s[0]);
        }
    }
}

impl ToBytes for u8 {
    fn to_bytes<W: ByteWriter>(&self, out: &mut W) {
        let v: Vec<u8> = vec![*self];
        out.write(v.as_slice());
        assert(v@ =~= Self::encoding(self.model()));
    }
}

impl FromBytes for u8 {
    fn from_bytes(b: &mut ByteCursor) -> (r: Option<u8>) {
        match b.get_u8() {
            None => None,
            Some(v) => Some(v),
        }
    }
}

impl WireFormat for i8 {
    type M = i8;

    open spec fn model(&self) -> i8 {
        *self
    }

    open spec fn valid(m: i8) -> bool {
        true
    }

    open spec fn encoding(m: i8) -> Seq<u8> {
        seq![m as u8]
    }

    open spec fn decoding(s: Seq<u8>) -> Option<(i8, nat)> {
        if s.len() >= 1 {
            Some((s[0] as i8, 1))
        } else {
            None
        }
    }

    proof fn lemma_round_trip(m: i8, rest: Seq<u8>) {
        assert((m as u8) as i8 == m) by (bit_vector);
        assert((Self::encoding(m) + rest)[0] == m as u8);
    }

    proof fn lemma_prefix(s: Seq<u8>, rest: Seq<u8>) {
        if s.len() >= 1 {
            assert((s.take(1) + rest)[0] == s[0]);
        }
    }
}

impl ToBytes for i8 {
    fn to_bytes<W: ByteWriter>(&self, out: &mut W) {
        let v: Vec<u8> = vec![*self as u8];
        out.write(v.as_slice());
        assert(v@ =~= Self::encoding(self.model()));
    }
}

impl FromBytes for i8 {
    fn from_bytes(b: &mut ByteCursor) -> (r: Option<i8>) {
        match b.get_u8() {
            None => None,
            Some(v) => Some(v as i8),
        }
    }
}

impl WireFormat for u16 {
    type M = u16;

    open spec fn model(&self) -> u16 {
        *self
    }

    open spec fn valid(m: u16) -> bool {
        true
    }

    open spec fn encoding(m: u16) -> Seq<u8> {
        spec_u16_to_le_bytes(m)
    }

    open spec fn decoding(s: Seq<u8>) -> Option<(u16, nat)> {
        if s.len() >= 2 {
            Some((spec_u16_from_le_bytes(s.take(2)), 2))
        } else {
            None
        }
    }

    proof fn lemma_round_trip(m: u16, rest: Seq<u8>) {
        lemma_auto_spec_u16_to_from_le_bytes();
        assert((Self::encoding(m) + rest).take(2) =~= Self::encoding(m));
    }

    proof fn lemma_prefix(s: Seq<u8>, rest: Seq<u8>) {
        if s.len() >= 2 {
            assert((s.take(2) + rest).take(2) =~= s.take(2));
        }
    }
}

impl ToBytes for u16 {
    fn to_bytes<W: ByteWriter>(&self, out: &mut W) {
        let v = u16_to_le_bytes(*self);
        out.write(v.as_slice());
    }
}

impl FromBytes for u16 {
    fn from_bytes(b: &mut ByteCursor) -> (r: Option<u16>) {
        match b.take(2) {
            None => None,
            Some(v) => Some(u16_from_le_bytes(v.as_slice())),
        }
    }
}

impl WireFormat for i16 {
    type M = i16;

    open spec fn model(&self) -> i16 {
        *self
    }

    open spec fn valid(m: i16) -> bool {
        true
    }

    open spec fn encoding(m: i16) -> Seq<u8> {
        spec_u16_to_le_bytes(m as u16)
    }

    open spec fn decoding(s: Seq<u8>) -> Option<(i16, nat)> {
        if s.len() >= 2 {
            Some((spec_u16_from_le_bytes(s.take(2)) as i16, 2))
        } else {
            None
        }
    }

    proof fn lemma_round_trip(m: i16, rest: Seq<u8>) {
        lemma_auto_spec_u16_to_from_le_bytes();
        assert((m as u16) as i16 == m) by (bit_vector);
        assert((Self::encoding(m) + rest).take(2) =~= Self::encoding(m));
    }

    proof fn lemma_prefix(s: Seq<u8>, rest: Seq<u8>) {
        if s.len() >= 2 {
            assert((s.take(2) + rest).take(2) =~= s.take(2));
        }
    }
}

impl ToBytes for i16 {
    fn to_bytes<W: ByteWriter>(&self, out: &mut W) {
        let v = u16_to_le_bytes(*self as u16);
        out.write(v.as_slice());
    }
}

impl FromBytes for i16 {
    fn from_bytes(b: &mut ByteCursor) -> (r: Option<i16>) {
        match b.take(2) {
            None => None,
            Some(v) => Some(u16_from_le_bytes(v.as_slice()) as i16),
        }
    }
}

impl WireFormat for u32 {
    type M = u32;

    open spec fn model(&self) -> u32 {
        *self
    }

    open spec fn valid(m: u32) -> bool {
        true
    }

    open spec fn encoding(m: u32) -> Seq<u8> {
        spec_u32_to_le_bytes(m)
    }

    open spec fn decoding(s: Seq<u8>) -> Option<(u32, nat)> {
        if s.len() >= 4 {
            Some((spec_u32_from_le_bytes(s.take(4)), 4))
        } else {
            None
        }
    }

    proof fn lemma_round_trip(m: u32, rest: Seq<u8>) {
        lemma_auto_spec_u32_to_from_le_bytes();
        assert((Self::encoding(m) + rest).take(4) =~= Self::encoding(m));
    }

    proof fn lemma_prefix(s: Seq<u8>, rest: Seq<u8>) {
        if s.len() >= 4 {
            assert((s.take(4) + rest).take(4) =~= s.take(4));
        }
    }
}

impl ToBytes for u32 {
    fn to_bytes<W: ByteWriter>(&self, out: &mut W) {
        let v = u32_to_le_bytes(*self);
        out.write(v.as_slice());
    }
}

impl FromBytes for u32 {
    fn from_bytes(b: &mut ByteCursor) -> (r: Option<u32>) {
        match b.take(4) {
            None => None,
            Some(v) => Some(u32_from_le_bytes(v.as_slice())),
        }
    }
}

impl WireFormat for i32 {
    type M = i32;

    open spec fn model(&self) -> i32 {
        *self
    }

    open spec fn valid(m: i32) -> bool {
        true
    }

    open spec fn encoding(m: i32) -> Seq<u8> {
        spec_u32_to_le_bytes(m as u32)
    }

    open spec fn decoding(s: Seq<u8>) -> Option<(i32, nat)> {
        if s.len() >= 4 {
            Some((spec_u32_from_le_bytes(s.take(4)) as i32, 4))
        } else {
            None
        }
    }

    proof fn lemma_round_trip(m: i32, rest: Seq<u8>) {
        lemma_auto_spec_u32_to_from_le_bytes();
        assert((m as u32) as i32 == m) by (bit_vector);
        assert((Self::encoding(m) + rest).take(4) =~= Self::encoding(m));
    }

    proof fn lemma_prefix(s: Seq<u8>, rest: Seq<u8>) {
        if s.len() >= 4 {
            assert((s.take(4) + rest).take(4) =~= s.take(4));
        }
    }
}

impl ToBytes for i32 {
    fn to_bytes<W: ByteWriter>(&self, out: &mut W) {
        let v = u32_to_le_bytes(*self as u32);
        out.write(v.as_slice());
    }
}

impl FromBytes for i32 {
    fn from_bytes(b: &mut ByteCursor) -> (r: Option<i32>) {
        match b.take(4) {
            None => None,
            Some(v) => Some(u32_from_le_bytes(v.as_slice()) as i32),
        }
    }
}

impl WireFormat for u64 {
    type M = u64;

    open spec fn model(&self) -> u64 {
        *self
    }

    open spec fn valid(m: u64) -> bool {
        true
    }

    open spec fn encoding(m: u64) -> Seq<u8> {
        spec_u64_to_le_bytes(m)
    }

    open spec fn decoding(s: Seq<u8>) -> Option<(u64, nat)> {
        if s.len() >= 8 {
            Some((spec_u64_from_le_bytes(s.take(8)), 8))
        } else {
            None
        }
    }

    proof fn lemma_round_trip(m: u64, rest: Seq<u8>) {
        lemma_auto_spec_u64_to_from_le_bytes();
        assert((Self::encoding(m) + rest).take(8) =~= Self::encoding(m));
    }

    proof fn lemma_prefix(s: Seq<u8>, rest: Seq<u8>) {
        if s.len() >= 8 {
            assert((s.take(8) + rest).take(8) =~= s.take(8));
        }
    }
}

impl ToBytes for u64 {
    fn to_bytes<W: ByteWriter>(&self, out: &mut W) {
        let v = u64_to_le_bytes(*self);
        out.write(v.as_slice());
    }
}

impl FromBytes for u64 {
    fn from_bytes(b: &mut ByteCursor) -> (r: Option<u64>) {
        match b.take(8) {
            None => None,
            Some(v) => Some(u64_from_le_bytes(v.as_slice())),
        }
    }
}

impl WireFormat for i64 {
    type M = i64;

    open spec fn model(&self) -> i64 {
        *self
    }

    open spec fn valid(m: i64) -> bool {
        true
    }

    open spec fn encoding(m: i64) -> Seq<u8> {
        spec_u64_to_le_bytes(m as u64)
    }

    open spec fn decoding(s: Seq<u8>) -> Option<(i64, nat)> {
        if s.len() >= 8 {
            Some((spec_u64_from_le_bytes(s.take(8)) as i64, 8))
        } else {
            None
        }
    }

    proof fn lemma_round_trip(m: i64, rest: Seq<u8>) {
        lemma_auto_spec_u64_to_from_le_bytes();
        assert((m as u64) as i64 == m) by (bit_vector);
        assert((Self::encoding(m) + rest).take(8) =~= Self::encoding(m));
    }

    proof fn lemma_prefix(s: Seq<u8>, rest: Seq<u8>) {
        if s.len() >= 8 {
            assert((s.take(8) + rest).take(8) =~= s.take(8));
        }
    }
}

impl ToBytes for i64 {
    fn to_bytes<W: ByteWriter>(&self, out: &mut W) {
        let v = u64_to_le_bytes(*self as u64);
        out.write(v.as_slice());
    }
}

impl FromBytes for i64 {
    fn from_bytes(b: &mut ByteCursor) -> (r: Option<i64>) {
        match b.take(8) {
            None => None,
            Some(v) => Some(u64_from_le_bytes(v.as_slice()) as i64),
        }
    }
}

impl WireFormat for u128 {
    type M = u128;

    open spec fn model(&self) -> u128 {
        *self
    }

    open spec fn valid(m: u128) -> bool {
        true
    }

    open spec fn encoding(m: u128) -> Seq<u8> {
        spec_u128_to_le_bytes(m)
    }

    open spec fn decoding(s: Seq<u8>) -> Option<(u128, nat)> {
        if s.len() >= 16 {
            Some((spec_u128_from_le_bytes(s.take(16)), 16))
        } else {
            None
        }
    }

    proof fn lemma_round_trip(m: u128, rest: Seq<u8>) {
        lemma_auto_spec_u128_to_from_le_bytes();
        assert((Self::encoding(m) + rest).take(16) =~= Self::encoding(m));
    }

    proof fn lemma_prefix(s: Seq<u8>, rest: Seq<u8>) {
        if s.len() >= 16 {
            assert((s.take(16) + rest).take(16) =~= s.take(16));
        }
    }
}

impl ToBytes for u128 {
    fn to_bytes<W: ByteWriter>(&self, out: &mut W) {
        let v = u128_to_le_bytes(*self);
        out.write(v.as_slice());
    }
}

impl FromBytes for u128 {
    fn from_bytes(b: &mut ByteCursor) -> (r: Option<u128>) {
        match b.take(16) {
            None => None,
            Some(v) => Some(u128_from_le_bytes(v.as_slice())),
        }
    }
}

impl WireFormat for i128 {
    type M = i128;

    open spec fn model(&self) -> i128 {
        *self
    }

    open spec fn valid(m: i128) -> bool {
        true
    }

    open spec fn encoding(m: i128) -> Seq<u8> {
        spec_u128_to_le_bytes(m as u128)
    }

    open spec fn decoding(s: Seq<u8>) -> Option<(i128, nat)> {
        if s.len() >= 16 {
            Some((spec_u128_from_le_bytes(s.take(16)) as i128, 16))
        } else {
            None
        }
    }

    proof fn lemma_round_trip(m: i128, rest: Seq<u8>) {
        lemma_auto_spec_u128_to_from_le_bytes();
        assert((m as u128) as i128 == m) by (bit_vector);
        assert((Self::encoding(m) + rest).take(16) =~= Self::encoding(m));
    }

    proof fn lemma_prefix(s: Seq<u8>, rest: Seq<u8>) {
        if s.len() >= 16 {
            assert((s.take(16) + rest).take(16) =~= s.take(16));
        }
    }
}

impl ToBytes for i128 {
    fn to_bytes<W: ByteWriter>(&self, out: &mut W) {
        let v = u128_to_le_bytes(*self as u128);
        out.write(v.as_slice());
    }
}

impl FromBytes for i128 {
    fn from_bytes(b: &mut ByteCursor) -> (r: Option<i128>) {
        match b.take(16) {
            None => None,
            Some(v) => Some(u128_from_le_bytes(v.as_slice()) as i128),
        }
    }
}

impl WireFormat for usize {
    type M = usize;

    open spec fn model(&self) -> usize {
        *self
    }

    open spec fn valid(m: usize) -> bool {
        true
    }

    open spec fn encoding(m: usize) -> Seq<u8> {
        size_encoding(m as nat)
    }

    open spec fn decoding(s: Seq<u8>) -> Option<(usize, nat)> {
        match size_decoding(s) {
            Some((n, k)) => Some((n as usize, k)),
            None => None,
        }
    }

    proof fn lemma_round_trip(m: usize, rest: Seq<u8>) {
        lemma_size_round_trip(m as nat, rest);
    }

    proof fn lemma_prefix(s: Seq<u8>, rest: Seq<u8>) {
        lemma_size_decoding_bound(s);
        lemma_size_prefix(s, rest);
    }
}

impl ToBytes for usize {
    fn to_bytes<W: ByteWriter>(&self, out: &mut W) {
        write_size(*self as u64, out);
    }
}

impl FromBytes for usize {
    fn from_bytes(b: &mut ByteCursor) -> (r: Option<usize>) {
        match read_size(b) {
            None => None,
            Some(n) => Some(n as usize),
        }
    }
}

/// The byte that encodes `true`.
pub const TRUE_BYTE: u8 = 0x31;

/// The byte that encodes `false`.
pub const FALSE_BYTE: u8 = 0x30;

impl WireFormat for bool {
    type M = bool;

    open spec fn model(&self) -> bool {
        *self
    }

    open spec fn valid(m: bool) -> bool {
        true
    }

    open spec fn encoding(m: bool) -> Seq<u8> {
        seq![if m { TRUE_BYTE } else { FALSE_BYTE }]
    }

    /// Any byte but `'1'` reads as `false`.
    open spec fn decoding(s: Seq<u8>) -> Option<(bool, nat)> {
        if s.len() >= 1 {
            Some((s[0] == TRUE_BYTE, 1))
        } else {
            None
        }
    }

    proof fn lemma_round_trip(m: bool, rest: Seq<u8>) {
        assert((Self::encoding(m) + rest)[0] == Self::encoding(m)[0]);
    }

    proof fn lemma_prefix(s: Seq<u8>, rest: Seq<u8>) {
        if s.len() >= 1 {
            assert((s.take(1) + rest)[0] == s[0]);
        }
    }
}

impl ToBytes for bool {
    fn to_bytes<W: ByteWriter>(&self, out: &mut W) {
        let v: Vec<u8> = if *self {
            vec![TRUE_BYTE]
        } else {
            vec![FALSE_BYTE]
        };
        out.write(v.as_slice());
        assert(v@ =~= Self::encoding(self.model()));
    }
}

impl FromBytes for bool {
    fn from_bytes(b: &mut ByteCursor) -> (r: Option<bool>) {
        match b.get_u8() {
            None => None,
            Some(v) => Some(v == TRUE_BYTE),
        }
    }
}

impl WireFormat for () {
    type M = ();

    open spec fn model(&self) -> () {
        ()
    }

    open spec fn valid(m: ()) -> bool {
        true
    }

    open spec fn encoding(m: ()) -> Seq<u8> {
        Seq::empty()
    }

    open spec fn decoding(s: Seq<u8>) -> Option<((), nat)> {
        Some(((), 0))
    }

    proof fn lemma_round_trip(m: (), rest: Seq<u8>) {
    }

    proof fn lemma_prefix(s: Seq<u8>, rest: Seq<u8>) {
    }
}

impl ToBytes for () {
    fn to_bytes<W: ByteWriter>(&self, out: &mut W) {
        assert(old(out).written() + Seq::<u8>::empty() =~= old(out).written());
    }
}

impl FromBytes for () {
    fn from_bytes(b: &mut ByteCursor) -> (r: Option<()>) {
        assert(b.rest().skip(0) =~= b.rest());
        Some(())
    }
}

} // verus!
