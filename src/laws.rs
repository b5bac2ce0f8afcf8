//! Properties that hold of every shape, or of particular shapes, stated over
//! the wire models.
use vstd::prelude::*;
use vstd::utf8::valid_utf8;

use crate::scalar::{FALSE_BYTE, TRUE_BYTE};
use crate::size::{size_decoding, size_encoding};
use crate::types::WireFormat;

verus! {

broadcast use vstd::seq_lib::group_seq_properties;

/// Round trip: decoding the encoding of any valid model gives the model back
/// and consumes the whole encoding, with nothing left over.
pub proof fn lemma_decode_encode<T: WireFormat>(m: T::M)
    requires
        T::valid(m),
    ensures
        T::decoding(T::encoding(m)) == Some((m, T::encoding(m).len())),
{
    T::lemma_round_trip(m, Seq::empty());
    assert(T::encoding(m) + Seq::<u8>::empty() =~= T::encoding(m));
}

/// Truncation: no strict prefix of an encoding decodes, so a buffer cut short
/// gives no value.
pub proof fn lemma_truncated_fails<T: WireFormat>(m: T::M, k: nat)
    requires
        T::valid(m),
        k < T::encoding(m).len(),
    ensures
        T::decoding(T::encoding(m).take(k as int)) is None,
{
    let e = T::encoding(m);
    let p = e.take(k as int);
    if let Some((m2, n2)) = T::decoding(p) {
        T::lemma_prefix(p, e.skip(n2 as int));
        assert(p.take(n2 as int) + e.skip(n2 as int) =~= e);
        lemma_decode_encode::<T>(m);
        assert(false);
    }
}

/// A string whose declared byte span is present but not valid UTF-8 does
/// not decode.
pub proof fn lemma_invalid_utf8_fails(s: Seq<u8>)
    requires
        size_decoding(s) matches Some((n, k)) && k + n <= s.len() && !valid_utf8(
            s.subrange(k as int, (k + n) as int),
        ),
    ensures
        <String as WireFormat>::decoding(s) is None,
{
}

/// Booleans are written as the byte `'1'` or `'0'`; reading takes `'1'` as
/// `true` and any other byte as `false`.
pub proof fn lemma_bool_bytes(x: u8)
    ensures
        <bool as WireFormat>::encoding(true) == seq![0x31u8],
        <bool as WireFormat>::encoding(false) == seq![0x30u8],
        <bool as WireFormat>::decoding(seq![x]) == Some((x == 0x31u8, 1nat)),
{
    assert(TRUE_BYTE == 0x31 && FALSE_BYTE == 0x30);
}

/// An empty string is the single size byte zero.
pub proof fn lemma_empty_string()
    ensures
        <String as WireFormat>::encoding(Seq::empty()) == seq![0u8],
        <String as WireFormat>::decoding(seq![0u8]) == Some((Seq::<char>::empty(), 1nat)),
{
    assert(vstd::utf8::encode_utf8(Seq::empty()) =~= Seq::<u8>::empty());
    assert(size_encoding(0) =~= seq![0u8]);
    assert(<String as WireFormat>::encoding(Seq::empty()) =~= seq![0u8]);
    assert(seq![0u8].subrange(1, 1) =~= Seq::<u8>::empty());
    assert(vstd::utf8::decode_utf8(Seq::empty()) =~= Seq::<char>::empty());
}

} // verus!
