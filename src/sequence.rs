//! Sequences and deques: a size giving the element count, then each element
//! in order.
use std::collections::VecDeque;

use vstd::prelude::*;

use crate::cursor::ByteCursor;
use crate::size::{
    lemma_size_decoding_bound, lemma_size_prefix, lemma_size_round_trip, read_size, size_decoding,
    size_encoding, write_size,
};
use crate::types::{ByteWriter, FromBytes, ToBytes, WireFormat};

verus! {

broadcast use vstd::seq_lib::group_seq_properties;

/// The elements' encodings, concatenated in order.
pub open spec fn elems_encoding<T: WireFormat>(m: Seq<T::M>) -> Seq<u8>
    decreases m.len(),
{
    if m.len() == 0 {
        Seq::empty()
    } else {
        elems_encoding::<T>(m.drop_last()) + T::encoding(m.last())
    }
}

/// Reads `c` elements one after another from the front of `s`.
pub open spec fn elems_decoding<T: WireFormat>(s: Seq<u8>, c: nat) -> Option<(Seq<T::M>, nat)>
    decreases c,
{
    if c == 0 {
        Some((Seq::empty(), 0))
    } else {
        match T::decoding(s) {
            None => None,
            Some((x, n)) => match elems_decoding::<T>(s.skip(n as int), (c - 1) as nat) {
                None => None,
                Some((xs, k)) => Some((seq![x] + xs, n + k)),
            },
        }
    }
}

/// The elements' encodings can also be split after the first one.
pub proof fn lemma_elems_encoding_front<T: WireFormat>(m: Seq<T::M>)
    requires
        m.len() > 0,
    ensures
        elems_encoding::<T>(m) == T::encoding(m[0]) + elems_encoding::<T>(m.drop_first()),
    decreases m.len(),
{
    if m.len() == 1 {
        assert(m.drop_last() =~= Seq::<T::M>::empty());
        assert(m.drop_first() =~= Seq::<T::M>::empty());
        assert(elems_encoding::<T>(m.drop_first()) =~= Seq::<u8>::empty());
        assert(elems_encoding::<T>(m.drop_last()) =~= Seq::<u8>::empty());
        assert(elems_encoding::<T>(m) =~= T::encoding(m[0]) + elems_encoding::<T>(
            m.drop_first(),
        ));
    } else {
        lemma_elems_encoding_front::<T>(m.drop_last());
        assert(m.drop_last().drop_first() =~= m.drop_first().drop_last());
        assert(m.drop_first().last() == m.last());
        assert(elems_encoding::<T>(m) =~= T::encoding(m[0]) + elems_encoding::<T>(
            m.drop_first(),
        ));
    }
}

/// Decoding the encodings of valid elements gives them back.
pub proof fn lemma_elems_round_trip<T: WireFormat>(m: Seq<T::M>, rest: Seq<u8>)
    requires
        forall|i: int| 0 <= i < m.len() ==> T::valid(#[trigger] m[i]),
    ensures
        elems_decoding::<T>(elems_encoding::<T>(m) + rest, m.len()) == Some(
            (m, elems_encoding::<T>(m).len()),
        ),
    decreases m.len(),
{
    if m.len() > 0 {
        lemma_elems_encoding_front::<T>(m);
        let tail = m.drop_first();
        let s = elems_encoding::<T>(m) + rest;
        let tail_bytes = elems_encoding::<T>(tail) + rest;
        assert(s =~= T::encoding(m[0]) + tail_bytes);
        T::lemma_round_trip(m[0], tail_bytes);
        assert(s.skip(T::encoding(m[0]).len() as int) =~= tail_bytes);
        lemma_elems_round_trip::<T>(tail, rest);
        assert(seq![m[0]] + tail =~= m);
    }
}

/// Element decoding reads only within its input, and what it reads decides it.
pub proof fn lemma_elems_prefix<T: WireFormat>(s: Seq<u8>, c: nat, rest: Seq<u8>)
    ensures
        elems_decoding::<T>(s, c) matches Some((xs, k)) ==> k <= s.len() && elems_decoding::<T>(
            s.take(k as int) + rest,
            c,
        ) == Some((xs, k)),
    decreases c,
{
    if c > 0 {
        T::lemma_prefix(s, Seq::empty());
        if let Some((x, n)) = T::decoding(s) {
            let s2 = s.skip(n as int);
            lemma_elems_prefix::<T>(s2, (c - 1) as nat, rest);
            if let Some((xs, k2)) = elems_decoding::<T>(s2, (c - 1) as nat) {
                let k = n + k2;
                let t = s.take(k as int) + rest;
                let tail = s2.take(k2 as int) + rest;
                assert(t =~= s.take(n as int) + tail);
                T::lemma_prefix(s, tail);
                assert(t.skip(n as int) =~= tail);
            }
        }
    }
}

impl<T: WireFormat> WireFormat for Vec<T> {
    type M = Seq<T::M>;

    open spec fn model(&self) -> Seq<T::M> {
        self@.map_values(|x: T| x.model())
    }

    open spec fn valid(m: Seq<T::M>) -> bool {
        &&& m.len() <= u64::MAX
        &&& forall|i: int| 0 <= i < m.len() ==> T::valid(#[trigger] m[i])
    }

    open spec fn encoding(m: Seq<T::M>) -> Seq<u8> {
        size_encoding(m.len()) + elems_encoding::<T>(m)
    }

    open spec fn decoding(s: Seq<u8>) -> Option<(Seq<T::M>, nat)> {
        match size_decoding(s) {
            None => None,
            Some((c, k)) => match elems_decoding::<T>(s.skip(k as int), c) {
                None => None,
                Some((xs, n)) => Some((xs, k + n)),
            },
        }
    }

    proof fn lemma_round_trip(m: Seq<T::M>, rest: Seq<u8>) {
        let body = elems_encoding::<T>(m) + rest;
        lemma_size_round_trip(m.len(), body);
        let s = Self::encoding(m) + rest;
        assert(s =~= size_encoding(m.len()) + body);
        assert(s.skip(size_encoding(m.len()).len() as int) =~= body);
        lemma_elems_round_trip::<T>(m, rest);
    }

    proof fn lemma_prefix(s: Seq<u8>, rest: Seq<u8>) {
        lemma_size_decoding_bound(s);
        if let Some((c, k)) = size_decoding(s) {
            let s2 = s.skip(k as int);
            lemma_elems_prefix::<T>(s2, c, rest);
            if let Some((xs, n)) = elems_decoding::<T>(s2, c) {
                let t = s.take((k + n) as int) + rest;
                let tail = s2.take(n as int) + rest;
                assert(t =~= s.take(k as int) + tail);
                lemma_size_prefix(s, tail);
                assert(t.skip(k as int) =~= tail);
            }
        }
    }
}

impl<T: ToBytes> ToBytes for Vec<T> {
    fn to_bytes<W: ByteWriter>(&self, out: &mut W) {
        let ghost m = self.model();
        write_size(self.len() as u64, out);
        let ghost start = out.written();
        let mut i: usize = 0;
        while i < self.len()
            invariant
                i <= self@.len(),
                m == self.model(),
                out.written() == start + elems_encoding::<T>(m.take(i as int)),
            decreases self@.len() - i,
        {
            self[i].to_bytes(out);
            proof {
                assert(m.take(i + 1).drop_last() =~= m.take(i as int));
                assert(out.written() =~= start + elems_encoding::<T>(m.take(i + 1)));
            }
            i = i + 1;
        }
        assert(m.take(i as int) =~= m);
        assert(out.written() =~= old(out).written() + Self::encoding(m));
    }
}

impl<T: FromBytes> FromBytes for Vec<T> {
    fn from_bytes(b: &mut ByteCursor) -> (r: Option<Vec<T>>) {
        let ghost s = b.rest();
        proof {
            lemma_size_decoding_bound(s);
        }
        let c = match read_size(b) {
            None => return None,
            Some(c) => c,
        };
        let ghost s0 = b.rest();
        let ghost k: nat = (s.len() - s0.len()) as nat;
        assert(size_decoding(s) == Some((c as nat, k)) && s0 == s.skip(k as int));
        let mut out: Vec<T> = Vec::new();
        let ghost mut used: nat = 0;
        let mut i: u64 = 0;
        while i < c
            invariant
                i <= c,
                s == old(b).rest(),
                size_decoding(s) == Some((c as nat, k)),
                s0 == s.skip(k as int),
                k <= s.len(),
                used <= s0.len(),
                b.rest() == s0.skip(used as int),
                out.model().len() == i,
                elems_decoding::<T>(s0, c as nat) == match elems_decoding::<T>(
                    s0.skip(used as int),
                    (c - i) as nat,
                ) {
                    None => None,
                    Some((xs, n)) => Some((out.model() + xs, used + n)),
                },
            decreases c - i,
        {
            let ghost cur = b.rest();
            let v = match T::from_bytes(b) {
                None => {
                    assert(elems_decoding::<T>(cur, (c - i) as nat) is None);
                    assert(elems_decoding::<T>(s0, c as nat) is None);
                    return None;
                },
                Some(v) => v,
            };
            proof {
                let n = match T::decoding(cur) {
                    Some((_, n)) => n,
                    None => 0,
                };
                assert(cur.skip(n as int) =~= s0.skip((used + n) as int));
                used = used + n;
            }
            let ghost before = out.model();
            out.push(v);
            proof {
                assert(out.model() =~= before.push(v.model()));
                assert forall|xs: Seq<T::M>| before + (seq![v.model()] + xs) =~= out.model() + xs by {}
            }
            i = i + 1;
        }
        assert(out.model() + Seq::<T::M>::empty() =~= out.model());
        assert(b.rest() =~= s.skip((k + used) as int));
        Some(out)
    }
}

/// A deque is carried as the sequence of its elements, front to back.
impl<T: WireFormat> WireFormat for VecDeque<T> {
    type M = Seq<T::M>;

    open spec fn model(&self) -> Seq<T::M> {
        self@.map_values(|x: T| x.model())
    }

    open spec fn valid(m: Seq<T::M>) -> bool {
        <Vec<T> as WireFormat>::valid(m)
    }

    open spec fn encoding(m: Seq<T::M>) -> Seq<u8> {
        <Vec<T> as WireFormat>::encoding(m)
    }

    open spec fn decoding(s: Seq<u8>) -> Option<(Seq<T::M>, nat)> {
        <Vec<T> as WireFormat>::decoding(s)
    }

    proof fn lemma_round_trip(m: Seq<T::M>, rest: Seq<u8>) {
        <Vec<T> as WireFormat>::lemma_round_trip(m, rest);
    }

    proof fn lemma_prefix(s: Seq<u8>, rest: Seq<u8>) {
        <Vec<T> as WireFormat>::lemma_prefix(s, rest);
    }
}

impl<T: ToBytes> ToBytes for VecDeque<T> {
    fn to_bytes<W: ByteWriter>(&self, out: &mut W) {
        let ghost m = self.model();
        write_size(self.len() as u64, out);
        let ghost start = out.written();
        let mut i: usize = 0;
        while i < self.len()
            invariant
                i <= self@.len(),
                m == self.model(),
                out.written() == start + elems_encoding::<T>(m.take(i as int)),
            decreases self@.len() - i,
        {
            self[i].to_bytes(out);
            proof {
                assert(m.take(i + 1).drop_last() =~= m.take(i as int));
                assert(out.written() =~= start + elems_encoding::<T>(m.take(i + 1)));
            }
            i = i + 1;
        }
        assert(m.take(i as int) =~= m);
        assert(out.written() =~= old(out).written() + Self::encoding(m));
    }
}

impl<T: FromBytes> FromBytes for VecDeque<T> {
    fn from_bytes(b: &mut ByteCursor) -> (r: Option<VecDeque<T>>) {
        let ghost s = b.rest();
        proof {
            lemma_size_decoding_bound(s);
        }
        let c = match read_size(b) {
            None => return None,
            Some(c) => c,
        };
        let ghost s0 = b.rest();
        let ghost k: nat = (s.len() - s0.len()) as nat;
        assert(size_decoding(s) == Some((c as nat, k)) && s0 == s.skip(k as int));
        let mut out: VecDeque<T> = VecDeque::new();
        let ghost mut used: nat = 0;
        let mut i: u64 = 0;
        while i < c
            invariant
                i <= c,
                s == old(b).rest(),
                size_decoding(s) == Some((c as nat, k)),
                s0 == s.skip(k as int),
                k <= s.len(),
                used <= s0.len(),
                b.rest() == s0.skip(used as int),
                out.model().len() == i,
                elems_decoding::<T>(s0, c as nat) == match elems_decoding::<T>(
                    s0.skip(used as int),
                    (c - i) as nat,
                ) {
                    None => None,
                    Some((xs, n)) => Some((out.model() + xs, used + n)),
                },
            decreases c - i,
        {
            let ghost cur = b.rest();
            let v = match T::from_bytes(b) {
                None => {
                    assert(elems_decoding::<T>(cur, (c - i) as nat) is None);
                    assert(elems_decoding::<T>(s0, c as nat) is None);
                    return None;
                },
                Some(v) => v,
            };
            proof {
                let n = match T::decoding(cur) {
                    Some((_, n)) => n,
                    None => 0,
                };
                assert(cur.skip(n as int) =~= s0.skip((used + n) as int));
                used = used + n;
            }
            let ghost before = out.model();
            out.push_back(v);
            proof {
                assert(out.model() =~= before.push(v.model()));
                assert forall|xs: Seq<T::M>| before + (seq![v.model()] + xs) =~= out.model() + xs by {}
            }
            i = i + 1;
        }
        assert(out.model() + Seq::<T::M>::empty() =~= out.model());
        assert(b.rest() =~= s.skip((k + used) as int));
        Some(out)
    }
}

} // verus!
