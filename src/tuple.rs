//! Tuples of one to seven fields: the fields' encodings concatenated in
//! order, with no count on the wire.
use vstd::prelude::*;

use crate::cursor::ByteCursor;
use crate::types::{ByteWriter, FromBytes, ToBytes, WireFormat};

verus! {

broadcast use vstd::seq_lib::group_seq_properties;

impl<A: WireFormat> WireFormat for (A,) {
    type M = (A::M,);

    open spec fn model(&self) -> (A::M,) {
        (self.0.model(),)
    }

    open spec fn valid(m: (A::M,)) -> bool {
        &&& A::valid(m.0)
    }

    open spec fn encoding(m: (A::M,)) -> Seq<u8> {
        A::encoding(m.0)
    }

    open spec fn decoding(s: Seq<u8>) -> Option<((A::M,), nat)> {
        match A::decoding(s) {
            None => None,
            Some((x0, n0)) => Some(((x0,), n0)),
        }
    }

    proof fn lemma_round_trip(m: (A::M,), rest: Seq<u8>) {
        let t0 = A::encoding(m.0) + rest;
        assert(Self::encoding(m) + rest =~= t0);
        A::lemma_round_trip(m.0, rest);
    }

    proof fn lemma_prefix(s: Seq<u8>, rest: Seq<u8>) {
        A::lemma_prefix(s, Seq::empty());
        if let Some((x0, n0)) = A::decoding(s) {
            let total: nat = n0;
            let t = s.take(total as int) + rest;
            let u0 = s.take(n0 as int) + rest;
            assert(t =~= u0);
            A::lemma_prefix(s, rest);
        }
    }
}

impl<A: ToBytes> ToBytes for (A,) {
    fn to_bytes<W: ByteWriter>(&self, out: &mut W) {
        self.0.to_bytes(out);
        assert(out.written() =~= old(out).written() + Self::encoding(self.model()));
    }
}

impl<A: FromBytes> FromBytes for (A,) {
    fn from_bytes(b: &mut ByteCursor) -> (r: Option<(A,)>) {
        let ghost s = b.rest();
        let v0 = match A::from_bytes(b) {
            None => return None,
            Some(v) => v,
        };
        let ghost o1: nat = (s.len() - b.rest().len()) as nat;
        assert(b.rest() =~= s.skip(o1 as int));
        Some((v0,))
    }
}

impl<A: WireFormat, B: WireFormat> WireFormat for (A, B) {
    type M = (A::M, B::M);

    open spec fn model(&self) -> (A::M, B::M) {
        (self.0.model(), self.1.model())
    }

    open spec fn valid(m: (A::M, B::M)) -> bool {
        &&& A::valid(m.0)
        &&& B::valid(m.1)
    }

    open spec fn encoding(m: (A::M, B::M)) -> Seq<u8> {
        A::encoding(m.0) + B::encoding(m.1)
    }

    open spec fn decoding(s: Seq<u8>) -> Option<((A::M, B::M), nat)> {
        match A::decoding(s) {
            None => None,
            Some((x0, n0)) => match B::decoding(s.skip(n0 as int)) {
                None => None,
                Some((x1, n1)) => Some(((x0, x1), n0 + n1)),
            },
        }
    }

    proof fn lemma_round_trip(m: (A::M, B::M), rest: Seq<u8>) {
        let t1 = B::encoding(m.1) + rest;
        let t0 = A::encoding(m.0) + t1;
        assert(Self::encoding(m) + rest =~= t0);
        let l0 = A::encoding(m.0).len();
        A::lemma_round_trip(m.0, t1);
        assert(t0.skip(l0 as int) =~= t1);
        B::lemma_round_trip(m.1, rest);
    }

    proof fn lemma_prefix(s: Seq<u8>, rest: Seq<u8>) {
        A::lemma_prefix(s, Seq::empty());
        if let Some((x0, n0)) = A::decoding(s) {
            B::lemma_prefix(s.skip(n0 as int), Seq::empty());
            if let Some((x1, n1)) = B::decoding(s.skip(n0 as int)) {
                let total: nat = n0 + n1;
                let t = s.take(total as int) + rest;
                let u1 = s.skip(n0 as int).take(n1 as int) + rest;
                let u0 = s.take(n0 as int) + u1;
                assert(t =~= u0);
                A::lemma_prefix(s, u1);
                assert(t.skip(n0 as int) =~= u1);
                B::lemma_prefix(s.skip(n0 as int), rest);
            }
        }
    }
}

impl<A: ToBytes, B: ToBytes> ToBytes for (A, B) {
    fn to_bytes<W: ByteWriter>(&self, out: &mut W) {
        self.0.to_bytes(out);
        self.1.to_bytes(out);
        assert(out.written() =~= old(out).written() + Self::encoding(self.model()));
    }
}

impl<A: FromBytes, B: FromBytes> FromBytes for (A, B) {
    fn from_bytes(b: &mut ByteCursor) -> (r: Option<(A, B)>) {
        let ghost s = b.rest();
        let v0 = match A::from_bytes(b) {
            None => return None,
            Some(v) => v,
        };
        let ghost o1: nat = (s.len() - b.rest().len()) as nat;
        assert(b.rest() =~= s.skip(o1 as int));
        let v1 = match B::from_bytes(b) {
            None => return None,
            Some(v) => v,
        };
        let ghost o2: nat = (s.len() - b.rest().len()) as nat;
        assert(b.rest() =~= s.skip(o2 as int));
        Some((v0, v1))
    }
}

impl<A: WireFormat, B: WireFormat, C: WireFormat> WireFormat for (A, B, C) {
    type M = (A::M, B::M, C::M);

    open spec fn model(&self) -> (A::M, B::M, C::M) {
        (self.0.model(), self.1.model(), self.2.model())
    }

    open spec fn valid(m: (A::M, B::M, C::M)) -> bool {
        &&& A::valid(m.0)
        &&& B::valid(m.1)
        &&& C::valid(m.2)
    }

    open spec fn encoding(m: (A::M, B::M, C::M)) -> Seq<u8> {
        A::encoding(m.0) + B::encoding(m.1) + C::encoding(m.2)
    }

    open spec fn decoding(s: Seq<u8>) -> Option<((A::M, B::M, C::M), nat)> {
        match A::decoding(s) {
            None => None,
            Some((x0, n0)) => match B::decoding(s.skip(n0 as int)) {
                None => None,
                Some((x1, n1)) => match C::decoding(s.skip((n0 + n1) as int)) {
                    None => None,
                    Some((x2, n2)) => Some(((x0, x1, x2), n0 + n1 + n2)),
                },
            },
        }
    }

    proof fn lemma_round_trip(m: (A::M, B::M, C::M), rest: Seq<u8>) {
        let t2 = C::encoding(m.2) + rest;
        let t1 = B::encoding(m.1) + t2;
        let t0 = A::encoding(m.0) + t1;
        assert(Self::encoding(m) + rest =~= t0);
        let l0 = A::encoding(m.0).len();
        A::lemma_round_trip(m.0, t1);
        assert(t0.skip(l0 as int) =~= t1);
        let l1 = B::encoding(m.1).len();
        B::lemma_round_trip(m.1, t2);
        assert(t0.skip((l0 + l1) as int) =~= t2);
        C::lemma_round_trip(m.2, rest);
    }

    proof fn lemma_prefix(s: Seq<u8>, rest: Seq<u8>) {
        A::lemma_prefix(s, Seq::empty());
        if let Some((x0, n0)) = A::decoding(s) {
            B::lemma_prefix(s.skip(n0 as int), Seq::empty());
            if let Some((x1, n1)) = B::decoding(s.skip(n0 as int)) {
                C::lemma_prefix(s.skip((n0 + n1) as int), Seq::empty());
                if let Some((x2, n2)) = C::decoding(s.skip((n0 + n1) as int)) {
                    let total: nat = n0 + n1 + n2;
                    let t = s.take(total as int) + rest;
                    let u2 = s.skip((n0 + n1) as int).take(n2 as int) + rest;
                    let u1 = s.skip(n0 as int).take(n1 as int) + u2;
                    let u0 = s.take(n0 as int) + u1;
                    assert(t =~= u0);
                    A::lemma_prefix(s, u1);
                    assert(t.skip(n0 as int) =~= u1);
                    B::lemma_prefix(s.skip(n0 as int), u2);
                    assert(t.skip((n0 + n1) as int) =~= u2);
                    C::lemma_prefix(s.skip((n0 + n1) as int), rest);
                }
            }
        }
    }
}

impl<A: ToBytes, B: ToBytes, C: ToBytes> ToBytes for (A, B, C) {
    fn to_bytes<W: ByteWriter>(&self, out: &mut W) {
        self.0.to_bytes(out);
        self.1.to_bytes(out);
        self.2.to_bytes(out);
        assert(out.written() =~= old(out).written() + Self::encoding(self.model()));
    }
}

impl<A: FromBytes, B: FromBytes, C: FromBytes> FromBytes for (A, B, C) {
    fn from_bytes(b: &mut ByteCursor) -> (r: Option<(A, B, C)>) {
        let ghost s = b.rest();
        let v0 = match A::from_bytes(b) {
            None => return None,
            Some(v) => v,
        };
        let ghost o1: nat = (s.len() - b.rest().len()) as nat;
        assert(b.rest() =~= s.skip(o1 as int));
        let v1 = match B::from_bytes(b) {
            None => return None,
            Some(v) => v,
        };
        let ghost o2: nat = (s.len() - b.rest().len()) as nat;
        assert(b.rest() =~= s.skip(o2 as int));
        let v2 = match C::from_bytes(b) {
            None => return None,
            Some(v) => v,
        };
        let ghost o3: nat = (s.len() - b.rest().len()) as nat;
        assert(b.rest() =~= s.skip(o3 as int));
        Some((v0, v1, v2))
    }
}

impl<A: WireFormat, B: WireFormat, C: WireFormat, D: WireFormat> WireFormat for (A, B, C, D) {
    type M = (A::M, B::M, C::M, D::M);

    open spec fn model(&self) -> (A::M, B::M, C::M, D::M) {
        (self.0.model(), self.1.model(), self.2.model(), self.3.model())
    }

    open spec fn valid(m: (A::M, B::M, C::M, D::M)) -> bool {
        &&& A::valid(m.0)
        &&& B::valid(m.1)
        &&& C::valid(m.2)
        &&& D::valid(m.3)
    }

    open spec fn encoding(m: (A::M, B::M, C::M, D::M)) -> Seq<u8> {
        A::encoding(m.0) + B::encoding(m.1) + C::encoding(m.2) + D::encoding(m.3)
    }

    open spec fn decoding(s: Seq<u8>) -> Option<((A::M, B::M, C::M, D::M), nat)> {
        match A::decoding(s) {
            None => None,
            Some((x0, n0)) => match B::decoding(s.skip(n0 as int)) {
                None => None,
                Some((x1, n1)) => match C::decoding(s.skip((n0 + n1) as int)) {
                    None => None,
                    Some((x2, n2)) => match D::decoding(s.skip((n0 + n1 + n2) as int)) {
                        None => None,
                        Some((x3, n3)) => Some(((x0, x1, x2, x3), n0 + n1 + n2 + n3)),
                    },
                },
            },
        }
    }

    proof fn lemma_round_trip(m: (A::M, B::M, C::M, D::M), rest: Seq<u8>) {
        let t3 = D::encoding(m.3) + rest;
        let t2 = C::encoding(m.2) + t3;
        let t1 = B::encoding(m.1) + t2;
        let t0 = A::encoding(m.0) + t1;
        assert(Self::encoding(m) + rest =~= t0);
        let l0 = A::encoding(m.0).len();
        A::lemma_round_trip(m.0, t1);
        assert(t0.skip(l0 as int) =~= t1);
        let l1 = B::encoding(m.1).len();
        B::lemma_round_trip(m.1, t2);
        assert(t0.skip((l0 + l1) as int) =~= t2);
        let l2 = C::encoding(m.2).len();
        C::lemma_round_trip(m.2, t3);
        assert(t0.skip((l0 + l1 + l2) as int) =~= t3);
        D::lemma_round_trip(m.3, rest);
    }

    proof fn lemma_prefix(s: Seq<u8>, rest: Seq<u8>) {
        A::lemma_prefix(s, Seq::empty());
        if let Some((x0, n0)) = A::decoding(s) {
            B::lemma_prefix(s.skip(n0 as int), Seq::empty());
            if let Some((x1, n1)) = B::decoding(s.skip(n0 as int)) {
                C::lemma_prefix(s.skip((n0 + n1) as int), Seq::empty());
                if let Some((x2, n2)) = C::decoding(s.skip((n0 + n1) as int)) {
                    D::lemma_prefix(s.skip((n0 + n1 + n2) as int), Seq::empty());
                    if let Some((x3, n3)) = D::decoding(s.skip((n0 + n1 + n2) as int)) {
                        let total: nat = n0 + n1 + n2 + n3;
                        let t = s.take(total as int) + rest;
                        let u3 = s.skip((n0 + n1 + n2) as int).take(n3 as int) + rest;
                        let u2 = s.skip((n0 + n1) as int).take(n2 as int) + u3;
                        let u1 = s.skip(n0 as int).take(n1 as int) + u2;
                        let u0 = s.take(n0 as int) + u1;
                        assert(t =~= u0);
                        A::lemma_prefix(s, u1);
                        assert(t.skip(n0 as int) =~= u1);
                        B::lemma_prefix(s.skip(n0 as int), u2);
                        assert(t.skip((n0 + n1) as int) =~= u2);
                        C::lemma_prefix(s.skip((n0 + n1) as int), u3);
                        assert(t.skip((n0 + n1 + n2) as int) =~= u3);
                        D::lemma_prefix(s.skip((n0 + n1 + n2) as int), rest);
                    }
                }
            }
        }
    }
}

impl<A: ToBytes, B: ToBytes, C: ToBytes, D: ToBytes> ToBytes for (A, B, C, D) {
    fn to_bytes<W: ByteWriter>(&self, out: &mut W) {
        self.0.to_bytes(out);
        self.1.to_bytes(out);
        self.2.to_bytes(out);
        self.3.to_bytes(out);
        assert(out.written() =~= old(out).written() + Self::encoding(self.model()));
    }
}

impl<A: FromBytes, B: FromBytes, C: FromBytes, D: FromBytes> FromBytes for (A, B, C, D) {
    fn from_bytes(b: &mut ByteCursor) -> (r: Option<(A, B, C, D)>) {
        let ghost s = b.rest();
        let v0 = match A::from_bytes(b) {
            None => return None,
            Some(v) => v,
        };
        let ghost o1: nat = (s.len() - b.rest().len()) as nat;
        assert(b.rest() =~= s.skip(o1 as int));
        let v1 = match B::from_bytes(b) {
            None => return None,
            Some(v) => v,
        };
        let ghost o2: nat = (s.len() - b.rest().len()) as nat;
        assert(b.rest() =~= s.skip(o2 as int));
        let v2 = match C::from_bytes(b) {
            None => return None,
            Some(v) => v,
        };
        let ghost o3: nat = (s.len() - b.rest().len()) as nat;
        assert(b.rest() =~= s.skip(o3 as int));
        let v3 = match D::from_bytes(b) {
            None => return None,
            Some(v) => v,
        };
        let ghost o4: nat = (s.len() - b.rest().len()) as nat;
        assert(b.rest() =~= s.skip(o4 as int));
        Some((v0, v1, v2, v3))
    }
}

impl<A: WireFormat, B: WireFormat, C: WireFormat, D: WireFormat, E: WireFormat> WireFormat for (A, B, C, D, E) {
    type M = (A::M, B::M, C::M, D::M, E::M);

    open spec fn model(&self) -> (A::M, B::M, C::M, D::M, E::M) {
        (self.0.model(), self.1.model(), self.2.model(), self.3.model(), self.4.model())
    }

    open spec fn valid(m: (A::M, B::M, C::M, D::M, E::M)) -> bool {
        &&& A::valid(m.0)
        &&& B::valid(m.1)
        &&& C::valid(m.2)
        &&& D::valid(m.3)
        &&& E::valid(m.4)
    }

    open spec fn encoding(m: (A::M, B::M, C::M, D::M, E::M)) -> Seq<u8> {
        A::encoding(m.0) + B::encoding(m.1) + C::encoding(m.2) + D::encoding(m.3) + E::encoding(m.4)
    }

    open spec fn decoding(s: Seq<u8>) -> Option<((A::M, B::M, C::M, D::M, E::M), nat)> {
        match A::decoding(s) {
            None => None,
            Some((x0, n0)) => match B::decoding(s.skip(n0 as int)) {
                None => None,
                Some((x1, n1)) => match C::decoding(s.skip((n0 + n1) as int)) {
                    None => None,
                    Some((x2, n2)) => match D::decoding(s.skip((n0 + n1 + n2) as int)) {
                        None => None,
                        Some((x3, n3)) => match E::decoding(s.skip((n0 + n1 + n2 + n3) as int)) {
                            None => None,
                            Some((x4, n4)) => Some(((x0, x1, x2, x3, x4), n0 + n1 + n2 + n3 + n4)),
                        },
                    },
                },
            },
        }
    }

    proof fn lemma_round_trip(m: (A::M, B::M, C::M, D::M, E::M), rest: Seq<u8>) {
        let t4 = E::encoding(m.4) + rest;
        let t3 = D::encoding(m.3) + t4;
        let t2 = C::encoding(m.2) + t3;
        let t1 = B::encoding(m.1) + t2;
        let t0 = A::encoding(m.0) + t1;
        assert(Self::encoding(m) + rest =~= t0);
        let l0 = A::encoding(m.0).len();
        A::lemma_round_trip(m.0, t1);
        assert(t0.skip(l0 as int) =~= t1);
        let l1 = B::encoding(m.1).len();
        B::lemma_round_trip(m.1, t2);
        assert(t0.skip((l0 + l1) as int) =~= t2);
        let l2 = C::encoding(m.2).len();
        C::lemma_round_trip(m.2, t3);
        assert(t0.skip((l0 + l1 + l2) as int) =~= t3);
        let l3 = D::encoding(m.3).len();
        D::lemma_round_trip(m.3, t4);
        assert(t0.skip((l0 + l1 + l2 + l3) as int) =~= t4);
        E::lemma_round_trip(m.4, rest);
    }

    #[verifier::spinoff_prover]
    #[verifier::rlimit(50)]
    proof fn lemma_prefix(s: Seq<u8>, rest: Seq<u8>) {
        A::lemma_prefix(s, Seq::empty());
        if let Some((x0, n0)) = A::decoding(s) {
            B::lemma_prefix(s.skip(n0 as int), Seq::empty());
            if let Some((x1, n1)) = B::decoding(s.skip(n0 as int)) {
                C::lemma_prefix(s.skip((n0 + n1) as int), Seq::empty());
                if let Some((x2, n2)) = C::decoding(s.skip((n0 + n1) as int)) {
                    D::lemma_prefix(s.skip((n0 + n1 + n2) as int), Seq::empty());
                    if let Some((x3, n3)) = D::decoding(s.skip((n0 + n1 + n2) as int)) {
                        E::lemma_prefix(s.skip((n0 + n1 + n2 + n3) as int), Seq::empty());
                        if let Some((x4, n4)) = E::decoding(s.skip((n0 + n1 + n2 + n3) as int)) {
                            let total: nat = n0 + n1 + n2 + n3 + n4;
                            let t = s.take(total as int) + rest;
                            let u4 = s.skip((n0 + n1 + n2 + n3) as int).take(n4 as int) + rest;
                            let u3 = s.skip((n0 + n1 + n2) as int).take(n3 as int) + u4;
                            let u2 = s.skip((n0 + n1) as int).take(n2 as int) + u3;
                            let u1 = s.skip(n0 as int).take(n1 as int) + u2;
                            let u0 = s.take(n0 as int) + u1;
                            assert(t =~= u0);
                            A::lemma_prefix(s, u1);
                            assert(t.skip(n0 as int) =~= u1);
                            B::lemma_prefix(s.skip(n0 as int), u2);
                            assert(t.skip((n0 + n1) as int) =~= u2);
                            C::lemma_prefix(s.skip((n0 + n1) as int), u3);
                            assert(t.skip((n0 + n1 + n2) as int) =~= u3);
                            D::lemma_prefix(s.skip((n0 + n1 + n2) as int), u4);
                            assert(t.skip((n0 + n1 + n2 + n3) as int) =~= u4);
                            E::lemma_prefix(s.skip((n0 + n1 + n2 + n3) as int), rest);
                        }
                    }
                }
            }
        }
    }
}

impl<A: ToBytes, B: ToBytes, C: ToBytes, D: ToBytes, E: ToBytes> ToBytes for (A, B, C, D, E) {
    fn to_bytes<W: ByteWriter>(&self, out: &mut W) {
        self.0.to_bytes(out);
        self.1.to_bytes(out);
        self.2.to_bytes(out);
        self.3.to_bytes(out);
        self.4.to_bytes(out);
        assert(out.written() =~= old(out).written() + Self::encoding(self.model()));
    }
}

impl<A: FromBytes, B: FromBytes, C: FromBytes, D: FromBytes, E: FromBytes> FromBytes for (A, B, C, D, E) {
    fn from_bytes(b: &mut ByteCursor) -> (r: Option<(A, B, C, D, E)>) {
        let ghost s = b.rest();
        let v0 = match A::from_bytes(b) {
            None => return None,
            Some(v) => v,
        };
        let ghost o1: nat = (s.len() - b.rest().len()) as nat;
        assert(b.rest() =~= s.skip(o1 as int));
        let v1 = match B::from_bytes(b) {
            None => return None,
            Some(v) => v,
        };
        let ghost o2: nat = (s.len() - b.rest().len()) as nat;
        assert(b.rest() =~= s.skip(o2 as int));
        let v2 = match C::from_bytes(b) {
            None => return None,
            Some(v) => v,
        };
        let ghost o3: nat = (s.len() - b.rest().len()) as nat;
        assert(b.rest() =~= s.skip(o3 as int));
        let v3 = match D::from_bytes(b) {
            None => return None,
            Some(v) => v,
        };
        let ghost o4: nat = (s.len() - b.rest().len()) as nat;
        assert(b.rest() =~= s.skip(o4 as int));
        let v4 = match E::from_bytes(b) {
            None => return None,
            Some(v) => v,
        };
        let ghost o5: nat = (s.len() - b.rest().len()) as nat;
        assert(b.rest() =~= s.skip(o5 as int));
        Some((v0, v1, v2, v3, v4))
    }
}

impl<A: WireFormat, B: WireFormat, C: WireFormat, D: WireFormat, E: WireFormat, F: WireFormat> WireFormat for (A, B, C, D, E, F) {
    type M = (A::M, B::M, C::M, D::M, E::M, F::M);

    open spec fn model(&self) -> (A::M, B::M, C::M, D::M, E::M, F::M) {
        (self.0.model(), self.1.model(), self.2.model(), self.3.model(), self.4.model(), self.5.model())
    }

    open spec fn valid(m: (A::M, B::M, C::M, D::M, E::M, F::M)) -> bool {
        &&& A::valid(m.0)
        &&& B::valid(m.1)
        &&& C::valid(m.2)
        &&& D::valid(m.3)
        &&& E::valid(m.4)
        &&& F::valid(m.5)
    }

    open spec fn encoding(m: (A::M, B::M, C::M, D::M, E::M, F::M)) -> Seq<u8> {
        A::encoding(m.0) + B::encoding(m.1) + C::encoding(m.2) + D::encoding(m.3) + E::encoding(m.4) + F::encoding(m.5)
    }

    open spec fn decoding(s: Seq<u8>) -> Option<((A::M, B::M, C::M, D::M, E::M, F::M), nat)> {
        match A::decoding(s) {
            None => None,
            Some((x0, n0)) => match B::decoding(s.skip(n0 as int)) {
                None => None,
                Some((x1, n1)) => match C::decoding(s.skip((n0 + n1) as int)) {
                    None => None,
                    Some((x2, n2)) => match D::decoding(s.skip((n0 + n1 + n2) as int)) {
                        None => None,
                        Some((x3, n3)) => match E::decoding(s.skip((n0 + n1 + n2 + n3) as int)) {
                            None => None,
                            Some((x4, n4)) => match F::decoding(s.skip((n0 + n1 + n2 + n3 + n4) as int)) {
                                None => None,
                                Some((x5, n5)) => Some(((x0, x1, x2, x3, x4, x5), n0 + n1 + n2 + n3 + n4 + n5)),
                            },
                        },
                    },
                },
            },
        }
    }

    proof fn lemma_round_trip(m: (A::M, B::M, C::M, D::M, E::M, F::M), rest: Seq<u8>) {
        let t5 = F::encoding(m.5) + rest;
        let t4 = E::encoding(m.4) + t5;
        let t3 = D::encoding(m.3) + t4;
        let t2 = C::encoding(m.2) + t3;
        let t1 = B::encoding(m.1) + t2;
        let t0 = A::encoding(m.0) + t1;
        assert(Self::encoding(m) + rest =~= t0);
        let l0 = A::encoding(m.0).len();
        A::lemma_round_trip(m.0, t1);
        assert(t0.skip(l0 as int) =~= t1);
        let l1 = B::encoding(m.1).len();
        B::lemma_round_trip(m.1, t2);
        assert(t0.skip((l0 + l1) as int) =~= t2);
        let l2 = C::encoding(m.2).len();
        C::lemma_round_trip(m.2, t3);
        assert(t0.skip((l0 + l1 + l2) as int) =~= t3);
        let l3 = D::encoding(m.3).len();
        D::lemma_round_trip(m.3, t4);
        assert(t0.skip((l0 + l1 + l2 + l3) as int) =~= t4);
        let l4 = E::encoding(m.4).len();
        E::lemma_round_trip(m.4, t5);
        assert(t0.skip((l0 + l1 + l2 + l3 + l4) as int) =~= t5);
        F::lemma_round_trip(m.5, rest);
    }

    #[verifier::spinoff_prover]
    #[verifier::rlimit(50)]
    proof fn lemma_prefix(s: Seq<u8>, rest: Seq<u8>) {
        A::lemma_prefix(s, Seq::empty());
        if let Some((x0, n0)) = A::decoding(s) {
            B::lemma_prefix(s.skip(n0 as int), Seq::empty());
            if let Some((x1, n1)) = B::decoding(s.skip(n0 as int)) {
                C::lemma_prefix(s.skip((n0 + n1) as int), Seq::empty());
                if let Some((x2, n2)) = C::decoding(s.skip((n0 + n1) as int)) {
                    D::lemma_prefix(s.skip((n0 + n1 + n2) as int), Seq::empty());
                    if let Some((x3, n3)) = D::decoding(s.skip((n0 + n1 + n2) as int)) {
                        E::lemma_prefix(s.skip((n0 + n1 + n2 + n3) as int), Seq::empty());
                        if let Some((x4, n4)) = E::decoding(s.skip((n0 + n1 + n2 + n3) as int)) {
                            F::lemma_prefix(s.skip((n0 + n1 + n2 + n3 + n4) as int), Seq::empty());
                            if let Some((x5, n5)) = F::decoding(s.skip((n0 + n1 + n2 + n3 + n4) as int)) {
                                let total: nat = n0 + n1 + n2 + n3 + n4 + n5;
                                let t = s.take(total as int) + rest;
                                let u5 = s.skip((n0 + n1 + n2 + n3 + n4) as int).take(n5 as int) + rest;
                                let u4 = s.skip((n0 + n1 + n2 + n3) as int).take(n4 as int) + u5;
                                let u3 = s.skip((n0 + n1 + n2) as int).take(n3 as int) + u4;
                                let u2 = s.skip((n0 + n1) as int).take(n2 as int) + u3;
                                let u1 = s.skip(n0 as int).take(n1 as int) + u2;
                                let u0 = s.take(n0 as int) + u1;
                                assert(t =~= u0);
                                A::lemma_prefix(s, u1);
                                assert(t.skip(n0 as int) =~= u1);
                                B::lemma_prefix(s.skip(n0 as int), u2);
                                assert(t.skip((n0 + n1) as int) =~= u2);
                                C::lemma_prefix(s.skip((n0 + n1) as int), u3);
                                assert(t.skip((n0 + n1 + n2) as int) =~= u3);
                                D::lemma_prefix(s.skip((n0 + n1 + n2) as int), u4);
                                assert(t.skip((n0 + n1 + n2 + n3) as int) =~= u4);
                                E::lemma_prefix(s.skip((n0 + n1 + n2 + n3) as int), u5);
                                assert(t.skip((n0 + n1 + n2 + n3 + n4) as int) =~= u5);
                                F::lemma_prefix(s.skip((n0 + n1 + n2 + n3 + n4) as int), rest);
                            }
                        }
                    }
                }
            }
        }
    }
}

impl<A: ToBytes, B: ToBytes, C: ToBytes, D: ToBytes, E: ToBytes, F: ToBytes> ToBytes for (A, B, C, D, E, F) {
    fn to_bytes<W: ByteWriter>(&self, out: &mut W) {
        self.0.to_bytes(out);
        self.1.to_bytes(out);
        self.2.to_bytes(out);
        self.3.to_bytes(out);
        self.4.to_bytes(out);
        self.5.to_bytes(out);
        assert(out.written() =~= old(out).written() + Self::encoding(self.model()));
    }
}

impl<A: FromBytes, B: FromBytes, C: FromBytes, D: FromBytes, E: FromBytes, F: FromBytes> FromBytes for (A, B, C, D, E, F) {
    fn from_bytes(b: &mut ByteCursor) -> (r: Option<(A, B, C, D, E, F)>) {
        let ghost s = b.rest();
        let v0 = match A::from_bytes(b) {
            None => return None,
            Some(v) => v,
        };
        let ghost o1: nat = (s.len() - b.rest().len()) as nat;
        assert(b.rest() =~= s.skip(o1 as int));
        let v1 = match B::from_bytes(b) {
            None => return None,
            Some(v) => v,
        };
        let ghost o2: nat = (s.len() - b.rest().len()) as nat;
        assert(b.rest() =~= s.skip(o2 as int));
        let v2 = match C::from_bytes(b) {
            None => return None,
            Some(v) => v,
        };
        let ghost o3: nat = (s.len() - b.rest().len()) as nat;
        assert(b.rest() =~= s.skip(o3 as int));
        let v3 = match D::from_bytes(b) {
            None => return None,
            Some(v) => v,
        };
        let ghost o4: nat = (s.len() - b.rest().len()) as nat;
        assert(b.rest() =~= s.skip(o4 as int));
        let v4 = match E::from_bytes(b) {
            None => return None,
            Some(v) => v,
        };
        let ghost o5: nat = (s.len() - b.rest().len()) as nat;
        assert(b.rest() =~= s.skip(o5 as int));
        let v5 = match F::from_bytes(b) {
            None => return None,
            Some(v) => v,
        };
        let ghost o6: nat = (s.len() - b.rest().len()) as nat;
        assert(b.rest() =~= s.skip(o6 as int));
        Some((v0, v1, v2, v3, v4, v5))
    }
}

impl<A: WireFormat, B: WireFormat, C: WireFormat, D: WireFormat, E: WireFormat, F: WireFormat, G: WireFormat> WireFormat for (A, B, C, D, E, F, G) {
    type M = (A::M, B::M, C::M, D::M, E::M, F::M, G::M);

    open spec fn model(&self) -> (A::M, B::M, C::M, D::M, E::M, F::M, G::M) {
        (self.0.model(), self.1.model(), self.2.model(), self.3.model(), self.4.model(), self.5.model(), self.6.model())
    }

    open spec fn valid(m: (A::M, B::M, C::M, D::M, E::M, F::M, G::M)) -> bool {
        &&& A::valid(m.0)
        &&& B::valid(m.1)
        &&& C::valid(m.2)
        &&& D::valid(m.3)
        &&& E::valid(m.4)
        &&& F::valid(m.5)
        &&& G::valid(m.6)
    }

    open spec fn encoding(m: (A::M, B::M, C::M, D::M, E::M, F::M, G::M)) -> Seq<u8> {
        A::encoding(m.0) + B::encoding(m.1) + C::encoding(m.2) + D::encoding(m.3) + E::encoding(m.4) + F::encoding(m.5) + G::encoding(m.6)
    }

    open spec fn decoding(s: Seq<u8>) -> Option<((A::M, B::M, C::M, D::M, E::M, F::M, G::M), nat)> {
        match A::decoding(s) {
            None => None,
            Some((x0, n0)) => match B::decoding(s.skip(n0 as int)) {
                None => None,
                Some((x1, n1)) => match C::decoding(s.skip((n0 + n1) as int)) {
                    None => None,
                    Some((x2, n2)) => match D::decoding(s.skip((n0 + n1 + n2) as int)) {
                        None => None,
                        Some((x3, n3)) => match E::decoding(s.skip((n0 + n1 + n2 + n3) as int)) {
                            None => None,
                            Some((x4, n4)) => match F::decoding(s.skip((n0 + n1 + n2 + n3 + n4) as int)) {
                                None => None,
                                Some((x5, n5)) => match G::decoding(s.skip((n0 + n1 + n2 + n3 + n4 + n5) as int)) {
                                    None => None,
                                    Some((x6, n6)) => Some(((x0, x1, x2, x3, x4, x5, x6), n0 + n1 + n2 + n3 + n4 + n5 + n6)),
                                },
                            },
                        },
                    },
                },
            },
        }
    }

    proof fn lemma_round_trip(m: (A::M, B::M, C::M, D::M, E::M, F::M, G::M), rest: Seq<u8>) {
        let t6 = G::encoding(m.6) + rest;
        let t5 = F::encoding(m.5) + t6;
        let t4 = E::encoding(m.4) + t5;
        let t3 = D::encoding(m.3) + t4;
        let t2 = C::encoding(m.2) + t3;
        let t1 = B::encoding(m.1) + t2;
        let t0 = A::encoding(m.0) + t1;
        assert(Self::encoding(m) + rest =~= t0);
        let l0 = A::encoding(m.0).len();
        A::lemma_round_trip(m.0, t1);
        assert(t0.skip(l0 as int) =~= t1);
        let l1 = B::encoding(m.1).len();
        B::lemma_round_trip(m.1, t2);
        assert(t0.skip((l0 + l1) as int) =~= t2);
        let l2 = C::encoding(m.2).len();
        C::lemma_round_trip(m.2, t3);
        assert(t0.skip((l0 + l1 + l2) as int) =~= t3);
        let l3 = D::encoding(m.3).len();
        D::lemma_round_trip(m.3, t4);
        assert(t0.skip((l0 + l1 + l2 + l3) as int) =~= t4);
        let l4 = E::encoding(m.4).len();
        E::lemma_round_trip(m.4, t5);
        assert(t0.skip((l0 + l1 + l2 + l3 + l4) as int) =~= t5);
        let l5 = F::encoding(m.5).len();
        F::lemma_round_trip(m.5, t6);
        assert(t0.skip((l0 + l1 + l2 + l3 + l4 + l5) as int) =~= t6);
        G::lemma_round_trip(m.6, rest);
    }

    #[verifier::spinoff_prover]
    #[verifier::rlimit(50)]
    proof fn lemma_prefix(s: Seq<u8>, rest: Seq<u8>) {
        A::lemma_prefix(s, Seq::empty());
        if let Some((x0, n0)) = A::decoding(s) {
            B::lemma_prefix(s.skip(n0 as int), Seq::empty());
            if let Some((x1, n1)) = B::decoding(s.skip(n0 as int)) {
                C::lemma_prefix(s.skip((n0 + n1) as int), Seq::empty());
                if let Some((x2, n2)) = C::decoding(s.skip((n0 + n1) as int)) {
                    D::lemma_prefix(s.skip((n0 + n1 + n2) as int), Seq::empty());
                    if let Some((x3, n3)) = D::decoding(s.skip((n0 + n1 + n2) as int)) {
                        E::lemma_prefix(s.skip((n0 + n1 + n2 + n3) as int), Seq::empty());
                        if let Some((x4, n4)) = E::decoding(s.skip((n0 + n1 + n2 + n3) as int)) {
                            F::lemma_prefix(s.skip((n0 + n1 + n2 + n3 + n4) as int), Seq::empty());
                            if let Some((x5, n5)) = F::decoding(s.skip((n0 + n1 + n2 + n3 + n4) as int)) {
                                G::lemma_prefix(s.skip((n0 + n1 + n2 + n3 + n4 + n5) as int), Seq::empty());
                                if let Some((x6, n6)) = G::decoding(s.skip((n0 + n1 + n2 + n3 + n4 + n5) as int)) {
                                    let total: nat = n0 + n1 + n2 + n3 + n4 + n5 + n6;
                                    let t = s.take(total as int) + rest;
                                    let u6 = s.skip((n0 + n1 + n2 + n3 + n4 + n5) as int).take(n6 as int) + rest;
                                    let u5 = s.skip((n0 + n1 + n2 + n3 + n4) as int).take(n5 as int) + u6;
                                    let u4 = s.skip((n0 + n1 + n2 + n3) as int).take(n4 as int) + u5;
                                    let u3 = s.skip((n0 + n1 + n2) as int).take(n3 as int) + u4;
                                    let u2 = s.skip((n0 + n1) as int).take(n2 as int) + u3;
                                    let u1 = s.skip(n0 as int).take(n1 as int) + u2;
                                    let u0 = s.take(n0 as int) + u1;
                                    assert(t =~= u0);
                                    A::lemma_prefix(s, u1);
                                    assert(t.skip(n0 as int) =~= u1);
                                    B::lemma_prefix(s.skip(n0 as int), u2);
                                    assert(t.skip((n0 + n1) as int) =~= u2);
                                    C::lemma_prefix(s.skip((n0 + n1) as int), u3);
                                    assert(t.skip((n0 + n1 + n2) as int) =~= u3);
                                    D::lemma_prefix(s.skip((n0 + n1 + n2) as int), u4);
                                    assert(t.skip((n0 + n1 + n2 + n3) as int) =~= u4);
                                    E::lemma_prefix(s.skip((n0 + n1 + n2 + n3) as int), u5);
                                    assert(t.skip((n0 + n1 + n2 + n3 + n4) as int) =~= u5);
                                    F::lemma_prefix(s.skip((n0 + n1 + n2 + n3 + n4) as int), u6);
                                    assert(t.skip((n0 + n1 + n2 + n3 + n4 + n5) as int) =~= u6);
                                    G::lemma_prefix(s.skip((n0 + n1 + n2 + n3 + n4 + n5) as int), rest);
                                }
                            }
                        }
                    }
                }
            }
        }
    }
}

impl<A: ToBytes, B: ToBytes, C: ToBytes, D: ToBytes, E: ToBytes, F: ToBytes, G: ToBytes> ToBytes for (A, B, C, D, E, F, G) {
    fn to_bytes<W: ByteWriter>(&self, out: &mut W) {
        self.0.to_bytes(out);
        self.1.to_bytes(out);
        self.2.to_bytes(out);
        self.3.to_bytes(out);
        self.4.to_bytes(out);
        self.5.to_bytes(out);
        self.6.to_bytes(out);
        assert(out.written() =~= old(out).written() + Self::encoding(self.model()));
    }
}

impl<A: FromBytes, B: FromBytes, C: FromBytes, D: FromBytes, E: FromBytes, F: FromBytes, G: FromBytes> FromBytes for (A, B, C, D, E, F, G) {
    fn from_bytes(b: &mut ByteCursor) -> (r: Option<(A, B, C, D, E, F, G)>) {
        let ghost s = b.rest();
        let v0 = match A::from_bytes(b) {
            None => return None,
            Some(v) => v,
        };
        let ghost o1: nat = (s.len() - b.rest().len()) as nat;
        assert(b.rest() =~= s.skip(o1 as int));
        let v1 = match B::from_bytes(b) {
            None => return None,
            Some(v) => v,
        };
        let ghost o2: nat = (s.len() - b.rest().len()) as nat;
        assert(b.rest() =~= s.skip(o2 as int));
        let v2 = match C::from_bytes(b) {
            None => return None,
            Some(v) => v,
        };
        let ghost o3: nat = (s.len() - b.rest().len()) as nat;
        assert(b.rest() =~= s.skip(o3 as int));
        let v3 = match D::from_bytes(b) {
            None => return None,
            Some(v) => v,
        };
        let ghost o4: nat = (s.len() - b.rest().len()) as nat;
        assert(b.rest() =~= s.skip(o4 as int));
        let v4 = match E::from_bytes(b) {
            None => return None,
            Some(v) => v,
        };
        let ghost o5: nat = (s.len() - b.rest().len()) as nat;
        assert(b.rest() =~= s.skip(o5 as int));
        let v5 = match F::from_bytes(b) {
            None => return None,
            Some(v) => v,
        };
        let ghost o6: nat = (s.len() - b.rest().len()) as nat;
        assert(b.rest() =~= s.skip(o6 as int));
        let v6 = match G::from_bytes(b) {
            None => return None,
            Some(v) => v,
        };
        let ghost o7: nat = (s.len() - b.rest().len()) as nat;
        assert(b.rest() =~= s.skip(o7 as int));
        Some((v0, v1, v2, v3, v4, v5, v6))
    }
}

} // verus!
