//! Trusted boundary to the bilinear-group arithmetic of the arkworks crates.
//!
//! The scalar field `Fr` of BLS12-381, the two curve groups and the pairing
//! target group are all cyclic of the same prime order [`fr_order`], and the
//! arkworks API keeps every value inside that prime-order subgroup.  Each
//! value is therefore modelled by one integer: its residue (for scalars) or
//! its discrete logarithm with respect to a fixed generator of its group (for
//! group elements), always taken modulo [`fr_order`].  The contracts of the
//! trusted methods below state, in ordinary modular integer arithmetic, what
//! each operation of the outside crates does to those integers.
//!
//! The four value types hold their arkworks value in a hidden field: the
//! arkworks types themselves cannot be declared to the verifier, because
//! their generic parameters are bound by traits of the outside crates.

use ark_ec::pairing::Pairing;
use ark_ec::AffineRepr;
use ark_ec::CurveGroup;
use ark_ff::Field;
use ark_serialize::CanonicalDeserialize;
use ark_serialize::CanonicalSerialize;
use ark_std::rand::SeedableRng;
use ark_std::UniformRand;
use ark_std::Zero;
use std::ops::Mul;
use vstd::prelude::*;

verus! {

/// Order of the BLS12-381 scalar field, and of the prime-order subgroups of
/// the curve groups and of the pairing target group.
pub open spec fn fr_order() -> int {
    0x73eda753299d7d483339d80809a1d80553bda402fffe5bfeffffffff00000001int
}

/// Element of the scalar field.
#[verifier::external_body]
pub struct Scalar {
    inner: ark_bls12_381::Fr,
}

/// Affine point of the first curve group.
#[verifier::external_body]
pub struct G1Affine {
    inner: ark_bls12_381::G1Affine,
}

/// Affine point of the second curve group.
#[verifier::external_body]
pub struct G2Affine {
    inner: ark_bls12_381::G2Affine,
}

/// Element of the pairing target group, written additively.
#[verifier::external_body]
pub struct Gt {
    inner: ark_ec::pairing::PairingOutput<ark_bls12_381::Bls12_381>,
}

/// The random source that every probabilistic operation draws from.
#[verifier::external_body]
pub struct RandSource {
    inner: ark_std::rand::rngs::StdRng,
}

/// Residue of a scalar field element, in `[0, fr_order())`.
pub uninterp spec fn fr_val(x: Scalar) -> int;

/// Discrete logarithm of a point of the first curve group, in `[0, fr_order())`.
pub uninterp spec fn g1_log(p: G1Affine) -> int;

/// Discrete logarithm of a point of the second curve group, in `[0, fr_order())`.
pub uninterp spec fn g2_log(p: G2Affine) -> int;

/// Discrete logarithm of a target-group element with respect to the pairing
/// of the two reference generators, in `[0, fr_order())`.
pub uninterp spec fn gt_log(t: Gt) -> int;

/// Sum of the pairwise products of two equally long residue sequences,
/// taken modulo the group order: the model of a multi-pairing.
pub open spec fn pair_fold(xs: Seq<int>, ys: Seq<int>) -> int
    decreases xs.len(),
{
    if xs.len() == 0 || ys.len() == 0 {
        0
    } else {
        (pair_fold(xs.drop_last(), ys.drop_last()) + xs.last() * ys.last()) % fr_order()
    }
}


impl Clone for Scalar {
    /// Relies on the arkworks value being a plain copyable value.
    #[verifier::external_body]
    fn clone(&self) -> (r: Scalar)
        ensures
            r == *self,
    {
        Scalar { inner: self.inner }
    }
}

impl Copy for Scalar {

}

impl Clone for G1Affine {
    /// Relies on the arkworks value being a plain copyable value.
    #[verifier::external_body]
    fn clone(&self) -> (r: G1Affine)
        ensures
            r == *self,
    {
        G1Affine { inner: self.inner }
    }
}

impl Copy for G1Affine {

}

impl Clone for G2Affine {
    /// Relies on the arkworks value being a plain copyable value.
    #[verifier::external_body]
    fn clone(&self) -> (r: G2Affine)
        ensures
            r == *self,
    {
        G2Affine { inner: self.inner }
    }
}

impl Copy for G2Affine {

}

impl Clone for Gt {
    /// Relies on the arkworks value being a plain copyable value.
    #[verifier::external_body]
    fn clone(&self) -> (r: Gt)
        ensures
            r == *self,
    {
        Gt { inner: self.inner }
    }
}

impl Copy for Gt {

}


/// Canonical byte encoding of the scalar with residue `v`; field elements
/// encode identically in both modes.
pub uninterp spec fn fr_bytes(v: int) -> Seq<u8>;

/// Canonical byte encoding of the `G1` point with logarithm `v`, in the
/// compressed or the uncompressed mode.
pub uninterp spec fn g1_bytes(v: int, compress: bool) -> Seq<u8>;

/// Canonical byte encoding of the `G2` point with logarithm `v`, in the
/// compressed or the uncompressed mode.
pub uninterp spec fn g2_bytes(v: int, compress: bool) -> Seq<u8>;

/// Canonical byte encoding of the target-group element with logarithm `v`;
/// identical in both modes.
pub uninterp spec fn gt_bytes(v: int) -> Seq<u8>;

/// Encoded size of one `G1` point.
pub open spec fn g1_enc_len(compress: bool) -> nat {
    if compress {
        48
    } else {
        96
    }
}

/// Encoded size of one `G2` point.
pub open spec fn g2_enc_len(compress: bool) -> nat {
    if compress {
        96
    } else {
        192
    }
}

impl Scalar {
    /// Relies on `ark_ff::Zero::zero` for the scalar field.
    #[verifier::external_body]
    pub fn zero() -> (r: Scalar)
        ensures
            fr_val(r) == 0,
    {
        Scalar { inner: ark_bls12_381::Fr::zero() }
    }

    /// Relies on `ark_ff::Field::ONE` for the scalar field.
    #[verifier::external_body]
    pub fn one() -> (r: Scalar)
        ensures
            fr_val(r) == 1,
    {
        Scalar { inner: ark_bls12_381::Fr::ONE }
    }

    /// Relies on `ark_ff::Fp::from`: the residue of `n` modulo the field order.
    #[verifier::external_body]
    pub fn from_u64(n: u64) -> (r: Scalar)
        ensures
            fr_val(r) == n as int % fr_order(),
    {
        Scalar { inner: ark_bls12_381::Fr::from(n) }
    }

    /// Relies on `ark_std::UniformRand::rand` for the scalar field: some field
    /// element; nothing is promised about which one.
    #[verifier::external_body]
    pub fn rand(rng: &mut RandSource) -> (r: Scalar)
        ensures
            0 <= fr_val(r) < fr_order(),
    {
        Scalar { inner: ark_bls12_381::Fr::rand(&mut rng.inner) }
    }

    /// Relies on field addition of `ark_ff::Fp`: addition modulo the field order.
    #[verifier::external_body]
    pub fn add(&self, other: &Scalar) -> (r: Scalar)
        ensures
            fr_val(r) == (fr_val(*self) + fr_val(*other)) % fr_order(),
    {
        Scalar { inner: self.inner + other.inner }
    }

    /// Relies on field multiplication of `ark_ff::Fp`: multiplication modulo
    /// the field order.
    #[verifier::external_body]
    pub fn mul(&self, other: &Scalar) -> (r: Scalar)
        ensures
            fr_val(r) == (fr_val(*self) * fr_val(*other)) % fr_order(),
    {
        Scalar { inner: self.inner * other.inner }
    }

    /// Relies on field negation of `ark_ff::Fp`: the additive inverse modulo
    /// the field order.
    #[verifier::external_body]
    pub fn neg(&self) -> (r: Scalar)
        ensures
            fr_val(r) == (-fr_val(*self)) % fr_order(),
    {
        Scalar { inner: -self.inner }
    }

    /// Relies on `ark_serialize::CanonicalSerialize` for the scalar field:
    /// the canonical 32-byte encoding, a function of the residue alone.
    #[verifier::external_body]
    pub fn to_bytes(&self) -> (r: Vec<u8>)
        ensures
            r@ == fr_bytes(fr_val(*self)),
            r@.len() == 32,
    {
        let mut buf = Vec::new();
        self.inner.serialize_compressed(&mut buf).unwrap();
        buf
    }

    /// Relies on `ark_serialize::CanonicalDeserialize` for the scalar field:
    /// exactly the canonical encodings are accepted, each for one residue.
    #[verifier::external_body]
    pub fn from_bytes(bytes: &[u8]) -> (r: Option<Scalar>)
        requires
            bytes@.len() == 32,
        ensures
            r matches Some(v) ==> bytes@ == fr_bytes(fr_val(v)) && 0 <= fr_val(v) < fr_order(),
            r matches Some(v) ==> forall|w: int|
                0 <= w < fr_order() && fr_bytes(w) == bytes@ ==> w == fr_val(v),
            (exists|w: int| 0 <= w < fr_order() && bytes@ == fr_bytes(w)) ==> r is Some,
    {
        match ark_bls12_381::Fr::deserialize_compressed(bytes) {
            Ok(inner) => Some(Scalar { inner }),
            Err(_) => None,
        }
    }

    /// Relies on `PartialEq` of `ark_ff::Fp`: equality of field elements is
    /// equality of their residues.
    #[verifier::external_body]
    pub fn eq_val(&self, other: &Scalar) -> (r: bool)
        ensures
            r == (fr_val(*self) == fr_val(*other)),
    {
        self.inner == other.inner
    }
}

impl G1Affine {
    /// Relies on `ark_ec::AffineRepr::zero`: the point at infinity.
    #[verifier::external_body]
    pub fn zero() -> (r: G1Affine)
        ensures
            g1_log(r) == 0,
    {
        G1Affine { inner: ark_bls12_381::G1Affine::zero() }
    }

    /// Relies on `ark_std::UniformRand::rand` for the group: some point of the
    /// prime-order group; nothing is promised about which one.
    #[verifier::external_body]
    pub fn rand(rng: &mut RandSource) -> (r: G1Affine)
        ensures
            0 <= g1_log(r) < fr_order(),
    {
        G1Affine { inner: ark_bls12_381::G1Projective::rand(&mut rng.inner).into_affine() }
    }

    /// Relies on the curve group law of `ark_ec::short_weierstrass::Affine`:
    /// logarithms add modulo the group order.
    #[verifier::external_body]
    pub fn add(&self, other: &G1Affine) -> (r: G1Affine)
        ensures
            g1_log(r) == (g1_log(*self) + g1_log(*other)) % fr_order(),
    {
        G1Affine { inner: (self.inner + other.inner).into_affine() }
    }

    /// Relies on curve point negation: the logarithm is negated modulo the
    /// group order.
    #[verifier::external_body]
    pub fn neg(&self) -> (r: G1Affine)
        ensures
            g1_log(r) == (-g1_log(*self)) % fr_order(),
    {
        G1Affine { inner: -self.inner }
    }

    /// Relies on scalar multiplication of `ark_ec::short_weierstrass::Affine`
    /// (its `Mul` by a scalar field element): the logarithm is multiplied by
    /// the scalar's residue, modulo the group order.
    #[verifier::external_body]
    pub fn mul(&self, s: &Scalar) -> (r: G1Affine)
        ensures
            g1_log(r) == (g1_log(*self) * fr_val(*s)) % fr_order(),
    {
        G1Affine { inner: self.inner.mul(s.inner).into_affine() }
    }

    /// Relies on `ark_serialize::CanonicalSerialize` for affine points: the
    /// canonical encoding of the given mode, a function of the point alone.
    #[verifier::external_body]
    pub fn to_bytes(&self, compress: bool) -> (r: Vec<u8>)
        ensures
            r@ == g1_bytes(g1_log(*self), compress),
            r@.len() == g1_enc_len(compress),
    {
        let mut buf = Vec::new();
        if compress {
            self.inner.serialize_compressed(&mut buf).unwrap();
        } else {
            self.inner.serialize_uncompressed(&mut buf).unwrap();
        }
        buf
    }

    /// Relies on `ark_serialize::CanonicalDeserialize` with validation,
    /// `Affine::is_on_curve` and `ark_serialize::CanonicalSerialize` for
    /// affine points.  The crate's reader alone is lenient: it returns the
    /// zero point for any input with the infinity flag set without checking
    /// the remaining bits, and its uncompressed path builds the point without
    /// an on-curve check.  The body therefore accepts an input only if the
    /// parsed point is on the curve (the reader already checks the subgroup)
    /// and re-serializes to exactly the input, so a successful parse returns
    /// the unique subgroup point whose canonical encoding the input is.
    #[verifier::external_body]
    pub fn from_bytes(bytes: &[u8], compress: bool) -> (r: Option<G1Affine>)
        requires
            bytes@.len() == g1_enc_len(compress),
        ensures
            r matches Some(p) ==> bytes@ == g1_bytes(g1_log(p), compress) && 0 <= g1_log(p)
                < fr_order(),
            r matches Some(p) ==> forall|w: int|
                0 <= w < fr_order() && g1_bytes(w, compress) == bytes@ ==> w == g1_log(p),
            (exists|w: int| 0 <= w < fr_order() && bytes@ == g1_bytes(w, compress)) ==> r is Some,
    {
        let inner = if compress {
            ark_bls12_381::G1Affine::deserialize_compressed(bytes).ok()?
        } else {
            ark_bls12_381::G1Affine::deserialize_uncompressed(bytes).ok()?
        };
        let mut reenc = Vec::new();
        if compress {
            inner.serialize_compressed(&mut reenc).unwrap();
        } else {
            inner.serialize_uncompressed(&mut reenc).unwrap();
        }
        (inner.is_on_curve() && reenc.as_slice() == bytes).then_some(G1Affine { inner })
    }

    /// Relies on `PartialEq` of affine points: two points of the prime-order
    /// group are equal exactly when their logarithms are.
    #[verifier::external_body]
    pub fn eq_val(&self, other: &G1Affine) -> (r: bool)
        ensures
            r == (g1_log(*self) == g1_log(*other)),
    {
        self.inner == other.inner
    }
}

impl G2Affine {
    /// Relies on `ark_ec::AffineRepr::zero`: the point at infinity.
    #[verifier::external_body]
    pub fn zero() -> (r: G2Affine)
        ensures
            g2_log(r) == 0,
    {
        G2Affine { inner: ark_bls12_381::G2Affine::zero() }
    }

    /// Relies on `ark_std::UniformRand::rand` for the group: some point of the
    /// prime-order group; nothing is promised about which one.
    #[verifier::external_body]
    pub fn rand(rng: &mut RandSource) -> (r: G2Affine)
        ensures
            0 <= g2_log(r) < fr_order(),
    {
        G2Affine { inner: ark_bls12_381::G2Projective::rand(&mut rng.inner).into_affine() }
    }

    /// Relies on the curve group law of `ark_ec::short_weierstrass::Affine`:
    /// logarithms add modulo the group order.
    #[verifier::external_body]
    pub fn add(&self, other: &G2Affine) -> (r: G2Affine)
        ensures
            g2_log(r) == (g2_log(*self) + g2_log(*other)) % fr_order(),
    {
        G2Affine { inner: (self.inner + other.inner).into_affine() }
    }

    /// Relies on curve point negation: the logarithm is negated modulo the
    /// group order.
    #[verifier::external_body]
    pub fn neg(&self) -> (r: G2Affine)
        ensures
            g2_log(r) == (-g2_log(*self)) % fr_order(),
    {
        G2Affine { inner: -self.inner }
    }

    /// Relies on scalar multiplication of `ark_ec::short_weierstrass::Affine`
    /// (its `Mul` by a scalar field element): the logarithm is multiplied by
    /// the scalar's residue, modulo the group order.
    #[verifier::external_body]
    pub fn mul(&self, s: &Scalar) -> (r: G2Affine)
        ensures
            g2_log(r) == (g2_log(*self) * fr_val(*s)) % fr_order(),
    {
        G2Affine { inner: self.inner.mul(s.inner).into_affine() }
    }

    /// Relies on `ark_serialize::CanonicalSerialize` for affine points: the
    /// canonical encoding of the given mode, a function of the point alone.
    #[verifier::external_body]
    pub fn to_bytes(&self, compress: bool) -> (r: Vec<u8>)
        ensures
            r@ == g2_bytes(g2_log(*self), compress),
            r@.len() == g2_enc_len(compress),
    {
        let mut buf = Vec::new();
        if compress {
            self.inner.serialize_compressed(&mut buf).unwrap();
        } else {
            self.inner.serialize_uncompressed(&mut buf).unwrap();
        }
        buf
    }

    /// Relies on `ark_serialize::CanonicalDeserialize` with validation,
    /// `Affine::is_on_curve` and `ark_serialize::CanonicalSerialize` for
    /// affine points.  The crate's reader alone is lenient: it returns the
    /// zero point for any input with the infinity flag set without checking
    /// the remaining bits, and its uncompressed path builds the point without
    /// an on-curve check.  The body therefore accepts an input only if the
    /// parsed point is on the curve (the reader already checks the subgroup)
    /// and re-serializes to exactly the input, so a successful parse returns
    /// the unique subgroup point whose canonical encoding the input is.
    #[verifier::external_body]
    pub fn from_bytes(bytes: &[u8], compress: bool) -> (r: Option<G2Affine>)
        requires
            bytes@.len() == g2_enc_len(compress),
        ensures
            r matches Some(p) ==> bytes@ == g2_bytes(g2_log(p), compress) && 0 <= g2_log(p)
                < fr_order(),
            r matches Some(p) ==> forall|w: int|
                0 <= w < fr_order() && g2_bytes(w, compress) == bytes@ ==> w == g2_log(p),
            (exists|w: int| 0 <= w < fr_order() && bytes@ == g2_bytes(w, compress)) ==> r is Some,
    {
        let inner = if compress {
            ark_bls12_381::G2Affine::deserialize_compressed(bytes).ok()?
        } else {
            ark_bls12_381::G2Affine::deserialize_uncompressed(bytes).ok()?
        };
        let mut reenc = Vec::new();
        if compress {
            inner.serialize_compressed(&mut reenc).unwrap();
        } else {
            inner.serialize_uncompressed(&mut reenc).unwrap();
        }
        (inner.is_on_curve() && reenc.as_slice() == bytes).then_some(G2Affine { inner })
    }

    /// Relies on `PartialEq` of affine points: two points of the prime-order
    /// group are equal exactly when their logarithms are.
    #[verifier::external_body]
    pub fn eq_val(&self, other: &G2Affine) -> (r: bool)
        ensures
            r == (g2_log(*self) == g2_log(*other)),
    {
        self.inner == other.inner
    }
}

impl Gt {
    /// Relies on `ark_std::Zero::zero` for `ark_ec::pairing::PairingOutput`:
    /// the identity of the target group.
    #[verifier::external_body]
    pub fn zero() -> (r: Gt)
        ensures
            gt_log(r) == 0,
    {
        Gt { inner: ark_ec::pairing::PairingOutput::zero() }
    }

    /// Relies on `ark_std::UniformRand::rand` for the target group, which
    /// samples the pairing of two random points and so stays in the
    /// prime-order group; nothing is promised about which element comes out.
    #[verifier::external_body]
    pub fn rand(rng: &mut RandSource) -> (r: Gt)
        ensures
            0 <= gt_log(r) < fr_order(),
    {
        Gt { inner: ark_ec::pairing::PairingOutput::rand(&mut rng.inner) }
    }

    /// Relies on the group law of `ark_ec::pairing::PairingOutput`:
    /// logarithms add modulo the group order.
    #[verifier::external_body]
    pub fn add(&self, other: &Gt) -> (r: Gt)
        ensures
            gt_log(r) == (gt_log(*self) + gt_log(*other)) % fr_order(),
    {
        Gt { inner: self.inner + other.inner }
    }

    /// Relies on negation of `ark_ec::pairing::PairingOutput`: the logarithm
    /// is negated modulo the group order.
    #[verifier::external_body]
    pub fn neg(&self) -> (r: Gt)
        ensures
            gt_log(r) == (-gt_log(*self)) % fr_order(),
    {
        Gt { inner: -self.inner }
    }

    /// Relies on `ark_serialize::CanonicalSerialize` for the target group:
    /// the canonical 576-byte encoding, a function of the element alone and
    /// identical in both modes.
    #[verifier::external_body]
    pub fn to_bytes(&self) -> (r: Vec<u8>)
        ensures
            r@ == gt_bytes(gt_log(*self)),
            r@.len() == 576,
    {
        let mut buf = Vec::new();
        self.inner.serialize_compressed(&mut buf).unwrap();
        buf
    }

    /// Relies on `ark_serialize::CanonicalDeserialize` for the target group:
    /// exactly the canonical encodings are accepted, each for one element.
    #[verifier::external_body]
    pub fn from_bytes(bytes: &[u8]) -> (r: Option<Gt>)
        requires
            bytes@.len() == 576,
        ensures
            r matches Some(t) ==> bytes@ == gt_bytes(gt_log(t)) && 0 <= gt_log(t) < fr_order(),
            r matches Some(t) ==> forall|w: int|
                0 <= w < fr_order() && gt_bytes(w) == bytes@ ==> w == gt_log(t),
            (exists|w: int| 0 <= w < fr_order() && bytes@ == gt_bytes(w)) ==> r is Some,
    {
        match ark_ec::pairing::PairingOutput::deserialize_compressed(bytes) {
            Ok(inner) => Some(Gt { inner }),
            Err(_) => None,
        }
    }

    /// The difference of two target-group elements.
    pub fn sub(&self, other: &Gt) -> (r: Gt)
        ensures
            gt_log(r) == (gt_log(*self) + (-gt_log(*other)) % fr_order()) % fr_order(),
    {
        let n = other.neg();
        self.add(&n)
    }

    /// Relies on `PartialEq` of `ark_ec::pairing::PairingOutput`: two elements
    /// of the prime-order group are equal exactly when their logarithms are.
    #[verifier::external_body]
    pub fn eq_val(&self, other: &Gt) -> (r: bool)
        ensures
            r == (gt_log(*self) == gt_log(*other)),
    {
        self.inner == other.inner
    }

    /// Relies on `ark_ec::pairing::Pairing::pairing` of `Bls12_381`: the
    /// pairing is bilinear, so the logarithm of the result is the product of
    /// the logarithms of the arguments, modulo the group order.
    #[verifier::external_body]
    pub fn pairing(x: &G1Affine, y: &G2Affine) -> (r: Gt)
        ensures
            gt_log(r) == (g1_log(*x) * g2_log(*y)) % fr_order(),
    {
        Gt { inner: ark_bls12_381::Bls12_381::pairing(x.inner, y.inner) }
    }

    /// Relies on `ark_ec::pairing::Pairing::multi_pairing` of `Bls12_381`:
    /// one batched Miller loop computing the product of the pairwise pairings,
    /// whose logarithm is the sum of the pairwise log products.
    #[verifier::external_body]
    pub fn multi_pairing(xs: &Vec<G1Affine>, ys: &Vec<G2Affine>) -> (r: Gt)
        requires
            xs@.len() == ys@.len(),
        ensures
            gt_log(r) == pair_fold(
                xs@.map_values(|p: G1Affine| g1_log(p)),
                ys@.map_values(|q: G2Affine| g2_log(q)),
            ),
    {
        Gt {
            inner: ark_bls12_381::Bls12_381::multi_pairing(
                xs.iter().map(|x| x.inner),
                ys.iter().map(|y| y.inner),
            ),
        }
    }
}

impl RandSource {
    /// Relies on `rand::SeedableRng::seed_from_u64` for `StdRng`: a
    /// deterministic random source for the given seed.
    #[verifier::external_body]
    pub fn from_seed(seed: u64) -> (r: RandSource)
    {
        RandSource { inner: ark_std::rand::rngs::StdRng::seed_from_u64(seed) }
    }
}

} // verus!
