//! The abstract algebraic structure behind the commitment groups: every value
//! handled by the library is modelled as a short sequence of residues modulo
//! [`fr_order`], and every commitment-group kind is a module over the scalar
//! field through the same componentwise laws.

use crate::adapter::fr_order;
use crate::adapter::fr_val;
use crate::adapter::g1_log;
use crate::adapter::g2_log;
use crate::adapter::gt_log;
use crate::adapter::G1Affine;
use crate::adapter::G2Affine;
use crate::adapter::Gt;
use crate::adapter::RandSource;
use crate::adapter::Scalar;
use vstd::prelude::*;

verus! {

/// The all-zero model of the given width.
pub open spec fn mzero(w: nat) -> Seq<int> {
    Seq::new(w, |i: int| 0)
}

/// Componentwise sum modulo the group order.
pub open spec fn madd(a: Seq<int>, b: Seq<int>) -> Seq<int> {
    Seq::new(a.len(), |i: int| (a[i] + b[i]) % fr_order())
}

/// Componentwise additive inverse modulo the group order.
pub open spec fn mneg(a: Seq<int>) -> Seq<int> {
    Seq::new(a.len(), |i: int| (-a[i]) % fr_order())
}

/// Componentwise scaling modulo the group order.
pub open spec fn mscale(a: Seq<int>, s: int) -> Seq<int> {
    Seq::new(a.len(), |i: int| (a[i] * s) % fr_order())
}

/// A value kind with a fixed-width integer model and decidable equality of
/// models.
pub trait Element: Sized + Copy {
    /// How many residues model one value.
    spec fn width() -> nat;

    /// The integer model of this value.
    spec fn model(self) -> Seq<int>;

    /// Every model has exactly `width` entries.
    proof fn model_width(self)
        ensures
            self.model().len() == Self::width(),
    ;

    /// Equality of the integer models.
    fn eq_elem(&self, other: &Self) -> (r: bool)
        ensures
            r == (self.model() == other.model()),
    ;
}

/// An element kind that forms a module over the scalar field.
pub trait ModuleElem: Element {
    /// The identity element.
    fn zero() -> (r: Self)
        ensures
            r.model() == mzero(Self::width()),
    ;

    /// The group law, componentwise on models.
    fn add(&self, other: &Self) -> (r: Self)
        ensures
            r.model() == madd(self.model(), other.model()),
    ;

    /// The additive inverse, componentwise on models.
    fn neg(&self) -> (r: Self)
        ensures
            r.model() == mneg(self.model()),
    ;

    /// The scalar action, componentwise on models.
    fn scale(&self, s: &Scalar) -> (r: Self)
        ensures
            r.model() == mscale(self.model(), fr_val(*s)),
    ;

    /// A uniformly sampled element; nothing is promised about which one.
    fn rnd(rng: &mut RandSource) -> (r: Self)
        ensures
            r.model().len() == Self::width(),
    ;
}

/// First commitment group of a Groth-Sahai instantiation.
pub trait B1: ModuleElem {

}

/// Second commitment group of a Groth-Sahai instantiation.
pub trait B2: ModuleElem {

}

/// Target commitment group of a Groth-Sahai instantiation.
pub trait BT<C1: B1, C2: B2>: Element {
    /// The bilinear map from the two source commitment groups.
    fn pairing(x: C1, y: C2) -> Self;
}

impl PartialEq for Scalar {
    fn eq(&self, other: &Scalar) -> (r: bool) {
        self.eq_val(other)
    }
}

impl vstd::std_specs::cmp::PartialEqSpecImpl for Scalar {
    open spec fn obeys_eq_spec() -> bool {
        true
    }

    open spec fn eq_spec(&self, other: &Scalar) -> bool {
        fr_val(*self) == fr_val(*other)
    }
}

impl PartialEq for G1Affine {
    fn eq(&self, other: &G1Affine) -> (r: bool) {
        self.eq_val(other)
    }
}

impl vstd::std_specs::cmp::PartialEqSpecImpl for G1Affine {
    open spec fn obeys_eq_spec() -> bool {
        true
    }

    open spec fn eq_spec(&self, other: &G1Affine) -> bool {
        g1_log(*self) == g1_log(*other)
    }
}

impl PartialEq for G2Affine {
    fn eq(&self, other: &G2Affine) -> (r: bool) {
        self.eq_val(other)
    }
}

impl vstd::std_specs::cmp::PartialEqSpecImpl for G2Affine {
    open spec fn obeys_eq_spec() -> bool {
        true
    }

    open spec fn eq_spec(&self, other: &G2Affine) -> bool {
        g2_log(*self) == g2_log(*other)
    }
}

impl PartialEq for Gt {
    fn eq(&self, other: &Gt) -> (r: bool) {
        self.eq_val(other)
    }
}

impl vstd::std_specs::cmp::PartialEqSpecImpl for Gt {
    open spec fn obeys_eq_spec() -> bool {
        true
    }

    open spec fn eq_spec(&self, other: &Gt) -> bool {
        gt_log(*self) == gt_log(*other)
    }
}

impl Element for Scalar {
    open spec fn width() -> nat {
        1
    }

    open spec fn model(self) -> Seq<int> {
        seq![fr_val(self)]
    }

    proof fn model_width(self) {
    }

    fn eq_elem(&self, other: &Self) -> (r: bool) {
        let r = self.eq_val(other);
        proof {
            if fr_val(*self) == fr_val(*other) {
                assert(self.model() =~= other.model());
            } else {
                assert(self.model()[0] != other.model()[0]);
            }
        }
        r
    }
}

impl ModuleElem for Scalar {
    fn zero() -> (r: Self) {
        let r = Scalar::zero();
        proof {
            assert(r.model() =~= mzero(1));
        }
        r
    }

    fn add(&self, other: &Self) -> (r: Self) {
        let r = Scalar::add(self, other);
        proof {
            assert(r.model() =~= madd(self.model(), other.model()));
        }
        r
    }

    fn neg(&self) -> (r: Self) {
        let r = Scalar::neg(self);
        proof {
            assert(r.model() =~= mneg(self.model()));
        }
        r
    }

    fn scale(&self, s: &Scalar) -> (r: Self) {
        let r = Scalar::mul(self, s);
        proof {
            assert(r.model() =~= mscale(self.model(), fr_val(*s)));
        }
        r
    }

    fn rnd(rng: &mut RandSource) -> (r: Self) {
        Scalar::rand(rng)
    }
}

impl Element for G1Affine {
    open spec fn width() -> nat {
        1
    }

    open spec fn model(self) -> Seq<int> {
        seq![g1_log(self)]
    }

    proof fn model_width(self) {
    }

    fn eq_elem(&self, other: &Self) -> (r: bool) {
        let r = self.eq_val(other);
        proof {
            if g1_log(*self) == g1_log(*other) {
                assert(self.model() =~= other.model());
            } else {
                assert(self.model()[0] != other.model()[0]);
            }
        }
        r
    }
}

impl ModuleElem for G1Affine {
    fn zero() -> (r: Self) {
        let r = G1Affine::zero();
        proof {
            assert(r.model() =~= mzero(1));
        }
        r
    }

    fn add(&self, other: &Self) -> (r: Self) {
        let r = G1Affine::add(self, other);
        proof {
            assert(r.model() =~= madd(self.model(), other.model()));
        }
        r
    }

    fn neg(&self) -> (r: Self) {
        let r = G1Affine::neg(self);
        proof {
            assert(r.model() =~= mneg(self.model()));
        }
        r
    }

    fn scale(&self, s: &Scalar) -> (r: Self) {
        let r = G1Affine::mul(self, s);
        proof {
            assert(r.model() =~= mscale(self.model(), fr_val(*s)));
        }
        r
    }

    fn rnd(rng: &mut RandSource) -> (r: Self) {
        G1Affine::rand(rng)
    }
}

impl Element for G2Affine {
    open spec fn width() -> nat {
        1
    }

    open spec fn model(self) -> Seq<int> {
        seq![g2_log(self)]
    }

    proof fn model_width(self) {
    }

    fn eq_elem(&self, other: &Self) -> (r: bool) {
        let r = self.eq_val(other);
        proof {
            if g2_log(*self) == g2_log(*other) {
                assert(self.model() =~= other.model());
            } else {
                assert(self.model()[0] != other.model()[0]);
            }
        }
        r
    }
}

impl ModuleElem for G2Affine {
    fn zero() -> (r: Self) {
        let r = G2Affine::zero();
        proof {
            assert(r.model() =~= mzero(1));
        }
        r
    }

    fn add(&self, other: &Self) -> (r: Self) {
        let r = G2Affine::add(self, other);
        proof {
            assert(r.model() =~= madd(self.model(), other.model()));
        }
        r
    }

    fn neg(&self) -> (r: Self) {
        let r = G2Affine::neg(self);
        proof {
            assert(r.model() =~= mneg(self.model()));
        }
        r
    }

    fn scale(&self, s: &Scalar) -> (r: Self) {
        let r = G2Affine::mul(self, s);
        proof {
            assert(r.model() =~= mscale(self.model(), fr_val(*s)));
        }
        r
    }

    fn rnd(rng: &mut RandSource) -> (r: Self) {
        G2Affine::rand(rng)
    }
}

impl Element for Gt {
    open spec fn width() -> nat {
        1
    }

    open spec fn model(self) -> Seq<int> {
        seq![gt_log(self)]
    }

    proof fn model_width(self) {
    }

    fn eq_elem(&self, other: &Self) -> (r: bool) {
        let r = self.eq_val(other);
        proof {
            if gt_log(*self) == gt_log(*other) {
                assert(self.model() =~= other.model());
            } else {
                assert(self.model()[0] != other.model()[0]);
            }
        }
        r
    }
}

/// Sum of a sequence of models, folded from the left.
pub open spec fn msum(cells: Seq<Seq<int>>, w: nat) -> Seq<int>
    decreases cells.len(),
{
    if cells.len() == 0 {
        mzero(w)
    } else {
        madd(msum(cells.drop_last(), w), cells.last())
    }
}

pub proof fn lemma_msum_step(cells: Seq<Seq<int>>, w: nat, k: int)
    requires
        0 <= k < cells.len(),
    ensures
        msum(cells.take(k + 1), w) == madd(msum(cells.take(k), w), cells[k]),
{
    assert(cells.take(k + 1).drop_last() =~= cells.take(k));
    assert(cells.take(k + 1).last() == cells[k]);
}

/// Whether every entry of a model is a reduced residue.
pub open spec fn mwf(m: Seq<int>) -> bool {
    forall|i: int| 0 <= i < m.len() ==> 0 <= #[trigger] m[i] < fr_order()
}

/// Every componentwise sum is reduced.
pub proof fn lemma_madd_wf(a: Seq<int>, b: Seq<int>)
    ensures
        mwf(madd(a, b)),
{
    assert forall|i: int| 0 <= i < madd(a, b).len() implies 0 <= #[trigger] madd(a, b)[i]
        < fr_order() by {
        vstd::arithmetic::div_mod::lemma_mod_bound(a[i] + b[i], fr_order());
    };
}

/// Scaling by one returns any reduced model unchanged.
pub proof fn lemma_mscale_one(m: Seq<int>)
    requires
        mwf(m),
    ensures
        mscale(m, 1) =~= m,
{
    assert forall|i: int| 0 <= i < m.len() implies #[trigger] mscale(m, 1)[i] == m[i] by {
        assert(m[i] * 1 == m[i]);
        vstd::arithmetic::div_mod::lemma_small_mod(m[i] as nat, fr_order() as nat);
    };
}

/// The zero model is a left and right identity for `madd` on reduced models.
pub proof fn lemma_madd_zero(m: Seq<int>)
    requires
        mwf(m),
    ensures
        madd(mzero(m.len()), m) =~= m,
        madd(m, mzero(m.len())) =~= m,
{
    assert forall|i: int| 0 <= i < m.len() implies #[trigger] madd(mzero(m.len()), m)[i]
        == m[i] by {
        vstd::arithmetic::div_mod::lemma_small_mod(m[i] as nat, fr_order() as nat);
    };
    assert forall|i: int| 0 <= i < m.len() implies #[trigger] madd(m, mzero(m.len()))[i]
        == m[i] by {
        vstd::arithmetic::div_mod::lemma_small_mod(m[i] as nat, fr_order() as nat);
    };
}

/// Every model cancels with its `mneg` image.
pub proof fn lemma_madd_neg(m: Seq<int>)
    ensures
        madd(m, mneg(m)) =~= mzero(m.len()),
{
    assert forall|i: int| 0 <= i < m.len() implies #[trigger] madd(m, mneg(m))[i] == 0 by {
        vstd::arithmetic::div_mod::lemma_add_mod_noop_right(m[i], -m[i], fr_order());
        assert((m[i] + -m[i]) % fr_order() == 0);
    };
}

/// The scalar action distributes over `madd`.
pub proof fn lemma_mscale_distributes(a: Seq<int>, b: Seq<int>, s: int)
    requires
        a.len() == b.len(),
    ensures
        mscale(madd(a, b), s) =~= madd(mscale(a, s), mscale(b, s)),
{
    assert forall|i: int| 0 <= i < a.len() implies #[trigger] mscale(madd(a, b), s)[i] == madd(
        mscale(a, s),
        mscale(b, s),
    )[i] by {
        vstd::arithmetic::div_mod::lemma_mul_mod_noop_left(a[i] + b[i], s, fr_order());
        assert((a[i] + b[i]) * s == a[i] * s + b[i] * s) by (nonlinear_arith);
        vstd::arithmetic::div_mod::lemma_add_mod_noop(a[i] * s, b[i] * s, fr_order());
    };
}

/// Scaling by zero gives the zero model.
pub proof fn lemma_mscale_zero(m: Seq<int>)
    ensures
        mscale(m, 0) =~= mzero(m.len()),
{
    assert forall|i: int| 0 <= i < m.len() implies #[trigger] mscale(m, 0)[i] == 0 by {
        assert(m[i] * 0 == 0);
    };
}

} // verus!
