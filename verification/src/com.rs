//! The two source commitment groups of the SXDH instantiation: ordered pairs
//! of curve points with componentwise group laws, the linear-map embeddings,
//! and the scalar action.

use crate::adapter::fr_order;
use crate::adapter::fr_val;
use crate::adapter::g1_log;
use crate::adapter::g2_log;
use crate::adapter::G1Affine;
use crate::adapter::G2Affine;
use crate::adapter::RandSource;
use crate::adapter::Scalar;
use crate::data_structures::lemma_madd_neg;
use crate::data_structures::lemma_madd_zero;
use crate::data_structures::lemma_mscale_distributes;
use crate::data_structures::lemma_mscale_one;
use crate::data_structures::lemma_mscale_zero;
use crate::data_structures::lemma_msum_step;
use crate::data_structures::madd;
use crate::data_structures::mneg;
use crate::data_structures::mscale;
use crate::data_structures::msum;
use crate::data_structures::mwf;
use crate::data_structures::mzero;
use crate::data_structures::Element;
use crate::data_structures::ModuleElem;
use crate::data_structures::B1;
use crate::data_structures::B2;
use crate::matrix::vec_to_col_vec;
use crate::matrix::Matrix;
use vstd::prelude::*;

verus! {

/// Element of the first commitment group: an ordered pair of `G1` points.
pub struct Com1(pub G1Affine, pub G1Affine);

impl Element for Com1 {
    open spec fn width() -> nat {
        2
    }

    open spec fn model(self) -> Seq<int> {
        seq![g1_log(self.0), g1_log(self.1)]
    }

    proof fn model_width(self) {
    }

    fn eq_elem(&self, other: &Self) -> (r: bool) {
        let r0 = self.0.eq_val(&other.0);
        let r1 = self.1.eq_val(&other.1);
        proof {
            if g1_log(self.0) == g1_log(other.0) && g1_log(self.1) == g1_log(other.1) {
                assert(self.model() =~= other.model());
            } else if g1_log(self.0) != g1_log(other.0) {
                assert(self.model()[0] != other.model()[0]);
            } else {
                assert(self.model()[1] != other.model()[1]);
            }
        }
        r0 && r1
    }
}

impl Clone for Com1 {
    fn clone(&self) -> (r: Com1)
        ensures
            r == *self,
    {
        Com1(self.0, self.1)
    }
}

impl Copy for Com1 {

}

impl ModuleElem for Com1 {
    fn zero() -> (r: Self) {
        let r = Com1(G1Affine::zero(), G1Affine::zero());
        proof {
            assert(r.model() =~= mzero(2));
        }
        r
    }

    fn add(&self, other: &Self) -> (r: Self) {
        let r = Com1(self.0.add(&other.0), self.1.add(&other.1));
        proof {
            assert(r.model() =~= madd(self.model(), other.model()));
        }
        r
    }

    fn neg(&self) -> (r: Self) {
        let r = Com1(self.0.neg(), self.1.neg());
        proof {
            assert(r.model() =~= mneg(self.model()));
        }
        r
    }

    fn scale(&self, s: &Scalar) -> (r: Self) {
        self.scalar_mul(s)
    }

    fn rnd(rng: &mut RandSource) -> (r: Self) {
        Com1(G1Affine::rand(rng), G1Affine::rand(rng))
    }
}

impl B1 for Com1 {

}

impl PartialEq for Com1 {
    fn eq(&self, other: &Com1) -> (r: bool) {
        self.eq_elem(other)
    }
}

impl vstd::std_specs::cmp::PartialEqSpecImpl for Com1 {
    open spec fn obeys_eq_spec() -> bool {
        true
    }

    open spec fn eq_spec(&self, other: &Com1) -> bool {
        self.model() == other.model()
    }
}

impl Com1 {
    /// Both coordinates carry reduced logarithms.
    pub open spec fn wf(self) -> bool {
        mwf(self.model())
    }

    /// The pair `(x, y)`.
    pub fn new(x: G1Affine, y: G1Affine) -> (r: Com1)
        ensures
            r.0 == x,
            r.1 == y,
    {
        Com1(x, y)
    }

    /// The pair as a 2-by-1 matrix.
    pub fn as_col_vec(&self) -> (r: Matrix<G1Affine>)
        ensures
            r.nrows() == 2,
            r.ncols() == 1,
            r.entry(0, 0) == self.0,
            r.entry(1, 0) == self.1,
    {
        let v = vec![self.0, self.1];
        let r = vec_to_col_vec(&v);
        r
    }

    /// The pair as a 2-element vector.
    pub fn as_vec(&self) -> (r: Vec<G1Affine>)
        ensures
            r@ =~= seq![self.0, self.1],
    {
        vec![self.0, self.1]
    }

    /// Embed a bare group element with zero randomization: `(O, x)`.
    pub fn linear_map(x: &G1Affine) -> (r: Com1)
        ensures
            r.model() =~= seq![0int, g1_log(*x)],
            r.1 == *x,
    {
        let r = Com1(G1Affine::zero(), *x);
        proof {
            assert(r.model() =~= seq![0int, g1_log(*x)]);
        }
        r
    }

    /// Apply [`Com1::linear_map`] to every element of the list.
    pub fn batch_linear_map(x_vec: &Vec<G1Affine>) -> (r: Vec<Com1>)
        ensures
            r@.len() == x_vec@.len(),
            forall|i: int|
                0 <= i < x_vec@.len() ==> (#[trigger] r@[i]).model() == seq![
                    0int,
                    g1_log(x_vec@[i]),
                ],
    {
        let n = x_vec.len();
        let mut r: Vec<Com1> = Vec::new();
        for i in 0..n
            invariant
                n == x_vec@.len(),
                r@.len() == i,
                forall|a: int|
                    0 <= a < i ==> (#[trigger] r@[a]).model() == seq![0int, g1_log(x_vec@[a])],
        {
            r.push(Com1::linear_map(&x_vec[i]));
        }
        r
    }

    /// Embed a scalar witness tied to the public base point `p`:
    /// `(self + (O, p)) * x`.  Adding `p` before scaling is what preserves
    /// witness-indistinguishability for scalar witnesses.
    pub fn scalar_linear_map(&self, x: &Scalar, p: &G1Affine) -> (r: Com1)
        ensures
            r.model() == mscale(madd(self.model(), seq![0int, g1_log(*p)]), fr_val(*x)),
    {
        let lin = Com1::linear_map(p);
        let s = self.add(&lin);
        s.scalar_mul(x)
    }

    /// Apply [`Com1::scalar_linear_map`] to every scalar of the list.
    pub fn batch_scalar_linear_map(&self, x_vec: &Vec<Scalar>, p: &G1Affine) -> (r: Vec<Com1>)
        ensures
            r@.len() == x_vec@.len(),
            forall|i: int|
                0 <= i < x_vec@.len() ==> (#[trigger] r@[i]).model() == mscale(
                    madd(self.model(), seq![0int, g1_log(*p)]),
                    fr_val(x_vec@[i]),
                ),
    {
        let n = x_vec.len();
        let mut r: Vec<Com1> = Vec::new();
        for i in 0..n
            invariant
                n == x_vec@.len(),
                r@.len() == i,
                forall|a: int|
                    0 <= a < i ==> (#[trigger] r@[a]).model() == mscale(
                        madd(self.model(), seq![0int, g1_log(*p)]),
                        fr_val(x_vec@[a]),
                    ),
        {
            r.push(self.scalar_linear_map(&x_vec[i], p));
        }
        r
    }

    /// Scale both coordinates by the same scalar.
    pub fn scalar_mul(&self, rhs: &Scalar) -> (r: Com1)
        ensures
            r.model() == mscale(self.model(), fr_val(*rhs)),
    {
        let r = Com1(self.0.mul(rhs), self.1.mul(rhs));
        proof {
            assert(r.model() =~= mscale(self.model(), fr_val(*rhs)));
        }
        r
    }

    /// Componentwise difference.
    pub fn sub(&self, other: &Com1) -> (r: Com1)
        ensures
            r.model() == madd(self.model(), mneg(other.model())),
    {
        let n = other.neg();
        self.add(&n)
    }

    /// Whether both coordinates are the identity.
    pub fn is_zero(&self) -> (r: bool)
        ensures
            r == (self.model() == mzero(2)),
    {
        let z = <Com1 as ModuleElem>::zero();
        self.eq_elem(&z)
    }

    /// Sum of all elements of the list, starting from zero.
    pub fn sum(v: &Vec<Com1>) -> (r: Com1)
        ensures
            r.model() == msum(v@.map_values(|c: Com1| c.model()), 2),
    {
        let n = v.len();
        let ghost models = v@.map_values(|c: Com1| c.model());
        let mut acc = <Com1 as ModuleElem>::zero();
        proof {
            assert(models.take(0) =~= Seq::<Seq<int>>::empty());
        }
        for i in 0..n
            invariant
                n == v@.len(),
                models == v@.map_values(|c: Com1| c.model()),
                acc.model() == msum(models.take(i as int), 2),
        {
            acc = acc.add(&v[i]);
            proof {
                lemma_msum_step(models, 2, i as int);
            }
        }
        proof {
            assert(models.take(n as int) =~= models);
        }
        acc
    }

    /// The pair read out of a 2-by-1 matrix.
    pub fn from(mat: &Matrix<G1Affine>) -> (r: Com1)
        requires
            mat.nrows() == 2,
            mat.ncols() == 1,
        ensures
            r.0 == mat.entry(0, 0),
            r.1 == mat.entry(1, 0),
    {
        Com1(mat.get(0, 0), mat.get(1, 0))
    }
}

/// Law: the zero pair is the additive identity of the commitment group.
pub proof fn lemma_com1_zero_identity(a: Com1)
    requires
        a.wf(),
    ensures
        madd(mzero(2), a.model()) == a.model(),
        madd(a.model(), mzero(2)) == a.model(),
{
    lemma_madd_zero(a.model());
}

/// Law: every commitment-group element cancels with its negation.
pub proof fn lemma_com1_add_neg(a: Com1)
    ensures
        madd(a.model(), mneg(a.model())) == mzero(2),
{
    lemma_madd_neg(a.model());
}

/// Law: the scalar action distributes over addition, scaling by one is the
/// identity, and scaling by zero gives the zero element.
pub proof fn lemma_com1_scalar_mul_laws(a: Com1, b: Com1, s: Scalar)
    requires
        a.wf(),
    ensures
        mscale(madd(a.model(), b.model()), fr_val(s)) == madd(
            mscale(a.model(), fr_val(s)),
            mscale(b.model(), fr_val(s)),
        ),
        mscale(a.model(), 1) == a.model(),
        mscale(a.model(), 0) == mzero(2),
{
    lemma_mscale_distributes(a.model(), b.model(), fr_val(s));
    lemma_mscale_one(a.model());
    lemma_mscale_zero(a.model());
}

/// Element of the second commitment group: an ordered pair of `G2` points.
pub struct Com2(pub G2Affine, pub G2Affine);

impl Element for Com2 {
    open spec fn width() -> nat {
        2
    }

    open spec fn model(self) -> Seq<int> {
        seq![g2_log(self.0), g2_log(self.1)]
    }

    proof fn model_width(self) {
    }

    fn eq_elem(&self, other: &Self) -> (r: bool) {
        let r0 = self.0.eq_val(&other.0);
        let r1 = self.1.eq_val(&other.1);
        proof {
            if g2_log(self.0) == g2_log(other.0) && g2_log(self.1) == g2_log(other.1) {
                assert(self.model() =~= other.model());
            } else if g2_log(self.0) != g2_log(other.0) {
                assert(self.model()[0] != other.model()[0]);
            } else {
                assert(self.model()[1] != other.model()[1]);
            }
        }
        r0 && r1
    }
}

impl Clone for Com2 {
    fn clone(&self) -> (r: Com2)
        ensures
            r == *self,
    {
        Com2(self.0, self.1)
    }
}

impl Copy for Com2 {

}

impl ModuleElem for Com2 {
    fn zero() -> (r: Self) {
        let r = Com2(G2Affine::zero(), G2Affine::zero());
        proof {
            assert(r.model() =~= mzero(2));
        }
        r
    }

    fn add(&self, other: &Self) -> (r: Self) {
        let r = Com2(self.0.add(&other.0), self.1.add(&other.1));
        proof {
            assert(r.model() =~= madd(self.model(), other.model()));
        }
        r
    }

    fn neg(&self) -> (r: Self) {
        let r = Com2(self.0.neg(), self.1.neg());
        proof {
            assert(r.model() =~= mneg(self.model()));
        }
        r
    }

    fn scale(&self, s: &Scalar) -> (r: Self) {
        self.scalar_mul(s)
    }

    fn rnd(rng: &mut RandSource) -> (r: Self) {
        Com2(G2Affine::rand(rng), G2Affine::rand(rng))
    }
}

impl B2 for Com2 {

}

impl PartialEq for Com2 {
    fn eq(&self, other: &Com2) -> (r: bool) {
        self.eq_elem(other)
    }
}

impl vstd::std_specs::cmp::PartialEqSpecImpl for Com2 {
    open spec fn obeys_eq_spec() -> bool {
        true
    }

    open spec fn eq_spec(&self, other: &Com2) -> bool {
        self.model() == other.model()
    }
}

impl Com2 {
    /// Both coordinates carry reduced logarithms.
    pub open spec fn wf(self) -> bool {
        mwf(self.model())
    }

    /// The pair `(x, y)`.
    pub fn new(x: G2Affine, y: G2Affine) -> (r: Com2)
        ensures
            r.0 == x,
            r.1 == y,
    {
        Com2(x, y)
    }

    /// The pair as a 2-by-1 matrix.
    pub fn as_col_vec(&self) -> (r: Matrix<G2Affine>)
        ensures
            r.nrows() == 2,
            r.ncols() == 1,
            r.entry(0, 0) == self.0,
            r.entry(1, 0) == self.1,
    {
        let v = vec![self.0, self.1];
        let r = vec_to_col_vec(&v);
        r
    }

    /// The pair as a 2-element vector.
    pub fn as_vec(&self) -> (r: Vec<G2Affine>)
        ensures
            r@ =~= seq![self.0, self.1],
    {
        vec![self.0, self.1]
    }

    /// Embed a bare group element with zero randomization: `(O, x)`.
    pub fn linear_map(x: &G2Affine) -> (r: Com2)
        ensures
            r.model() =~= seq![0int, g2_log(*x)],
            r.1 == *x,
    {
        let r = Com2(G2Affine::zero(), *x);
        proof {
            assert(r.model() =~= seq![0int, g2_log(*x)]);
        }
        r
    }

    /// Apply [`Com2::linear_map`] to every element of the list.
    pub fn batch_linear_map(x_vec: &Vec<G2Affine>) -> (r: Vec<Com2>)
        ensures
            r@.len() == x_vec@.len(),
            forall|i: int|
                0 <= i < x_vec@.len() ==> (#[trigger] r@[i]).model() == seq![
                    0int,
                    g2_log(x_vec@[i]),
                ],
    {
        let n = x_vec.len();
        let mut r: Vec<Com2> = Vec::new();
        for i in 0..n
            invariant
                n == x_vec@.len(),
                r@.len() == i,
                forall|a: int|
                    0 <= a < i ==> (#[trigger] r@[a]).model() == seq![0int, g2_log(x_vec@[a])],
        {
            r.push(Com2::linear_map(&x_vec[i]));
        }
        r
    }

    /// Embed a scalar witness tied to the public base point `p`:
    /// `(self + (O, p)) * x`.  Adding `p` before scaling is what preserves
    /// witness-indistinguishability for scalar witnesses.
    pub fn scalar_linear_map(&self, x: &Scalar, p: &G2Affine) -> (r: Com2)
        ensures
            r.model() == mscale(madd(self.model(), seq![0int, g2_log(*p)]), fr_val(*x)),
    {
        let lin = Com2::linear_map(p);
        let s = self.add(&lin);
        s.scalar_mul(x)
    }

    /// Apply [`Com2::scalar_linear_map`] to every scalar of the list.
    pub fn batch_scalar_linear_map(&self, x_vec: &Vec<Scalar>, p: &G2Affine) -> (r: Vec<Com2>)
        ensures
            r@.len() == x_vec@.len(),
            forall|i: int|
                0 <= i < x_vec@.len() ==> (#[trigger] r@[i]).model() == mscale(
                    madd(self.model(), seq![0int, g2_log(*p)]),
                    fr_val(x_vec@[i]),
                ),
    {
        let n = x_vec.len();
        let mut r: Vec<Com2> = Vec::new();
        for i in 0..n
            invariant
                n == x_vec@.len(),
                r@.len() == i,
                forall|a: int|
                    0 <= a < i ==> (#[trigger] r@[a]).model() == mscale(
                        madd(self.model(), seq![0int, g2_log(*p)]),
                        fr_val(x_vec@[a]),
                    ),
        {
            r.push(self.scalar_linear_map(&x_vec[i], p));
        }
        r
    }

    /// Scale both coordinates by the same scalar.
    pub fn scalar_mul(&self, rhs: &Scalar) -> (r: Com2)
        ensures
            r.model() == mscale(self.model(), fr_val(*rhs)),
    {
        let r = Com2(self.0.mul(rhs), self.1.mul(rhs));
        proof {
            assert(r.model() =~= mscale(self.model(), fr_val(*rhs)));
        }
        r
    }

    /// Componentwise difference.
    pub fn sub(&self, other: &Com2) -> (r: Com2)
        ensures
            r.model() == madd(self.model(), mneg(other.model())),
    {
        let n = other.neg();
        self.add(&n)
    }

    /// Whether both coordinates are the identity.
    pub fn is_zero(&self) -> (r: bool)
        ensures
            r == (self.model() == mzero(2)),
    {
        let z = <Com2 as ModuleElem>::zero();
        self.eq_elem(&z)
    }

    /// Sum of all elements of the list, starting from zero.
    pub fn sum(v: &Vec<Com2>) -> (r: Com2)
        ensures
            r.model() == msum(v@.map_values(|c: Com2| c.model()), 2),
    {
        let n = v.len();
        let ghost models = v@.map_values(|c: Com2| c.model());
        let mut acc = <Com2 as ModuleElem>::zero();
        proof {
            assert(models.take(0) =~= Seq::<Seq<int>>::empty());
        }
        for i in 0..n
            invariant
                n == v@.len(),
                models == v@.map_values(|c: Com2| c.model()),
                acc.model() == msum(models.take(i as int), 2),
        {
            acc = acc.add(&v[i]);
            proof {
                lemma_msum_step(models, 2, i as int);
            }
        }
        proof {
            assert(models.take(n as int) =~= models);
        }
        acc
    }

    /// The pair read out of a 2-by-1 matrix.
    pub fn from(mat: &Matrix<G2Affine>) -> (r: Com2)
        requires
            mat.nrows() == 2,
            mat.ncols() == 1,
        ensures
            r.0 == mat.entry(0, 0),
            r.1 == mat.entry(1, 0),
    {
        Com2(mat.get(0, 0), mat.get(1, 0))
    }
}

/// Law: the zero pair is the additive identity of the commitment group.
pub proof fn lemma_com2_zero_identity(a: Com2)
    requires
        a.wf(),
    ensures
        madd(mzero(2), a.model()) == a.model(),
        madd(a.model(), mzero(2)) == a.model(),
{
    lemma_madd_zero(a.model());
}

/// Law: every commitment-group element cancels with its negation.
pub proof fn lemma_com2_add_neg(a: Com2)
    ensures
        madd(a.model(), mneg(a.model())) == mzero(2),
{
    lemma_madd_neg(a.model());
}

/// Law: the scalar action distributes over addition, scaling by one is the
/// identity, and scaling by zero gives the zero element.
pub proof fn lemma_com2_scalar_mul_laws(a: Com2, b: Com2, s: Scalar)
    requires
        a.wf(),
    ensures
        mscale(madd(a.model(), b.model()), fr_val(s)) == madd(
            mscale(a.model(), fr_val(s)),
            mscale(b.model(), fr_val(s)),
        ),
        mscale(a.model(), 1) == a.model(),
        mscale(a.model(), 0) == mzero(2),
{
    lemma_mscale_distributes(a.model(), b.model(), fr_val(s));
    lemma_mscale_one(a.model());
    lemma_mscale_zero(a.model());
}

} // verus!
