//! Target commitment group of the SXDH instantiation: a 2-by-2 matrix of
//! pairing-target elements, built as the full bilinear cross-product of a
//! [`Com1`] and a [`Com2`], with the four equation-specific linear maps.

use crate::adapter::fr_order;
use crate::adapter::fr_val;
use crate::adapter::g1_log;
use crate::adapter::g2_log;
use crate::adapter::gt_log;
use crate::adapter::pair_fold;
use crate::adapter::G1Affine;
use crate::adapter::G2Affine;
use crate::adapter::Gt;
use crate::adapter::RandSource;
use crate::adapter::Scalar;
use crate::com::Com1;
use crate::com::Com2;
use crate::data_structures::lemma_madd_wf;
use crate::data_structures::lemma_mscale_one;
use crate::data_structures::lemma_msum_step;
use crate::data_structures::madd;
use crate::data_structures::mneg;
use crate::data_structures::mscale;
use crate::data_structures::msum;
use crate::data_structures::mwf;
use crate::data_structures::mzero;
use crate::data_structures::Element;
use crate::data_structures::BT;
use crate::matrix::Matrix;
use vstd::prelude::*;

verus! {

/// The model of the full bilinear cross-product of two pairs: each output
/// cell is the product of one logarithm of each side.
#[verifier::opaque]
pub open spec fn pairing_model(xm: Seq<int>, ym: Seq<int>) -> Seq<int> {
    seq![
        (xm[0] * ym[0]) % fr_order(),
        (xm[0] * ym[1]) % fr_order(),
        (xm[1] * ym[0]) % fr_order(),
        (xm[1] * ym[1]) % fr_order(),
    ]
}

/// The models of a list of first-group pairs.
pub open spec fn c1_models(v: Seq<Com1>) -> Seq<Seq<int>> {
    v.map_values(|c: Com1| c.model())
}

/// The models of a list of second-group pairs.
pub open spec fn c2_models(v: Seq<Com2>) -> Seq<Seq<int>> {
    v.map_values(|c: Com2| c.model())
}

/// First components of a list of models.
pub open spec fn col0(ms: Seq<Seq<int>>) -> Seq<int> {
    ms.map_values(|m: Seq<int>| m[0])
}

/// Second components of a list of models.
pub open spec fn col1(ms: Seq<Seq<int>>) -> Seq<int> {
    ms.map_values(|m: Seq<int>| m[1])
}

/// The model of a batched pairing of two parallel lists: each output cell is
/// one multi-pairing of a component column of each side.
#[verifier::opaque]
pub open spec fn ps_model(xms: Seq<Seq<int>>, yms: Seq<Seq<int>>) -> Seq<int> {
    seq![
        pair_fold(col0(xms), col0(yms)),
        pair_fold(col0(xms), col1(yms)),
        pair_fold(col1(xms), col0(yms)),
        pair_fold(col1(xms), col1(yms)),
    ]
}

/// Element of the target commitment group, read as the 2-by-2 matrix
/// `[[t0, t1], [t2, t3]]`.
pub struct ComT(pub Gt, pub Gt, pub Gt, pub Gt);

impl Element for ComT {
    open spec fn width() -> nat {
        4
    }

    open spec fn model(self) -> Seq<int> {
        seq![gt_log(self.0), gt_log(self.1), gt_log(self.2), gt_log(self.3)]
    }

    proof fn model_width(self) {
    }

    fn eq_elem(&self, other: &Self) -> (r: bool) {
        let r0 = self.0.eq_val(&other.0);
        let r1 = self.1.eq_val(&other.1);
        let r2 = self.2.eq_val(&other.2);
        let r3 = self.3.eq_val(&other.3);
        proof {
            if gt_log(self.0) == gt_log(other.0) && gt_log(self.1) == gt_log(other.1) && gt_log(
                self.2,
            ) == gt_log(other.2) && gt_log(self.3) == gt_log(other.3) {
                assert(self.model() =~= other.model());
            } else if gt_log(self.0) != gt_log(other.0) {
                assert(self.model()[0] != other.model()[0]);
            } else if gt_log(self.1) != gt_log(other.1) {
                assert(self.model()[1] != other.model()[1]);
            } else if gt_log(self.2) != gt_log(other.2) {
                assert(self.model()[2] != other.model()[2]);
            } else {
                assert(self.model()[3] != other.model()[3]);
            }
        }
        r0 && r1 && r2 && r3
    }
}

impl Clone for ComT {
    fn clone(&self) -> (r: ComT)
        ensures
            r == *self,
    {
        ComT(self.0, self.1, self.2, self.3)
    }
}

impl Copy for ComT {

}

impl PartialEq for ComT {
    fn eq(&self, other: &ComT) -> (r: bool) {
        self.eq_elem(other)
    }
}

impl vstd::std_specs::cmp::PartialEqSpecImpl for ComT {
    open spec fn obeys_eq_spec() -> bool {
        true
    }

    open spec fn eq_spec(&self, other: &ComT) -> bool {
        self.model() == other.model()
    }
}

impl BT<Com1, Com2> for ComT {
    fn pairing(x: Com1, y: Com2) -> Self {
        ComT::pairing(x, y)
    }
}

impl ComT {
    /// All four cells carry reduced logarithms.
    pub open spec fn wf(self) -> bool {
        mwf(self.model())
    }

    /// The full bilinear cross-product of two commitment-group pairs.
    pub fn pairing(x: Com1, y: Com2) -> (r: ComT)
        ensures
            r.model() == pairing_model(x.model(), y.model()),
            r.wf(),
    {
        let r = ComT(
            Gt::pairing(&x.0, &y.0),
            Gt::pairing(&x.0, &y.1),
            Gt::pairing(&x.1, &y.0),
            Gt::pairing(&x.1, &y.1),
        );
        proof {
            reveal(pairing_model);
            assert(r.model() =~= pairing_model(x.model(), y.model()));
            assert forall|i: int| 0 <= i < 4 implies 0 <= #[trigger] r.model()[i]
                < fr_order() by {
                vstd::arithmetic::div_mod::lemma_mod_bound(
                    g1_log(x.0) * g2_log(y.0),
                    fr_order(),
                );
                vstd::arithmetic::div_mod::lemma_mod_bound(
                    g1_log(x.0) * g2_log(y.1),
                    fr_order(),
                );
                vstd::arithmetic::div_mod::lemma_mod_bound(
                    g1_log(x.1) * g2_log(y.0),
                    fr_order(),
                );
                vstd::arithmetic::div_mod::lemma_mod_bound(
                    g1_log(x.1) * g2_log(y.1),
                    fr_order(),
                );
            };
        }
        r
    }

    /// The same value for parallel lists, via one batched multi-pairing per
    /// output cell.
    pub fn pairing_sum(x_vec: &Vec<Com1>, y_vec: &Vec<Com2>) -> (r: ComT)
        requires
            x_vec@.len() == y_vec@.len(),
        ensures
            r.model() == ps_model(c1_models(x_vec@), c2_models(y_vec@)),
    {
        let n = x_vec.len();
        let mut x0: Vec<G1Affine> = Vec::new();
        let mut x1: Vec<G1Affine> = Vec::new();
        let mut y0: Vec<G2Affine> = Vec::new();
        let mut y1: Vec<G2Affine> = Vec::new();
        for i in 0..n
            invariant
                n == x_vec@.len(),
                n == y_vec@.len(),
                x0@.len() == i && x1@.len() == i && y0@.len() == i && y1@.len() == i,
                forall|a: int| 0 <= a < i ==> x0@[a] == (#[trigger] x_vec@[a]).0,
                forall|a: int| 0 <= a < i ==> x1@[a] == (#[trigger] x_vec@[a]).1,
                forall|a: int| 0 <= a < i ==> y0@[a] == (#[trigger] y_vec@[a]).0,
                forall|a: int| 0 <= a < i ==> y1@[a] == (#[trigger] y_vec@[a]).1,
        {
            let x = x_vec[i];
            let y = y_vec[i];
            x0.push(x.0);
            x1.push(x.1);
            y0.push(y.0);
            y1.push(y.1);
        }
        let r = ComT(
            Gt::multi_pairing(&x0, &y0),
            Gt::multi_pairing(&x0, &y1),
            Gt::multi_pairing(&x1, &y0),
            Gt::multi_pairing(&x1, &y1),
        );
        proof {
            reveal(ps_model);
            assert(x0@.map_values(|p: G1Affine| g1_log(p)) =~= col0(c1_models(x_vec@)));
            assert(x1@.map_values(|p: G1Affine| g1_log(p)) =~= col1(c1_models(x_vec@)));
            assert(y0@.map_values(|q: G2Affine| g2_log(q)) =~= col0(c2_models(y_vec@)));
            assert(y1@.map_values(|q: G2Affine| g2_log(q)) =~= col1(c2_models(y_vec@)));
            assert(r.model() =~= ps_model(c1_models(x_vec@), c2_models(y_vec@)));
        }
        r
    }

    /// The identity element.
    pub fn zero() -> (r: ComT)
        ensures
            r.model() == mzero(4),
    {
        let r = ComT(Gt::zero(), Gt::zero(), Gt::zero(), Gt::zero());
        proof {
            assert(r.model() =~= mzero(4));
        }
        r
    }

    /// Componentwise group law.
    pub fn add(&self, other: &ComT) -> (r: ComT)
        ensures
            r.model() == madd(self.model(), other.model()),
    {
        let r = ComT(
            self.0.add(&other.0),
            self.1.add(&other.1),
            self.2.add(&other.2),
            self.3.add(&other.3),
        );
        proof {
            assert(r.model() =~= madd(self.model(), other.model()));
        }
        r
    }

    /// Componentwise additive inverse.
    pub fn neg(&self) -> (r: ComT)
        ensures
            r.model() == mneg(self.model()),
    {
        let r = ComT(self.0.neg(), self.1.neg(), self.2.neg(), self.3.neg());
        proof {
            assert(r.model() =~= mneg(self.model()));
        }
        r
    }

    /// Componentwise difference.
    pub fn sub(&self, other: &ComT) -> (r: ComT)
        ensures
            r.model() == madd(self.model(), mneg(other.model())),
    {
        let n = other.neg();
        self.add(&n)
    }

    /// Whether all four cells are the identity.
    pub fn is_zero(&self) -> (r: bool)
        ensures
            r == (self.model() == mzero(4)),
    {
        let z = ComT::zero();
        self.eq_elem(&z)
    }

    /// A uniformly sampled element; nothing is promised about which one.
    pub fn rand(rng: &mut RandSource) -> (r: ComT)
        ensures
            r.wf(),
    {
        let r = ComT(Gt::rand(rng), Gt::rand(rng), Gt::rand(rng), Gt::rand(rng));
        proof {
            assert forall|i: int| 0 <= i < 4 implies 0 <= #[trigger] r.model()[i]
                < fr_order() by {
            };
        }
        r
    }

    /// Sum of all elements of the list, starting from zero.
    pub fn sum(v: &Vec<ComT>) -> (r: ComT)
        ensures
            r.model() == msum(v@.map_values(|c: ComT| c.model()), 4),
    {
        let n = v.len();
        let ghost models = v@.map_values(|c: ComT| c.model());
        let mut acc = ComT::zero();
        proof {
            assert(models.take(0) =~= Seq::<Seq<int>>::empty());
        }
        for i in 0..n
            invariant
                n == v@.len(),
                models == v@.map_values(|c: ComT| c.model()),
                acc.model() == msum(models.take(i as int), 4),
        {
            acc = acc.add(&v[i]);
            proof {
                lemma_msum_step(models, 4, i as int);
            }
        }
        proof {
            assert(models.take(n as int) =~= models);
        }
        acc
    }

    /// The four cells as a 2-by-2 matrix.
    pub fn as_matrix(&self) -> (r: Matrix<Gt>)
        ensures
            r.nrows() == 2,
            r.ncols() == 2,
            r.entry(0, 0) == self.0,
            r.entry(0, 1) == self.1,
            r.entry(1, 0) == self.2,
            r.entry(1, 1) == self.3,
    {
        Matrix::new(&[[self.0, self.1], [self.2, self.3]])
    }

    /// The four cells read out of a 2-by-2 matrix.
    pub fn from(mat: &Matrix<Gt>) -> (r: ComT)
        requires
            mat.nrows() == 2,
            mat.ncols() == 2,
        ensures
            r.0 == mat.entry(0, 0),
            r.1 == mat.entry(0, 1),
            r.2 == mat.entry(1, 0),
            r.3 == mat.entry(1, 1),
    {
        ComT(mat.get(0, 0), mat.get(0, 1), mat.get(1, 0), mat.get(1, 1))
    }

    /// How a pairing-product target maps into the group: alone in the last
    /// cell.
    #[allow(non_snake_case)]
    pub fn linear_map_PPE(z: &Gt) -> (r: ComT)
        ensures
            r.model() == seq![0int, 0int, 0int, gt_log(*z)],
    {
        let r = ComT(Gt::zero(), Gt::zero(), Gt::zero(), *z);
        proof {
            assert(r.model() =~= seq![0int, 0int, 0int, gt_log(*z)]);
        }
        r
    }

    /// How a `G1` target maps into the group: paired against the scalar
    /// commitment base built from `com2` and `p2`.
    #[allow(non_snake_case)]
    pub fn linear_map_MSMEG1(z: &G1Affine, com2: &Com2, p2: &G2Affine) -> (r: ComT)
        ensures
            r.model() == pairing_model(
                seq![0int, g1_log(*z)],
                madd(com2.model(), seq![0int, g2_log(*p2)]),
            ),
    {
        let one = Scalar::one();
        let lin = Com1::linear_map(z);
        let base = com2.scalar_linear_map(&one, p2);
        proof {
            lemma_madd_wf(com2.model(), seq![0int, g2_log(*p2)]);
            lemma_mscale_one(madd(com2.model(), seq![0int, g2_log(*p2)]));
        }
        ComT::pairing(lin, base)
    }

    /// How a `G2` target maps into the group: paired against the scalar
    /// commitment base built from `com1` and `p1`.
    #[allow(non_snake_case)]
    pub fn linear_map_MSMEG2(z: &G2Affine, com1: &Com1, p1: &G1Affine) -> (r: ComT)
        ensures
            r.model() == pairing_model(
                madd(com1.model(), seq![0int, g1_log(*p1)]),
                seq![0int, g2_log(*z)],
            ),
    {
        let one = Scalar::one();
        let base = com1.scalar_linear_map(&one, p1);
        let lin = Com2::linear_map(z);
        proof {
            lemma_madd_wf(com1.model(), seq![0int, g1_log(*p1)]);
            lemma_mscale_one(madd(com1.model(), seq![0int, g1_log(*p1)]));
        }
        ComT::pairing(base, lin)
    }

    /// How a scalar target maps into the group: the pairing of the two scalar
    /// commitment bases, one of them scaled by the target.
    pub fn linear_map_quad(
        z: &Scalar,
        com1: &Com1,
        p1: &G1Affine,
        com2: &Com2,
        p2: &G2Affine,
    ) -> (r: ComT)
        ensures
            r.model() == pairing_model(
                madd(com1.model(), seq![0int, g1_log(*p1)]),
                mscale(madd(com2.model(), seq![0int, g2_log(*p2)]), fr_val(*z)),
            ),
    {
        let one = Scalar::one();
        let base1 = com1.scalar_linear_map(&one, p1);
        let base2 = com2.scalar_linear_map(&one, p2);
        let scaled = base2.scalar_mul(z);
        proof {
            lemma_madd_wf(com1.model(), seq![0int, g1_log(*p1)]);
            lemma_mscale_one(madd(com1.model(), seq![0int, g1_log(*p1)]));
            lemma_madd_wf(com2.model(), seq![0int, g2_log(*p2)]);
            lemma_mscale_one(madd(com2.model(), seq![0int, g2_log(*p2)]));
        }
        ComT::pairing(base1, scaled)
    }
}

proof fn lemma_pair_fold_two(a1: int, a2: int, b1: int, b2: int)
    ensures
        pair_fold(seq![a1, a2], seq![b1, b2]) == ((a1 * b1) % fr_order() + (a2 * b2) % fr_order())
            % fr_order(),
{
    let s1 = seq![a1, a2];
    let s2 = seq![b1, b2];
    assert(s1.drop_last() =~= seq![a1]);
    assert(s2.drop_last() =~= seq![b1]);
    assert(seq![a1].drop_last() =~= Seq::<int>::empty());
    assert(seq![b1].drop_last() =~= Seq::<int>::empty());
    let p1 = a1 * b1;
    let p2 = a2 * b2;
    assert(pair_fold(Seq::<int>::empty(), Seq::<int>::empty()) == 0);
    assert(pair_fold(seq![a1], seq![b1]) == (0 + p1) % fr_order());
    assert(pair_fold(s1, s2) == (pair_fold(seq![a1], seq![b1]) + p2) % fr_order());
    vstd::arithmetic::div_mod::lemma_add_mod_noop(p1, p2, fr_order());
    vstd::arithmetic::div_mod::lemma_mod_twice(p1, fr_order());
    vstd::arithmetic::div_mod::lemma_small_mod(0nat, fr_order() as nat);
}

/// Law: a batched pairing of two parallel pairs is the sum of the two
/// pairings, cell by cell.  The left side is the model that
/// [`ComT::pairing_sum`] returns on the lists `[x1, x2]` and `[y1, y2]`; the
/// right side is the model of adding the two values of [`ComT::pairing`].
pub proof fn lemma_pairing_sum_pair(x1: Com1, x2: Com1, y1: Com2, y2: Com2)
    ensures
        ps_model(c1_models(seq![x1, x2]), c2_models(seq![y1, y2])) == madd(
            pairing_model(x1.model(), y1.model()),
            pairing_model(x2.model(), y2.model()),
        ),
{
    reveal(ps_model);
    reveal(pairing_model);
    lemma_pair_fold_two(g1_log(x1.0), g1_log(x2.0), g2_log(y1.0), g2_log(y2.0));
    lemma_pair_fold_two(g1_log(x1.0), g1_log(x2.0), g2_log(y1.1), g2_log(y2.1));
    lemma_pair_fold_two(g1_log(x1.1), g1_log(x2.1), g2_log(y1.0), g2_log(y2.0));
    lemma_pair_fold_two(g1_log(x1.1), g1_log(x2.1), g2_log(y1.1), g2_log(y2.1));
    assert(col0(c1_models(seq![x1, x2])) =~= seq![g1_log(x1.0), g1_log(x2.0)]);
    assert(col1(c1_models(seq![x1, x2])) =~= seq![g1_log(x1.1), g1_log(x2.1)]);
    assert(col0(c2_models(seq![y1, y2])) =~= seq![g2_log(y1.0), g2_log(y2.0)]);
    assert(col1(c2_models(seq![y1, y2])) =~= seq![g2_log(y1.1), g2_log(y2.1)]);
    assert(ps_model(c1_models(seq![x1, x2]), c2_models(seq![y1, y2])) =~= madd(
        pairing_model(x1.model(), y1.model()),
        pairing_model(x2.model(), y2.model()),
    ));
}

/// Law: pairing the zero-randomness embedding of the identity, or any pair
/// of the first group against the identity embedding of the second group,
/// gives the zero target value.
pub proof fn lemma_pairing_zero(x: Com1, y: Com2)
    ensures
        pairing_model(seq![0int, 0int], y.model()) == mzero(4),
        pairing_model(x.model(), seq![0int, 0int]) == mzero(4),
{
    reveal(pairing_model);
    let ym = y.model();
    let xm = x.model();
    assert(0int * ym[0] == 0 && 0int * ym[1] == 0);
    assert(xm[0] * 0int == 0 && xm[1] * 0int == 0);
    assert(0int % fr_order() == 0) by {
        vstd::arithmetic::div_mod::lemma_small_mod(0nat, fr_order() as nat);
    };
    assert(pairing_model(seq![0int, 0int], ym) =~= mzero(4));
    assert(pairing_model(xm, seq![0int, 0int]) =~= mzero(4));
}

} // verus!
