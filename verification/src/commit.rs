//! The commitment scheme: randomized commitments of group elements and of
//! scalars into the commitment groups, against the CRS bases.  Each commit
//! call returns both the public commitments and the private randomness used
//! to build them; the randomness is consumed later to construct a proof and
//! must never reach the verifier.

use crate::adapter::fr_val;
use crate::adapter::g1_log;
use crate::adapter::g2_log;
use crate::adapter::G1Affine;
use crate::adapter::G2Affine;
use crate::adapter::RandSource;
use crate::adapter::Scalar;
use crate::com::Com1;
use crate::com::Com2;
use crate::com_t::c1_models;
use crate::com_t::c2_models;
use crate::data_structures::madd;
use crate::data_structures::mscale;
use crate::data_structures::Element;
use crate::data_structures::ModuleElem;
use crate::generator::CRS;
use crate::matrix::col_vec_to_vec;
use crate::matrix::dot;
use crate::matrix::vec_to_col_vec;
use crate::matrix::Matrix;
use vstd::prelude::*;

verus! {

/// Commitments into the first commitment group, together with the private
/// randomness matrix that built them.
pub struct Commit1 {
    pub coms: Vec<Com1>,
    pub rand: Matrix<Scalar>,
}

impl PartialEq for Commit1 {
    fn eq(&self, other: &Commit1) -> (r: bool) {
        let n = self.coms.len();
        let on = other.coms.len();
        if n != on {
            proof {
                assert(c1_models(self.coms@).len() != c1_models(other.coms@).len());
            }
            return false;
        }
        for k in 0..n
            invariant
                n == self.coms@.len(),
                n == other.coms@.len(),
                forall|a: int|
                    0 <= a < k ==> (#[trigger] self.coms@[a].model()) == other.coms@[a].model(),
        {
            if !self.coms[k].eq_elem(&other.coms[k]) {
                proof {
                    assert(c1_models(self.coms@)[k as int] != c1_models(other.coms@)[k as int]);
                }
                return false;
            }
        }
        proof {
            assert(c1_models(self.coms@) =~= c1_models(other.coms@));
        }
        self.rand == other.rand
    }
}

impl vstd::std_specs::cmp::PartialEqSpecImpl for Commit1 {
    open spec fn obeys_eq_spec() -> bool {
        true
    }

    open spec fn eq_spec(&self, other: &Commit1) -> bool {
        &&& c1_models(self.coms@) == c1_models(other.coms@)
        &&& self.rand.nrows() == other.rand.nrows()
        &&& self.rand.ncols() == other.rand.ncols()
        &&& self.rand.flat_models() == other.rand.flat_models()
    }
}

/// Commit a single ``G1`` element into the first commitment group, drawing
/// two fresh randomizers: `lin(x) + BASE0 * r1 + BASE1 * r2`.
#[allow(non_snake_case)]
pub fn commit_G1(xvar: &G1Affine, key: &CRS, rng: &mut RandSource) -> (r: Commit1)
    requires
        key.wf(),
    ensures
        r.coms@.len() == 1,
        r.rand.nrows() == 1,
        r.rand.ncols() == 2,
        r.coms@[0].model() == madd(
            madd(
                seq![0int, g1_log(*xvar)],
                mscale(key.u@[0].model(), r.rand.cell(0, 0)[0]),
            ),
            mscale(key.u@[1].model(), r.rand.cell(0, 1)[0]),
        ),
{
    let r1 = Scalar::rand(rng);
    let r2 = Scalar::rand(rng);
    let lin = Com1::linear_map(xvar);
    let c = lin.add(&key.u[0].scalar_mul(&r1)).add(&key.u[1].scalar_mul(&r2));
    let rand = Matrix::new(&[[r1, r2]]);
    let r = Commit1 { coms: vec![c], rand };
    r
}

/// Commit every ``G1`` element of the list, drawing one fresh randomizer
/// row per element: the commitments are `lin(X) + R * u` for a random
/// matrix `R` with two columns.
#[allow(non_snake_case)]
pub fn batch_commit_G1(xvars: &Vec<G1Affine>, key: &CRS, rng: &mut RandSource) -> (r: Commit1)
    requires
        key.wf(),
    ensures
        r.coms@.len() == xvars@.len(),
        r.rand.nrows() == xvars@.len(),
        r.rand.ncols() == 2,
        forall|i: int|
            0 <= i < xvars@.len() ==> (#[trigger] r.coms@[i]).model() == madd(
                seq![0int, g1_log(xvars@[i])],
                dot(c1_models(key.u@), r.rand.svals_row(i), 2),
            ),
{
    let m = xvars.len();
    let big_r = Matrix::<Scalar>::rand(rng, m, 2);
    let linvec = Com1::batch_linear_map(xvars);
    let lin_x = vec_to_col_vec(&linvec);
    let base_col = vec_to_col_vec(&key.u);
    let randomizer = base_col.left_mul(&big_r);
    let coms = lin_x.add(&randomizer);
    let out = col_vec_to_vec(&coms);
    proof {
        assert(base_col.col_models(0) =~= c1_models(key.u@));
        assert forall|i: int| 0 <= i < xvars@.len() implies (#[trigger] out@[i]).model() == madd(
            seq![0int, g1_log(xvars@[i])],
            dot(c1_models(key.u@), big_r.svals_row(i), 2),
        ) by {
            assert(out@[i] == coms.entry(i, 0));
            assert(coms.cell(i, 0) == madd(lin_x.cell(i, 0), randomizer.cell(i, 0)));
            assert(lin_x.entry(i, 0) == linvec@[i]);
            assert(linvec@[i].model() == seq![0int, g1_log(xvars@[i])]);
            assert(randomizer.cell(i, 0) == dot(base_col.col_models(0), big_r.svals_row(i), 2));
        };
    }
    let r = Commit1 { coms: out, rand: big_r };
    r
}

/// Commit a single scalar into the first commitment group with one randomizer:
/// the scalar linear map against the CRS base, plus `BASE0 * r`.
#[allow(non_snake_case)]
pub fn commit_scalar_to_B1(scalar_xvar: &Scalar, key: &CRS, rng: &mut RandSource) -> (r:
    Commit1)
    requires
        key.wf(),
    ensures
        r.coms@.len() == 1,
        r.rand.nrows() == 1,
        r.rand.ncols() == 1,
        r.coms@[0].model() == madd(
            mscale(
                madd(key.u@[1].model(), seq![0int, g1_log(key.g1_gen)]),
                fr_val(*scalar_xvar),
            ),
            mscale(key.u@[0].model(), r.rand.cell(0, 0)[0]),
        ),
{
    let rr = Scalar::rand(rng);
    let slm = key.u[1].scalar_linear_map(scalar_xvar, &key.g1_gen);
    let c = slm.add(&key.u[0].scalar_mul(&rr));
    let rand = Matrix::new(&[[rr]]);
    let r = Commit1 { coms: vec![c], rand };
    r
}

/// Commit every scalar of the list with one fresh randomizer each.
#[allow(non_snake_case)]
pub fn batch_commit_scalar_to_B1(
    scalar_xvars: &Vec<Scalar>,
    key: &CRS,
    rng: &mut RandSource,
) -> (r: Commit1)
    requires
        key.wf(),
    ensures
        r.coms@.len() == scalar_xvars@.len(),
        r.rand.nrows() == scalar_xvars@.len(),
        r.rand.ncols() == 1,
        forall|i: int|
            0 <= i < scalar_xvars@.len() ==> (#[trigger] r.coms@[i]).model() == madd(
                mscale(
                    madd(key.u@[1].model(), seq![0int, g1_log(key.g1_gen)]),
                    fr_val(scalar_xvars@[i]),
                ),
                mscale(key.u@[0].model(), r.rand.cell(i, 0)[0]),
            ),
{
    let m = scalar_xvars.len();
    let rmat = Matrix::<Scalar>::rand(rng, m, 1);
    let mut coms: Vec<Com1> = Vec::new();
    for i in 0..m
        invariant
            m == scalar_xvars@.len(),
            key.wf(),
            rmat.nrows() == m,
            rmat.ncols() == 1,
            coms@.len() == i,
            forall|a: int|
                0 <= a < i ==> (#[trigger] coms@[a]).model() == madd(
                    mscale(
                        madd(key.u@[1].model(), seq![0int, g1_log(key.g1_gen)]),
                        fr_val(scalar_xvars@[a]),
                    ),
                    mscale(key.u@[0].model(), rmat.cell(a, 0)[0]),
                ),
    {
        let rr = rmat.get(i, 0);
        let slm = key.u[1].scalar_linear_map(&scalar_xvars[i], &key.g1_gen);
        let c = slm.add(&key.u[0].scalar_mul(&rr));
        coms.push(c);
    }
    let r = Commit1 { coms, rand: rmat };
    r
}

/// Commitments into the second commitment group, together with the private
/// randomness matrix that built them.
pub struct Commit2 {
    pub coms: Vec<Com2>,
    pub rand: Matrix<Scalar>,
}

impl PartialEq for Commit2 {
    fn eq(&self, other: &Commit2) -> (r: bool) {
        let n = self.coms.len();
        let on = other.coms.len();
        if n != on {
            proof {
                assert(c2_models(self.coms@).len() != c2_models(other.coms@).len());
            }
            return false;
        }
        for k in 0..n
            invariant
                n == self.coms@.len(),
                n == other.coms@.len(),
                forall|a: int|
                    0 <= a < k ==> (#[trigger] self.coms@[a].model()) == other.coms@[a].model(),
        {
            if !self.coms[k].eq_elem(&other.coms[k]) {
                proof {
                    assert(c2_models(self.coms@)[k as int] != c2_models(other.coms@)[k as int]);
                }
                return false;
            }
        }
        proof {
            assert(c2_models(self.coms@) =~= c2_models(other.coms@));
        }
        self.rand == other.rand
    }
}

impl vstd::std_specs::cmp::PartialEqSpecImpl for Commit2 {
    open spec fn obeys_eq_spec() -> bool {
        true
    }

    open spec fn eq_spec(&self, other: &Commit2) -> bool {
        &&& c2_models(self.coms@) == c2_models(other.coms@)
        &&& self.rand.nrows() == other.rand.nrows()
        &&& self.rand.ncols() == other.rand.ncols()
        &&& self.rand.flat_models() == other.rand.flat_models()
    }
}

/// Commit a single ``G2`` element into the second commitment group, drawing
/// two fresh randomizers: `lin(x) + BASE0 * r1 + BASE1 * r2`.
#[allow(non_snake_case)]
pub fn commit_G2(xvar: &G2Affine, key: &CRS, rng: &mut RandSource) -> (r: Commit2)
    requires
        key.wf(),
    ensures
        r.coms@.len() == 1,
        r.rand.nrows() == 1,
        r.rand.ncols() == 2,
        r.coms@[0].model() == madd(
            madd(
                seq![0int, g2_log(*xvar)],
                mscale(key.v@[0].model(), r.rand.cell(0, 0)[0]),
            ),
            mscale(key.v@[1].model(), r.rand.cell(0, 1)[0]),
        ),
{
    let r1 = Scalar::rand(rng);
    let r2 = Scalar::rand(rng);
    let lin = Com2::linear_map(xvar);
    let c = lin.add(&key.v[0].scalar_mul(&r1)).add(&key.v[1].scalar_mul(&r2));
    let rand = Matrix::new(&[[r1, r2]]);
    let r = Commit2 { coms: vec![c], rand };
    r
}

/// Commit every ``G2`` element of the list, drawing one fresh randomizer
/// row per element: the commitments are `lin(X) + R * v` for a random
/// matrix `R` with two columns.
#[allow(non_snake_case)]
pub fn batch_commit_G2(xvars: &Vec<G2Affine>, key: &CRS, rng: &mut RandSource) -> (r: Commit2)
    requires
        key.wf(),
    ensures
        r.coms@.len() == xvars@.len(),
        r.rand.nrows() == xvars@.len(),
        r.rand.ncols() == 2,
        forall|i: int|
            0 <= i < xvars@.len() ==> (#[trigger] r.coms@[i]).model() == madd(
                seq![0int, g2_log(xvars@[i])],
                dot(c2_models(key.v@), r.rand.svals_row(i), 2),
            ),
{
    let m = xvars.len();
    let big_r = Matrix::<Scalar>::rand(rng, m, 2);
    let linvec = Com2::batch_linear_map(xvars);
    let lin_x = vec_to_col_vec(&linvec);
    let base_col = vec_to_col_vec(&key.v);
    let randomizer = base_col.left_mul(&big_r);
    let coms = lin_x.add(&randomizer);
    let out = col_vec_to_vec(&coms);
    proof {
        assert(base_col.col_models(0) =~= c2_models(key.v@));
        assert forall|i: int| 0 <= i < xvars@.len() implies (#[trigger] out@[i]).model() == madd(
            seq![0int, g2_log(xvars@[i])],
            dot(c2_models(key.v@), big_r.svals_row(i), 2),
        ) by {
            assert(out@[i] == coms.entry(i, 0));
            assert(coms.cell(i, 0) == madd(lin_x.cell(i, 0), randomizer.cell(i, 0)));
            assert(lin_x.entry(i, 0) == linvec@[i]);
            assert(linvec@[i].model() == seq![0int, g2_log(xvars@[i])]);
            assert(randomizer.cell(i, 0) == dot(base_col.col_models(0), big_r.svals_row(i), 2));
        };
    }
    let r = Commit2 { coms: out, rand: big_r };
    r
}

/// Commit a single scalar into the second commitment group with one randomizer:
/// the scalar linear map against the CRS base, plus `BASE0 * r`.
#[allow(non_snake_case)]
pub fn commit_scalar_to_B2(scalar_xvar: &Scalar, key: &CRS, rng: &mut RandSource) -> (r:
    Commit2)
    requires
        key.wf(),
    ensures
        r.coms@.len() == 1,
        r.rand.nrows() == 1,
        r.rand.ncols() == 1,
        r.coms@[0].model() == madd(
            mscale(
                madd(key.v@[1].model(), seq![0int, g2_log(key.g2_gen)]),
                fr_val(*scalar_xvar),
            ),
            mscale(key.v@[0].model(), r.rand.cell(0, 0)[0]),
        ),
{
    let rr = Scalar::rand(rng);
    let slm = key.v[1].scalar_linear_map(scalar_xvar, &key.g2_gen);
    let c = slm.add(&key.v[0].scalar_mul(&rr));
    let rand = Matrix::new(&[[rr]]);
    let r = Commit2 { coms: vec![c], rand };
    r
}

/// Commit every scalar of the list with one fresh randomizer each.
#[allow(non_snake_case)]
pub fn batch_commit_scalar_to_B2(
    scalar_xvars: &Vec<Scalar>,
    key: &CRS,
    rng: &mut RandSource,
) -> (r: Commit2)
    requires
        key.wf(),
    ensures
        r.coms@.len() == scalar_xvars@.len(),
        r.rand.nrows() == scalar_xvars@.len(),
        r.rand.ncols() == 1,
        forall|i: int|
            0 <= i < scalar_xvars@.len() ==> (#[trigger] r.coms@[i]).model() == madd(
                mscale(
                    madd(key.v@[1].model(), seq![0int, g2_log(key.g2_gen)]),
                    fr_val(scalar_xvars@[i]),
                ),
                mscale(key.v@[0].model(), r.rand.cell(i, 0)[0]),
            ),
{
    let m = scalar_xvars.len();
    let rmat = Matrix::<Scalar>::rand(rng, m, 1);
    let mut coms: Vec<Com2> = Vec::new();
    for i in 0..m
        invariant
            m == scalar_xvars@.len(),
            key.wf(),
            rmat.nrows() == m,
            rmat.ncols() == 1,
            coms@.len() == i,
            forall|a: int|
                0 <= a < i ==> (#[trigger] coms@[a]).model() == madd(
                    mscale(
                        madd(key.v@[1].model(), seq![0int, g2_log(key.g2_gen)]),
                        fr_val(scalar_xvars@[a]),
                    ),
                    mscale(key.v@[0].model(), rmat.cell(a, 0)[0]),
                ),
    {
        let rr = rmat.get(i, 0);
        let slm = key.v[1].scalar_linear_map(&scalar_xvars[i], &key.g2_gen);
        let c = slm.add(&key.v[0].scalar_mul(&rr));
        coms.push(c);
    }
    let r = Commit2 { coms, rand: rmat };
    r
}

} // verus!
