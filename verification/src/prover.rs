//! Proof construction.  For each equation shape the proof is the commitment
//! randomness folded together with the coefficient matrix and the CRS bases:
//! exactly the noise that commitment randomization adds to the verification
//! identity, expressed back in the commitment groups so the verifier can
//! cancel it with public information only.
//!
//! A fresh scalar matrix is drawn on every call, so two proofs of the same
//! statement differ; what every outcome satisfies is the verifier's identity,
//! whose exact statement is the contract of the `verify` methods.

use crate::adapter::G1Affine;
use crate::adapter::G2Affine;
use crate::adapter::RandSource;
use crate::adapter::Scalar;
use crate::com::Com1;
use crate::com::Com2;
use crate::commit::Commit1;
use crate::commit::Commit2;
use crate::generator::CRS;
use crate::com_t::c1_models;
use crate::com_t::c2_models;
use crate::data_structures::madd;
use crate::data_structures::mneg;
use crate::data_structures::Element;
use crate::matrix::dot;
use crate::matrix::lemma_dims_nonneg;
use crate::matrix::lemma_dot_as_sdot;
use crate::matrix::sdot;
use crate::matrix::vec_to_col_vec;
use crate::matrix::Matrix;
use crate::adapter::g1_log;
use crate::adapter::g2_log;
use crate::verification::lin1_models;
use crate::verification::slin_models;
use crate::verification::lin2_models;
use crate::statement::EquProof;
use crate::statement::MSMEG1;
use crate::statement::MSMEG2;
use crate::statement::QuadEqu;
use crate::statement::PPE;
use vstd::prelude::*;

verus! {

/// The model of entry `k` of the pairing-product proof column `pi`, as the
/// prover builds it from the coefficient matrix, the two randomness
/// matrices `xr` and `yr`, the second-side CRS bases `v` and the internal
/// random matrix `t`: the transported second-side constants and witnesses,
/// the folded cross-randomness, and the masking term subtracted.
pub open spec fn ppe_pi_cell(
    equ: PPE,
    xr: Matrix<Scalar>,
    yr: Matrix<Scalar>,
    yvars: Seq<G2Affine>,
    v: Seq<Com2>,
    t: Seq<Seq<int>>,
    k: int,
) -> Seq<int> {
    let rtg = Seq::new(
        equ.gamma.ncols() as nat,
        |j: int| sdot(xr.svals_col(k), equ.gamma.svals_col(j)),
    );
    madd(
        madd(
            madd(
                dot(lin2_models(equ.b_consts@), xr.svals_col(k), 2),
                dot(lin2_models(yvars), rtg, 2),
            ),
            dot(c2_models(v), Seq::new(2, |l: int| sdot(rtg, yr.svals_col(l))), 2),
        ),
        mneg(dot(c2_models(v), Seq::new(2, |l: int| t[l][k]), 2)),
    )
}

/// The model of entry `k` of the pairing-product proof column `theta`.
pub open spec fn ppe_theta_cell(
    equ: PPE,
    xr: Matrix<Scalar>,
    yr: Matrix<Scalar>,
    xvars: Seq<G1Affine>,
    u: Seq<Com1>,
    t: Seq<Seq<int>>,
    k: int,
) -> Seq<int> {
    let sgt = Seq::new(
        equ.gamma.nrows() as nat,
        |i: int| sdot(yr.svals_col(k), equ.gamma.svals_row(i)),
    );
    madd(
        madd(
            dot(lin1_models(equ.a_consts@), yr.svals_col(k), 2),
            dot(lin1_models(xvars), sgt, 2),
        ),
        dot(c1_models(u), t[k], 2),
    )
}

impl PPE {
    /// Construct a proof from the witnesses, their commitment randomness and
    /// the CRS.
    #[verifier::rlimit(100)]
    pub fn prove(
        &self,
        xvars: &Vec<G1Affine>,
        yvars: &Vec<G2Affine>,
        xcoms: &Commit1,
        ycoms: &Commit2,
        crs: &CRS,
        rng: &mut RandSource,
    ) -> (r: EquProof)
        requires
            crs.wf(),
            self.gamma.nrows() == xvars@.len(),
            self.gamma.ncols() == yvars@.len(),
            self.a_consts@.len() == yvars@.len(),
            self.b_consts@.len() == xvars@.len(),
            xcoms.rand.nrows() == xvars@.len(),
            xcoms.rand.ncols() == 2,
            ycoms.rand.nrows() == yvars@.len(),
            ycoms.rand.ncols() == 2,
        ensures
            r.pi.nrows() == 2,
            r.pi.ncols() == 1,
            r.theta.nrows() == 2,
            r.theta.ncols() == 1,
            exists|t: Seq<Seq<int>>|
                t.len() == 2 && t[0].len() == 2 && t[1].len() == 2 && r.pi.cell(0, 0)
                    == ppe_pi_cell(*self, xcoms.rand, ycoms.rand, yvars@, crs.v@, t, 0)
                    && r.pi.cell(1, 0) == ppe_pi_cell(
                    *self,
                    xcoms.rand,
                    ycoms.rand,
                    yvars@,
                    crs.v@,
                    t,
                    1,
                ) && r.theta.cell(0, 0) == ppe_theta_cell(
                    *self,
                    xcoms.rand,
                    ycoms.rand,
                    xvars@,
                    crs.u@,
                    t,
                    0,
                ) && r.theta.cell(1, 0) == #[trigger] ppe_theta_cell(
                    *self,
                    xcoms.rand,
                    ycoms.rand,
                    xvars@,
                    crs.u@,
                    t,
                    1,
                ),
    {
        let t_mat = Matrix::<Scalar>::rand(rng, 2, 2);
        let r_t = xcoms.rand.transpose();
        let s_t = ycoms.rand.transpose();
        let u_col = vec_to_col_vec(&crs.u);
        let v_col = vec_to_col_vec(&crs.v);

        let lin_b_vec = Com2::batch_linear_map(&self.b_consts);
        let lin_b = vec_to_col_vec(&lin_b_vec);
        let lin_y_vec = Com2::batch_linear_map(yvars);
        let lin_y = vec_to_col_vec(&lin_y_vec);
        let pi1 = lin_b.left_mul(&r_t);
        let rt_gamma = r_t.right_mul(&self.gamma);
        let pi2 = lin_y.left_mul(&rt_gamma);
        let rt_gamma_s = rt_gamma.right_mul(&ycoms.rand);
        let pi3 = v_col.left_mul(&rt_gamma_s);
        let t_t = t_mat.transpose();
        let pi4 = v_col.left_mul(&t_t);
        let pi = pi1.add(&pi2).add(&pi3).add(&pi4.neg());

        let lin_a_vec = Com1::batch_linear_map(&self.a_consts);
        let lin_a = vec_to_col_vec(&lin_a_vec);
        let lin_x_vec = Com1::batch_linear_map(xvars);
        let lin_x = vec_to_col_vec(&lin_x_vec);
        let th1 = lin_a.left_mul(&s_t);
        let g_t = self.gamma.transpose();
        let st_gamma_t = s_t.right_mul(&g_t);
        let th2 = lin_x.left_mul(&st_gamma_t);
        let th3 = u_col.left_mul(&t_mat);
        let theta = th1.add(&th2).add(&th3);

        let r = EquProof { pi, theta };
        proof {
            let tv = t_mat.sval_rows();
            assert(tv.len() == 2 && tv[0].len() == 2 && tv[1].len() == 2);
            assert(lin_b.col_models(0) =~= lin2_models(self.b_consts@));
            assert(lin_y.col_models(0) =~= lin2_models(yvars@));
            assert(lin_a.col_models(0) =~= lin1_models(self.a_consts@));
            assert(lin_x.col_models(0) =~= lin1_models(xvars@));
            assert(v_col.col_models(0) =~= c2_models(crs.v@));
            assert(u_col.col_models(0) =~= c1_models(crs.u@));
            assert forall|a: int, b: int| 0 <= a < 2 && 0 <= b < xcoms.rand.nrows() implies
                #[trigger] r_t.entry(a, b) == xcoms.rand.entry(b, a) by {};
            assert forall|a: int, b: int| 0 <= a < 2 && 0 <= b < ycoms.rand.nrows() implies
                #[trigger] s_t.entry(a, b) == ycoms.rand.entry(b, a) by {};
            lemma_ppe_cell(
                *self, xcoms.rand, ycoms.rand, xvars@, yvars@, crs.u@, crs.v@, tv, r_t, s_t,
                rt_gamma, rt_gamma_s, t_mat, t_t, g_t, st_gamma_t, pi1, pi2, pi3, pi4, th1, th2,
                th3, r, 0,
            );
            lemma_ppe_cell(
                *self, xcoms.rand, ycoms.rand, xvars@, yvars@, crs.u@, crs.v@, tv, r_t, s_t,
                rt_gamma, rt_gamma_s, t_mat, t_t, g_t, st_gamma_t, pi1, pi2, pi3, pi4, th1, th2,
                th3, r, 1,
            );
        }
        r
    }
}

proof fn lemma_ppe_cell(
    equ: PPE,
    xr: Matrix<Scalar>,
    yr: Matrix<Scalar>,
    xvars: Seq<G1Affine>,
    yvars: Seq<G2Affine>,
    u: Seq<Com1>,
    v: Seq<Com2>,
    tv: Seq<Seq<int>>,
    r_t: Matrix<Scalar>,
    s_t: Matrix<Scalar>,
    rt_gamma: Matrix<Scalar>,
    rt_gamma_s: Matrix<Scalar>,
    t_mat: Matrix<Scalar>,
    t_t: Matrix<Scalar>,
    g_t: Matrix<Scalar>,
    st_gamma_t: Matrix<Scalar>,
    pi1: Matrix<Com2>,
    pi2: Matrix<Com2>,
    pi3: Matrix<Com2>,
    pi4: Matrix<Com2>,
    th1: Matrix<Com1>,
    th2: Matrix<Com1>,
    th3: Matrix<Com1>,
    r: EquProof,
    k: int,
)
    requires
        0 <= k < 2,
        equ.gamma.nrows() == xr.nrows(),
        equ.gamma.ncols() == yr.nrows(),
        xr.ncols() == 2,
        yr.ncols() == 2,
        r_t.nrows() == 2,
        r_t.ncols() == xr.nrows(),
        forall|a: int, b: int|
            0 <= a < 2 && 0 <= b < xr.nrows() ==> #[trigger] r_t.entry(a, b) == xr.entry(b, a),
        s_t.nrows() == 2,
        s_t.ncols() == yr.nrows(),
        forall|a: int, b: int|
            0 <= a < 2 && 0 <= b < yr.nrows() ==> #[trigger] s_t.entry(a, b) == yr.entry(b, a),
        rt_gamma.nrows() == 2,
        rt_gamma.ncols() == equ.gamma.ncols(),
        forall|a: int, b: int|
            0 <= a < 2 && 0 <= b < equ.gamma.ncols() ==> #[trigger] rt_gamma.cell(a, b) == dot(
                r_t.row_models(a),
                equ.gamma.svals_col(b),
                1,
            ),
        rt_gamma_s.nrows() == 2,
        rt_gamma_s.ncols() == 2,
        forall|a: int, b: int|
            0 <= a < 2 && 0 <= b < 2 ==> #[trigger] rt_gamma_s.cell(a, b) == dot(
                rt_gamma.row_models(a),
                yr.svals_col(b),
                1,
            ),
        t_mat.nrows() == 2,
        t_mat.ncols() == 2,
        tv == t_mat.sval_rows(),
        t_t.nrows() == 2,
        t_t.ncols() == 2,
        forall|a: int, b: int|
            0 <= a < 2 && 0 <= b < 2 ==> #[trigger] t_t.entry(a, b) == t_mat.entry(b, a),
        g_t.nrows() == equ.gamma.ncols(),
        g_t.ncols() == equ.gamma.nrows(),
        forall|a: int, b: int|
            0 <= a < equ.gamma.ncols() && 0 <= b < equ.gamma.nrows() ==> #[trigger] g_t.entry(
                a,
                b,
            ) == equ.gamma.entry(b, a),
        st_gamma_t.nrows() == 2,
        st_gamma_t.ncols() == equ.gamma.nrows(),
        forall|a: int, b: int|
            0 <= a < 2 && 0 <= b < equ.gamma.nrows() ==> #[trigger] st_gamma_t.cell(a, b) == dot(
                s_t.row_models(a),
                g_t.svals_col(b),
                1,
            ),
        forall|a: int|
            0 <= a < 2 ==> #[trigger] pi1.cell(a, 0) == dot(
                lin2_models(equ.b_consts@),
                r_t.svals_row(a),
                2,
            ),
        forall|a: int|
            0 <= a < 2 ==> #[trigger] pi2.cell(a, 0) == dot(
                lin2_models(yvars),
                rt_gamma.svals_row(a),
                2,
            ),
        forall|a: int|
            0 <= a < 2 ==> #[trigger] pi3.cell(a, 0) == dot(
                c2_models(v),
                rt_gamma_s.svals_row(a),
                2,
            ),
        forall|a: int|
            0 <= a < 2 ==> #[trigger] pi4.cell(a, 0) == dot(c2_models(v), t_t.svals_row(a), 2),
        forall|a: int|
            0 <= a < 2 ==> #[trigger] r.pi.cell(a, 0) == madd(
                madd(madd(pi1.cell(a, 0), pi2.cell(a, 0)), pi3.cell(a, 0)),
                mneg(pi4.cell(a, 0)),
            ),
        forall|a: int|
            0 <= a < 2 ==> #[trigger] th1.cell(a, 0) == dot(
                lin1_models(equ.a_consts@),
                s_t.svals_row(a),
                2,
            ),
        forall|a: int|
            0 <= a < 2 ==> #[trigger] th2.cell(a, 0) == dot(
                lin1_models(xvars),
                st_gamma_t.svals_row(a),
                2,
            ),
        forall|a: int|
            0 <= a < 2 ==> #[trigger] th3.cell(a, 0) == dot(c1_models(u), t_mat.svals_row(a), 2),
        forall|a: int|
            0 <= a < 2 ==> #[trigger] r.theta.cell(a, 0) == madd(
                madd(th1.cell(a, 0), th2.cell(a, 0)),
                th3.cell(a, 0),
            ),
    ensures
        r.pi.cell(k, 0) == ppe_pi_cell(equ, xr, yr, yvars, v, tv, k),
        r.theta.cell(k, 0) == ppe_theta_cell(equ, xr, yr, xvars, u, tv, k),
{
    lemma_dims_nonneg(equ.gamma);
    lemma_dims_nonneg(xr);
    lemma_dims_nonneg(yr);
    lemma_dims_nonneg(r_t);
    lemma_dims_nonneg(s_t);
    lemma_dims_nonneg(rt_gamma);
    lemma_dims_nonneg(rt_gamma_s);
    lemma_dims_nonneg(t_mat);
    lemma_dims_nonneg(t_t);
    lemma_dims_nonneg(g_t);
    lemma_dims_nonneg(st_gamma_t);
    let m = equ.gamma.nrows();
    let n = equ.gamma.ncols();
    assert forall|b: int| 0 <= b < xr.nrows() implies r_t.svals_row(k)[b] == xr.svals_col(
        k,
    )[b] by {
        assert(r_t.entry(k, b) == xr.entry(b, k));
    };
    assert(r_t.svals_row(k).len() == r_t.ncols());
    assert(xr.svals_col(k).len() == xr.nrows());
    assert(r_t.svals_row(k) =~= xr.svals_col(k));
    assert forall|b: int| 0 <= b < yr.nrows() implies s_t.svals_row(k)[b] == yr.svals_col(
        k,
    )[b] by {
        assert(s_t.entry(k, b) == yr.entry(b, k));
    };
    assert(s_t.svals_row(k) =~= yr.svals_col(k));
    let rtg = Seq::new(n as nat, |j: int| sdot(xr.svals_col(k), equ.gamma.svals_col(j)));
    assert forall|j: int| 0 <= j < n implies #[trigger] rt_gamma.svals_row(k)[j] == rtg[j] by {
        lemma_dot_as_sdot(r_t.row_models(k), equ.gamma.svals_col(j));
        assert(crate::com_t::col0(r_t.row_models(k)) =~= r_t.svals_row(k));
    };
    assert(rt_gamma.svals_row(k) =~= rtg);
    assert forall|l: int| 0 <= l < 2 implies #[trigger] rt_gamma_s.svals_row(k)[l] == sdot(
        rtg,
        yr.svals_col(l),
    ) by {
        lemma_dot_as_sdot(rt_gamma.row_models(k), yr.svals_col(l));
        assert(crate::com_t::col0(rt_gamma.row_models(k)) =~= rt_gamma.svals_row(k));
    };
    assert(rt_gamma_s.svals_row(k) =~= Seq::new(2, |l: int| sdot(rtg, yr.svals_col(l))));
    assert(t_t.svals_row(k) =~= Seq::new(2, |l: int| tv[l][k]));
    assert(t_mat.svals_row(k) =~= tv[k]);
    let sgt = Seq::new(m as nat, |i: int| sdot(yr.svals_col(k), equ.gamma.svals_row(i)));
    assert forall|i: int| 0 <= i < m implies #[trigger] st_gamma_t.svals_row(k)[i] == sgt[i] by {
        lemma_dot_as_sdot(s_t.row_models(k), g_t.svals_col(i));
        assert(crate::com_t::col0(s_t.row_models(k)) =~= s_t.svals_row(k));
        assert(g_t.svals_col(i) =~= equ.gamma.svals_row(i));
    };
    assert(st_gamma_t.svals_row(k) =~= sgt);
}

/// The model of entry `k` of the `G1` multi-scalar proof column `pi`: as in
/// the pairing-product case, with the second-side constants and witnesses
/// carried through the scalar embedding and only the first second-side base
/// randomized.
pub open spec fn msme1_pi_cell(
    equ: MSMEG1,
    xr: Matrix<Scalar>,
    yr: Matrix<Scalar>,
    ys: Seq<Scalar>,
    key: CRS,
    t: Seq<Seq<int>>,
    k: int,
) -> Seq<int> {
    let rtg = Seq::new(
        equ.gamma.ncols() as nat,
        |j: int| sdot(xr.svals_col(k), equ.gamma.svals_col(j)),
    );
    madd(
        madd(
            madd(
                dot(
                    slin_models(key.v@[1].model(), g2_log(key.g2_gen), equ.b_consts@),
                    xr.svals_col(k),
                    2,
                ),
                dot(slin_models(key.v@[1].model(), g2_log(key.g2_gen), ys), rtg, 2),
            ),
            dot(
                c2_models(seq![key.v@[0]]),
                Seq::new(1, |l: int| sdot(rtg, yr.svals_col(l))),
                2,
            ),
        ),
        mneg(dot(c2_models(seq![key.v@[0]]), Seq::new(1, |l: int| t[l][k]), 2)),
    )
}

/// The model of the single entry of the `G1` multi-scalar proof column
/// `theta`.
pub open spec fn msme1_theta_cell(
    equ: MSMEG1,
    xr: Matrix<Scalar>,
    yr: Matrix<Scalar>,
    xvars: Seq<G1Affine>,
    key: CRS,
    t: Seq<Seq<int>>,
    k: int,
) -> Seq<int> {
    let sgt = Seq::new(
        equ.gamma.nrows() as nat,
        |i: int| sdot(yr.svals_col(k), equ.gamma.svals_row(i)),
    );
    madd(
        madd(
            dot(lin1_models(equ.a_consts@), yr.svals_col(k), 2),
            dot(lin1_models(xvars), sgt, 2),
        ),
        dot(c1_models(key.u@), t[k], 2),
    )
}

impl MSMEG1 {
    /// Construct a proof from the witnesses, their commitment randomness and
    /// the CRS.
    pub fn prove(
        &self,
        xvars: &Vec<G1Affine>,
        scalar_yvars: &Vec<Scalar>,
        xcoms: &Commit1,
        ycoms: &Commit2,
        crs: &CRS,
        rng: &mut RandSource,
    ) -> (r: EquProof)
        requires
            crs.wf(),
            self.gamma.nrows() == xvars@.len(),
            self.gamma.ncols() == scalar_yvars@.len(),
            self.a_consts@.len() == scalar_yvars@.len(),
            self.b_consts@.len() == xvars@.len(),
            xcoms.rand.nrows() == xvars@.len(),
            xcoms.rand.ncols() == 2,
            ycoms.rand.nrows() == scalar_yvars@.len(),
            ycoms.rand.ncols() == 1,
        ensures
            r.pi.nrows() == 2,
            r.pi.ncols() == 1,
            r.theta.nrows() == 1,
            r.theta.ncols() == 1,
            exists|t: Seq<Seq<int>>|
                t.len() == 1 && t[0].len() == 2 && r.pi.cell(0, 0) == msme1_pi_cell(
                    *self,
                    xcoms.rand,
                    ycoms.rand,
                    scalar_yvars@,
                    *crs,
                    t,
                    0,
                ) && r.pi.cell(1, 0) == msme1_pi_cell(
                    *self,
                    xcoms.rand,
                    ycoms.rand,
                    scalar_yvars@,
                    *crs,
                    t,
                    1,
                ) && r.theta.cell(0, 0) == #[trigger] msme1_theta_cell(
                    *self,
                    xcoms.rand,
                    ycoms.rand,
                    xvars@,
                    *crs,
                    t,
                    0,
                ),
    {
        let t_mat = Matrix::<Scalar>::rand(rng, 1, 2);
        let r_t = xcoms.rand.transpose();
        let s_t = ycoms.rand.transpose();
        let u_col = vec_to_col_vec(&crs.u);
        let v0_col = vec_to_col_vec(&vec![crs.v[0]]);

        let slin_b_vec = crs.v[1].batch_scalar_linear_map(&self.b_consts, &crs.g2_gen);
        let slin_b = vec_to_col_vec(&slin_b_vec);
        let slin_y_vec = crs.v[1].batch_scalar_linear_map(scalar_yvars, &crs.g2_gen);
        let slin_y = vec_to_col_vec(&slin_y_vec);
        let pi1 = slin_b.left_mul(&r_t);
        let rt_gamma = r_t.right_mul(&self.gamma);
        let pi2 = slin_y.left_mul(&rt_gamma);
        let rt_gamma_s = rt_gamma.right_mul(&ycoms.rand);
        let pi3 = v0_col.left_mul(&rt_gamma_s);
        let t_t = t_mat.transpose();
        let pi4 = v0_col.left_mul(&t_t);
        let pi = pi1.add(&pi2).add(&pi3).add(&pi4.neg());

        let lin_a_vec = Com1::batch_linear_map(&self.a_consts);
        let lin_a = vec_to_col_vec(&lin_a_vec);
        let lin_x_vec = Com1::batch_linear_map(xvars);
        let lin_x = vec_to_col_vec(&lin_x_vec);
        let th1 = lin_a.left_mul(&s_t);
        let g_t = self.gamma.transpose();
        let st_gamma_t = s_t.right_mul(&g_t);
        let th2 = lin_x.left_mul(&st_gamma_t);
        let th3 = u_col.left_mul(&t_mat);
        let theta = th1.add(&th2).add(&th3);

        let r = EquProof { pi, theta };
        proof {
            let tv = t_mat.sval_rows();
            assert(tv.len() == 1 && tv[0].len() == 2);
            assert(slin_b.col_models(0) =~= slin_models(
                crs.v@[1].model(),
                g2_log(crs.g2_gen),
                self.b_consts@,
            ));
            assert(slin_y.col_models(0) =~= slin_models(
                crs.v@[1].model(),
                g2_log(crs.g2_gen),
                scalar_yvars@,
            ));
            assert(lin_a.col_models(0) =~= lin1_models(self.a_consts@));
            assert(lin_x.col_models(0) =~= lin1_models(xvars@));
            assert(v0_col.col_models(0) =~= c2_models(seq![crs.v@[0]]));
            assert(u_col.col_models(0) =~= c1_models(crs.u@));
            assert forall|a: int, b: int| 0 <= a < 2 && 0 <= b < xcoms.rand.nrows() implies
                #[trigger] r_t.entry(a, b) == xcoms.rand.entry(b, a) by {};
            assert forall|a: int, b: int| 0 <= a < 1 && 0 <= b < ycoms.rand.nrows() implies
                #[trigger] s_t.entry(a, b) == ycoms.rand.entry(b, a) by {};
            lemma_msme1_pi_cell(
                *self, xcoms.rand, ycoms.rand, scalar_yvars@, *crs, tv, r_t, rt_gamma,
                rt_gamma_s, t_mat, t_t, pi1, pi2, pi3, pi4, r, 0,
            );
            lemma_msme1_pi_cell(
                *self, xcoms.rand, ycoms.rand, scalar_yvars@, *crs, tv, r_t, rt_gamma,
                rt_gamma_s, t_mat, t_t, pi1, pi2, pi3, pi4, r, 1,
            );
            lemma_msme1_theta_cell(
                *self, xcoms.rand, ycoms.rand, xvars@, *crs, tv, s_t, g_t, st_gamma_t, th1, th2,
                th3, r,
            );
            assert(r.pi.cell(0, 0) == msme1_pi_cell(
                *self,
                xcoms.rand,
                ycoms.rand,
                scalar_yvars@,
                *crs,
                tv,
                0,
            ) && r.theta.cell(0, 0) == msme1_theta_cell(
                *self,
                xcoms.rand,
                ycoms.rand,
                xvars@,
                *crs,
                tv,
                0,
            ));
        }
        r
    }
}

proof fn lemma_msme1_pi_cell(
    equ: MSMEG1,
    xr: Matrix<Scalar>,
    yr: Matrix<Scalar>,
    ys: Seq<Scalar>,
    key: CRS,
    tv: Seq<Seq<int>>,
    r_t: Matrix<Scalar>,
    rt_gamma: Matrix<Scalar>,
    rt_gamma_s: Matrix<Scalar>,
    t_mat: Matrix<Scalar>,
    t_t: Matrix<Scalar>,
    pi1: Matrix<Com2>,
    pi2: Matrix<Com2>,
    pi3: Matrix<Com2>,
    pi4: Matrix<Com2>,
    r: EquProof,
    k: int,
)
    requires
        0 <= k < 2,
        equ.gamma.nrows() == xr.nrows(),
        equ.gamma.ncols() == yr.nrows(),
        xr.ncols() == 2,
        yr.ncols() == 1,
        r_t.nrows() == 2,
        r_t.ncols() == xr.nrows(),
        forall|a: int, b: int|
            0 <= a < 2 && 0 <= b < xr.nrows() ==> #[trigger] r_t.entry(a, b) == xr.entry(b, a),
        rt_gamma.nrows() == 2,
        rt_gamma.ncols() == equ.gamma.ncols(),
        forall|a: int, b: int|
            0 <= a < 2 && 0 <= b < equ.gamma.ncols() ==> #[trigger] rt_gamma.cell(a, b) == dot(
                r_t.row_models(a),
                equ.gamma.svals_col(b),
                1,
            ),
        rt_gamma_s.nrows() == 2,
        rt_gamma_s.ncols() == 1,
        forall|a: int, b: int|
            0 <= a < 2 && 0 <= b < 1 ==> #[trigger] rt_gamma_s.cell(a, b) == dot(
                rt_gamma.row_models(a),
                yr.svals_col(b),
                1,
            ),
        t_mat.nrows() == 1,
        t_mat.ncols() == 2,
        tv == t_mat.sval_rows(),
        t_t.nrows() == 2,
        t_t.ncols() == 1,
        forall|a: int, b: int|
            0 <= a < 2 && 0 <= b < 1 ==> #[trigger] t_t.entry(a, b) == t_mat.entry(b, a),
        forall|a: int|
            0 <= a < 2 ==> #[trigger] pi1.cell(a, 0) == dot(
                slin_models(key.v@[1].model(), g2_log(key.g2_gen), equ.b_consts@),
                r_t.svals_row(a),
                2,
            ),
        forall|a: int|
            0 <= a < 2 ==> #[trigger] pi2.cell(a, 0) == dot(
                slin_models(key.v@[1].model(), g2_log(key.g2_gen), ys),
                rt_gamma.svals_row(a),
                2,
            ),
        forall|a: int|
            0 <= a < 2 ==> #[trigger] pi3.cell(a, 0) == dot(
                c2_models(seq![key.v@[0]]),
                rt_gamma_s.svals_row(a),
                2,
            ),
        forall|a: int|
            0 <= a < 2 ==> #[trigger] pi4.cell(a, 0) == dot(
                c2_models(seq![key.v@[0]]),
                t_t.svals_row(a),
                2,
            ),
        forall|a: int|
            0 <= a < 2 ==> #[trigger] r.pi.cell(a, 0) == madd(
                madd(madd(pi1.cell(a, 0), pi2.cell(a, 0)), pi3.cell(a, 0)),
                mneg(pi4.cell(a, 0)),
            ),
    ensures
        r.pi.cell(k, 0) == msme1_pi_cell(equ, xr, yr, ys, key, tv, k),
{
    lemma_dims_nonneg(equ.gamma);
    lemma_dims_nonneg(xr);
    lemma_dims_nonneg(yr);
    lemma_dims_nonneg(r_t);
    lemma_dims_nonneg(rt_gamma);
    lemma_dims_nonneg(rt_gamma_s);
    lemma_dims_nonneg(t_mat);
    lemma_dims_nonneg(t_t);
    let n = equ.gamma.ncols();
    assert forall|b: int| 0 <= b < xr.nrows() implies r_t.svals_row(k)[b] == xr.svals_col(
        k,
    )[b] by {
        assert(r_t.entry(k, b) == xr.entry(b, k));
    };
    assert(r_t.svals_row(k) =~= xr.svals_col(k));
    let rtg = Seq::new(n as nat, |j: int| sdot(xr.svals_col(k), equ.gamma.svals_col(j)));
    assert forall|j: int| 0 <= j < n implies #[trigger] rt_gamma.svals_row(k)[j] == rtg[j] by {
        lemma_dot_as_sdot(r_t.row_models(k), equ.gamma.svals_col(j));
        assert(crate::com_t::col0(r_t.row_models(k)) =~= r_t.svals_row(k));
    };
    assert(rt_gamma.svals_row(k) =~= rtg);
    assert forall|l: int| 0 <= l < 1 implies #[trigger] rt_gamma_s.svals_row(k)[l] == sdot(
        rtg,
        yr.svals_col(l),
    ) by {
        lemma_dot_as_sdot(rt_gamma.row_models(k), yr.svals_col(l));
        assert(crate::com_t::col0(rt_gamma.row_models(k)) =~= rt_gamma.svals_row(k));
    };
    assert(rt_gamma_s.svals_row(k) =~= Seq::new(1, |l: int| sdot(rtg, yr.svals_col(l))));
    assert(t_t.svals_row(k) =~= Seq::new(1, |l: int| tv[l][k]));
}

proof fn lemma_msme1_theta_cell(
    equ: MSMEG1,
    xr: Matrix<Scalar>,
    yr: Matrix<Scalar>,
    xvars: Seq<G1Affine>,
    key: CRS,
    tv: Seq<Seq<int>>,
    s_t: Matrix<Scalar>,
    g_t: Matrix<Scalar>,
    st_gamma_t: Matrix<Scalar>,
    th1: Matrix<Com1>,
    th2: Matrix<Com1>,
    th3: Matrix<Com1>,
    r: EquProof,
)
    requires
        equ.gamma.nrows() == xr.nrows(),
        equ.gamma.ncols() == yr.nrows(),
        yr.ncols() == 1,
        s_t.nrows() == 1,
        s_t.ncols() == yr.nrows(),
        forall|a: int, b: int|
            0 <= a < 1 && 0 <= b < yr.nrows() ==> #[trigger] s_t.entry(a, b) == yr.entry(b, a),
        tv.len() == 1,
        tv[0].len() == 2,
        g_t.nrows() == equ.gamma.ncols(),
        g_t.ncols() == equ.gamma.nrows(),
        forall|a: int, b: int|
            0 <= a < equ.gamma.ncols() && 0 <= b < equ.gamma.nrows() ==> #[trigger] g_t.entry(
                a,
                b,
            ) == equ.gamma.entry(b, a),
        st_gamma_t.nrows() == 1,
        st_gamma_t.ncols() == equ.gamma.nrows(),
        forall|a: int, b: int|
            0 <= a < 1 && 0 <= b < equ.gamma.nrows() ==> #[trigger] st_gamma_t.cell(a, b) == dot(
                s_t.row_models(a),
                g_t.svals_col(b),
                1,
            ),
        forall|a: int|
            0 <= a < 1 ==> #[trigger] th1.cell(a, 0) == dot(
                lin1_models(equ.a_consts@),
                s_t.svals_row(a),
                2,
            ),
        forall|a: int|
            0 <= a < 1 ==> #[trigger] th2.cell(a, 0) == dot(
                lin1_models(xvars),
                st_gamma_t.svals_row(a),
                2,
            ),
        forall|a: int|
            0 <= a < 1 ==> #[trigger] th3.cell(a, 0) == dot(
                c1_models(key.u@),
                tv[a],
                2,
            ),
        forall|a: int|
            0 <= a < 1 ==> #[trigger] r.theta.cell(a, 0) == madd(
                madd(th1.cell(a, 0), th2.cell(a, 0)),
                th3.cell(a, 0),
            ),
    ensures
        r.theta.cell(0, 0) == msme1_theta_cell(equ, xr, yr, xvars, key, tv, 0),
{
    lemma_dims_nonneg(equ.gamma);
    lemma_dims_nonneg(xr);
    lemma_dims_nonneg(yr);
    lemma_dims_nonneg(s_t);
    lemma_dims_nonneg(g_t);
    lemma_dims_nonneg(st_gamma_t);
    let m = equ.gamma.nrows();
    assert forall|b: int| 0 <= b < yr.nrows() implies s_t.svals_row(0)[b] == yr.svals_col(
        0,
    )[b] by {
        assert(s_t.entry(0, b) == yr.entry(b, 0));
    };
    assert(s_t.svals_row(0) =~= yr.svals_col(0));
    let sgt = Seq::new(m as nat, |i: int| sdot(yr.svals_col(0), equ.gamma.svals_row(i)));
    assert forall|i: int| 0 <= i < m implies #[trigger] st_gamma_t.svals_row(0)[i] == sgt[i] by {
        lemma_dot_as_sdot(s_t.row_models(0), g_t.svals_col(i));
        assert(crate::com_t::col0(s_t.row_models(0)) =~= s_t.svals_row(0));
        assert(g_t.svals_col(i) =~= equ.gamma.svals_row(i));
    };
    assert(st_gamma_t.svals_row(0) =~= sgt);
}

/// The model of the single entry of the `G2` multi-scalar proof column `pi`.
pub open spec fn msme2_pi_cell(
    equ: MSMEG2,
    xr: Matrix<Scalar>,
    yr: Matrix<Scalar>,
    yvars: Seq<G2Affine>,
    key: CRS,
    t: Seq<Seq<int>>,
    k: int,
) -> Seq<int> {
    let rtg = Seq::new(
        equ.gamma.ncols() as nat,
        |j: int| sdot(xr.svals_col(k), equ.gamma.svals_col(j)),
    );
    madd(
        madd(
            madd(
                dot(lin2_models(equ.b_consts@), xr.svals_col(k), 2),
                dot(lin2_models(yvars), rtg, 2),
            ),
            dot(c2_models(key.v@), Seq::new(2, |l: int| sdot(rtg, yr.svals_col(l))), 2),
        ),
        mneg(dot(c2_models(key.v@), Seq::new(2, |l: int| t[l][k]), 2)),
    )
}

/// The model of entry `k` of the `G2` multi-scalar proof column `theta`.
pub open spec fn msme2_theta_cell(
    equ: MSMEG2,
    xr: Matrix<Scalar>,
    yr: Matrix<Scalar>,
    xs: Seq<Scalar>,
    key: CRS,
    t: Seq<Seq<int>>,
    k: int,
) -> Seq<int> {
    let sgt = Seq::new(
        equ.gamma.nrows() as nat,
        |i: int| sdot(yr.svals_col(k), equ.gamma.svals_row(i)),
    );
    madd(
        madd(
            dot(
                slin_models(key.u@[1].model(), g1_log(key.g1_gen), equ.a_consts@),
                yr.svals_col(k),
                2,
            ),
            dot(slin_models(key.u@[1].model(), g1_log(key.g1_gen), xs), sgt, 2),
        ),
        dot(c1_models(seq![key.u@[0]]), t[k], 2),
    )
}

impl MSMEG2 {
    /// Construct a proof from the witnesses, their commitment randomness and
    /// the CRS.
    pub fn prove(
        &self,
        scalar_xvars: &Vec<Scalar>,
        yvars: &Vec<G2Affine>,
        xcoms: &Commit1,
        ycoms: &Commit2,
        crs: &CRS,
        rng: &mut RandSource,
    ) -> (r: EquProof)
        requires
            crs.wf(),
            self.gamma.nrows() == scalar_xvars@.len(),
            self.gamma.ncols() == yvars@.len(),
            self.a_consts@.len() == yvars@.len(),
            self.b_consts@.len() == scalar_xvars@.len(),
            xcoms.rand.nrows() == scalar_xvars@.len(),
            xcoms.rand.ncols() == 1,
            ycoms.rand.nrows() == yvars@.len(),
            ycoms.rand.ncols() == 2,
        ensures
            r.pi.nrows() == 1,
            r.pi.ncols() == 1,
            r.theta.nrows() == 2,
            r.theta.ncols() == 1,
            exists|t: Seq<Seq<int>>|
                t.len() == 2 && t[0].len() == 1 && t[1].len() == 1 && r.pi.cell(0, 0)
                    == msme2_pi_cell(*self, xcoms.rand, ycoms.rand, yvars@, *crs, t, 0)
                    && r.theta.cell(0, 0) == msme2_theta_cell(
                    *self,
                    xcoms.rand,
                    ycoms.rand,
                    scalar_xvars@,
                    *crs,
                    t,
                    0,
                ) && r.theta.cell(1, 0) == #[trigger] msme2_theta_cell(
                    *self,
                    xcoms.rand,
                    ycoms.rand,
                    scalar_xvars@,
                    *crs,
                    t,
                    1,
                ),
    {
        let t_mat = Matrix::<Scalar>::rand(rng, 2, 1);
        let r_t = xcoms.rand.transpose();
        let s_t = ycoms.rand.transpose();
        let u0_col = vec_to_col_vec(&vec![crs.u[0]]);
        let v_col = vec_to_col_vec(&crs.v);

        let lin_b_vec = Com2::batch_linear_map(&self.b_consts);
        let lin_b = vec_to_col_vec(&lin_b_vec);
        let lin_y_vec = Com2::batch_linear_map(yvars);
        let lin_y = vec_to_col_vec(&lin_y_vec);
        let pi1 = lin_b.left_mul(&r_t);
        let rt_gamma = r_t.right_mul(&self.gamma);
        let pi2 = lin_y.left_mul(&rt_gamma);
        let rt_gamma_s = rt_gamma.right_mul(&ycoms.rand);
        let pi3 = v_col.left_mul(&rt_gamma_s);
        let t_t = t_mat.transpose();
        let pi4 = v_col.left_mul(&t_t);
        let pi = pi1.add(&pi2).add(&pi3).add(&pi4.neg());

        let slin_a_vec = crs.u[1].batch_scalar_linear_map(&self.a_consts, &crs.g1_gen);
        let slin_a = vec_to_col_vec(&slin_a_vec);
        let slin_x_vec = crs.u[1].batch_scalar_linear_map(scalar_xvars, &crs.g1_gen);
        let slin_x = vec_to_col_vec(&slin_x_vec);
        let th1 = slin_a.left_mul(&s_t);
        let g_t = self.gamma.transpose();
        let st_gamma_t = s_t.right_mul(&g_t);
        let th2 = slin_x.left_mul(&st_gamma_t);
        let th3 = u0_col.left_mul(&t_mat);
        let theta = th1.add(&th2).add(&th3);

        let r = EquProof { pi, theta };
        proof {
            let tv = t_mat.sval_rows();
            assert(tv.len() == 2 && tv[0].len() == 1 && tv[1].len() == 1);
            assert(lin_b.col_models(0) =~= lin2_models(self.b_consts@));
            assert(lin_y.col_models(0) =~= lin2_models(yvars@));
            assert(slin_a.col_models(0) =~= slin_models(
                crs.u@[1].model(),
                g1_log(crs.g1_gen),
                self.a_consts@,
            ));
            assert(slin_x.col_models(0) =~= slin_models(
                crs.u@[1].model(),
                g1_log(crs.g1_gen),
                scalar_xvars@,
            ));
            assert(v_col.col_models(0) =~= c2_models(crs.v@));
            assert(u0_col.col_models(0) =~= c1_models(seq![crs.u@[0]]));
            assert forall|a: int, b: int| 0 <= a < 1 && 0 <= b < xcoms.rand.nrows() implies
                #[trigger] r_t.entry(a, b) == xcoms.rand.entry(b, a) by {};
            assert forall|a: int, b: int| 0 <= a < 2 && 0 <= b < ycoms.rand.nrows() implies
                #[trigger] s_t.entry(a, b) == ycoms.rand.entry(b, a) by {};
            lemma_msme2_pi_cell(
                *self, xcoms.rand, ycoms.rand, yvars@, *crs, tv, r_t, rt_gamma, rt_gamma_s,
                t_mat, t_t, pi1, pi2, pi3, pi4, r,
            );
            lemma_msme2_theta_cell(
                *self, xcoms.rand, ycoms.rand, scalar_xvars@, *crs, tv, s_t, g_t, st_gamma_t,
                th1, th2, th3, r, 0,
            );
            lemma_msme2_theta_cell(
                *self, xcoms.rand, ycoms.rand, scalar_xvars@, *crs, tv, s_t, g_t, st_gamma_t,
                th1, th2, th3, r, 1,
            );
            assert(r.pi.cell(0, 0) == msme2_pi_cell(
                *self,
                xcoms.rand,
                ycoms.rand,
                yvars@,
                *crs,
                tv,
                0,
            ) && r.theta.cell(1, 0) == msme2_theta_cell(
                *self,
                xcoms.rand,
                ycoms.rand,
                scalar_xvars@,
                *crs,
                tv,
                1,
            ));
        }
        r
    }
}

proof fn lemma_msme2_pi_cell(
    equ: MSMEG2,
    xr: Matrix<Scalar>,
    yr: Matrix<Scalar>,
    yvars: Seq<G2Affine>,
    key: CRS,
    tv: Seq<Seq<int>>,
    r_t: Matrix<Scalar>,
    rt_gamma: Matrix<Scalar>,
    rt_gamma_s: Matrix<Scalar>,
    t_mat: Matrix<Scalar>,
    t_t: Matrix<Scalar>,
    pi1: Matrix<Com2>,
    pi2: Matrix<Com2>,
    pi3: Matrix<Com2>,
    pi4: Matrix<Com2>,
    r: EquProof,
)
    requires
        equ.gamma.nrows() == xr.nrows(),
        equ.gamma.ncols() == yr.nrows(),
        xr.ncols() == 1,
        yr.ncols() == 2,
        r_t.nrows() == 1,
        r_t.ncols() == xr.nrows(),
        forall|a: int, b: int|
            0 <= a < 1 && 0 <= b < xr.nrows() ==> #[trigger] r_t.entry(a, b) == xr.entry(b, a),
        rt_gamma.nrows() == 1,
        rt_gamma.ncols() == equ.gamma.ncols(),
        forall|a: int, b: int|
            0 <= a < 1 && 0 <= b < equ.gamma.ncols() ==> #[trigger] rt_gamma.cell(a, b) == dot(
                r_t.row_models(a),
                equ.gamma.svals_col(b),
                1,
            ),
        rt_gamma_s.nrows() == 1,
        rt_gamma_s.ncols() == 2,
        forall|a: int, b: int|
            0 <= a < 1 && 0 <= b < 2 ==> #[trigger] rt_gamma_s.cell(a, b) == dot(
                rt_gamma.row_models(a),
                yr.svals_col(b),
                1,
            ),
        t_mat.nrows() == 2,
        t_mat.ncols() == 1,
        tv == t_mat.sval_rows(),
        t_t.nrows() == 1,
        t_t.ncols() == 2,
        forall|a: int, b: int|
            0 <= a < 1 && 0 <= b < 2 ==> #[trigger] t_t.entry(a, b) == t_mat.entry(b, a),
        forall|a: int|
            0 <= a < 1 ==> #[trigger] pi1.cell(a, 0) == dot(
                lin2_models(equ.b_consts@),
                r_t.svals_row(a),
                2,
            ),
        forall|a: int|
            0 <= a < 1 ==> #[trigger] pi2.cell(a, 0) == dot(
                lin2_models(yvars),
                rt_gamma.svals_row(a),
                2,
            ),
        forall|a: int|
            0 <= a < 1 ==> #[trigger] pi3.cell(a, 0) == dot(
                c2_models(key.v@),
                rt_gamma_s.svals_row(a),
                2,
            ),
        forall|a: int|
            0 <= a < 1 ==> #[trigger] pi4.cell(a, 0) == dot(c2_models(key.v@), t_t.svals_row(a), 2),
        forall|a: int|
            0 <= a < 1 ==> #[trigger] r.pi.cell(a, 0) == madd(
                madd(madd(pi1.cell(a, 0), pi2.cell(a, 0)), pi3.cell(a, 0)),
                mneg(pi4.cell(a, 0)),
            ),
    ensures
        r.pi.cell(0, 0) == msme2_pi_cell(equ, xr, yr, yvars, key, tv, 0),
{
    lemma_dims_nonneg(equ.gamma);
    lemma_dims_nonneg(xr);
    lemma_dims_nonneg(yr);
    lemma_dims_nonneg(r_t);
    lemma_dims_nonneg(rt_gamma);
    lemma_dims_nonneg(rt_gamma_s);
    lemma_dims_nonneg(t_mat);
    lemma_dims_nonneg(t_t);
    let n = equ.gamma.ncols();
    assert forall|b: int| 0 <= b < xr.nrows() implies r_t.svals_row(0)[b] == xr.svals_col(
        0,
    )[b] by {
        assert(r_t.entry(0, b) == xr.entry(b, 0));
    };
    assert(r_t.svals_row(0) =~= xr.svals_col(0));
    let rtg = Seq::new(n as nat, |j: int| sdot(xr.svals_col(0), equ.gamma.svals_col(j)));
    assert forall|j: int| 0 <= j < n implies #[trigger] rt_gamma.svals_row(0)[j] == rtg[j] by {
        lemma_dot_as_sdot(r_t.row_models(0), equ.gamma.svals_col(j));
        assert(crate::com_t::col0(r_t.row_models(0)) =~= r_t.svals_row(0));
    };
    assert(rt_gamma.svals_row(0) =~= rtg);
    assert forall|l: int| 0 <= l < 2 implies #[trigger] rt_gamma_s.svals_row(0)[l] == sdot(
        rtg,
        yr.svals_col(l),
    ) by {
        lemma_dot_as_sdot(rt_gamma.row_models(0), yr.svals_col(l));
        assert(crate::com_t::col0(rt_gamma.row_models(0)) =~= rt_gamma.svals_row(0));
    };
    assert(rt_gamma_s.svals_row(0) =~= Seq::new(2, |l: int| sdot(rtg, yr.svals_col(l))));
    assert(t_t.svals_row(0) =~= Seq::new(2, |l: int| tv[l][0]));
}

proof fn lemma_msme2_theta_cell(
    equ: MSMEG2,
    xr: Matrix<Scalar>,
    yr: Matrix<Scalar>,
    xs: Seq<Scalar>,
    key: CRS,
    tv: Seq<Seq<int>>,
    s_t: Matrix<Scalar>,
    g_t: Matrix<Scalar>,
    st_gamma_t: Matrix<Scalar>,
    th1: Matrix<Com1>,
    th2: Matrix<Com1>,
    th3: Matrix<Com1>,
    r: EquProof,
    k: int,
)
    requires
        0 <= k < 2,
        equ.gamma.nrows() == xr.nrows(),
        equ.gamma.ncols() == yr.nrows(),
        yr.ncols() == 2,
        s_t.nrows() == 2,
        s_t.ncols() == yr.nrows(),
        forall|a: int, b: int|
            0 <= a < 2 && 0 <= b < yr.nrows() ==> #[trigger] s_t.entry(a, b) == yr.entry(b, a),
        tv.len() == 2,
        tv[0].len() == 1,
        tv[1].len() == 1,
        g_t.nrows() == equ.gamma.ncols(),
        g_t.ncols() == equ.gamma.nrows(),
        forall|a: int, b: int|
            0 <= a < equ.gamma.ncols() && 0 <= b < equ.gamma.nrows() ==> #[trigger] g_t.entry(
                a,
                b,
            ) == equ.gamma.entry(b, a),
        st_gamma_t.nrows() == 2,
        st_gamma_t.ncols() == equ.gamma.nrows(),
        forall|a: int, b: int|
            0 <= a < 2 && 0 <= b < equ.gamma.nrows() ==> #[trigger] st_gamma_t.cell(a, b) == dot(
                s_t.row_models(a),
                g_t.svals_col(b),
                1,
            ),
        forall|a: int|
            0 <= a < 2 ==> #[trigger] th1.cell(a, 0) == dot(
                slin_models(key.u@[1].model(), g1_log(key.g1_gen), equ.a_consts@),
                s_t.svals_row(a),
                2,
            ),
        forall|a: int|
            0 <= a < 2 ==> #[trigger] th2.cell(a, 0) == dot(
                slin_models(key.u@[1].model(), g1_log(key.g1_gen), xs),
                st_gamma_t.svals_row(a),
                2,
            ),
        forall|a: int|
            0 <= a < 2 ==> #[trigger] th3.cell(a, 0) == dot(
                c1_models(seq![key.u@[0]]),
                t_mat_row(tv, a),
                2,
            ),
        forall|a: int|
            0 <= a < 2 ==> #[trigger] r.theta.cell(a, 0) == madd(
                madd(th1.cell(a, 0), th2.cell(a, 0)),
                th3.cell(a, 0),
            ),
    ensures
        r.theta.cell(k, 0) == msme2_theta_cell(equ, xr, yr, xs, key, tv, k),
{
    lemma_dims_nonneg(equ.gamma);
    lemma_dims_nonneg(xr);
    lemma_dims_nonneg(yr);
    lemma_dims_nonneg(s_t);
    lemma_dims_nonneg(g_t);
    lemma_dims_nonneg(st_gamma_t);
    let m = equ.gamma.nrows();
    assert forall|b: int| 0 <= b < yr.nrows() implies s_t.svals_row(k)[b] == yr.svals_col(
        k,
    )[b] by {
        assert(s_t.entry(k, b) == yr.entry(b, k));
    };
    assert(s_t.svals_row(k) =~= yr.svals_col(k));
    let sgt = Seq::new(m as nat, |i: int| sdot(yr.svals_col(k), equ.gamma.svals_row(i)));
    assert forall|i: int| 0 <= i < m implies #[trigger] st_gamma_t.svals_row(k)[i] == sgt[i] by {
        lemma_dot_as_sdot(s_t.row_models(k), g_t.svals_col(i));
        assert(crate::com_t::col0(s_t.row_models(k)) =~= s_t.svals_row(k));
        assert(g_t.svals_col(i) =~= equ.gamma.svals_row(i));
    };
    assert(st_gamma_t.svals_row(k) =~= sgt);
    assert(t_mat_row(tv, k) == tv[k]);
}

/// Row `a` of the internal random matrix, as residues.
pub open spec fn t_mat_row(tv: Seq<Seq<int>>, a: int) -> Seq<int> {
    tv[a]
}

/// The model of the single entry of the quadratic proof column `pi`.
pub open spec fn quad_pi_cell(
    equ: QuadEqu,
    xr: Matrix<Scalar>,
    yr: Matrix<Scalar>,
    ys: Seq<Scalar>,
    key: CRS,
    t: Seq<Seq<int>>,
    k: int,
) -> Seq<int> {
    let rtg = Seq::new(
        equ.gamma.ncols() as nat,
        |j: int| sdot(xr.svals_col(k), equ.gamma.svals_col(j)),
    );
    madd(
        madd(
            madd(
                dot(
                    slin_models(key.v@[1].model(), g2_log(key.g2_gen), equ.b_consts@),
                    xr.svals_col(k),
                    2,
                ),
                dot(slin_models(key.v@[1].model(), g2_log(key.g2_gen), ys), rtg, 2),
            ),
            dot(
                c2_models(seq![key.v@[0]]),
                Seq::new(1, |l: int| sdot(rtg, yr.svals_col(l))),
                2,
            ),
        ),
        mneg(dot(c2_models(seq![key.v@[0]]), Seq::new(1, |l: int| t[l][k]), 2)),
    )
}

/// The model of the single entry of the quadratic proof column `theta`.
pub open spec fn quad_theta_cell(
    equ: QuadEqu,
    xr: Matrix<Scalar>,
    yr: Matrix<Scalar>,
    xs: Seq<Scalar>,
    key: CRS,
    t: Seq<Seq<int>>,
    k: int,
) -> Seq<int> {
    let sgt = Seq::new(
        equ.gamma.nrows() as nat,
        |i: int| sdot(yr.svals_col(k), equ.gamma.svals_row(i)),
    );
    madd(
        madd(
            dot(
                slin_models(key.u@[1].model(), g1_log(key.g1_gen), equ.a_consts@),
                yr.svals_col(k),
                2,
            ),
            dot(slin_models(key.u@[1].model(), g1_log(key.g1_gen), xs), sgt, 2),
        ),
        dot(c1_models(seq![key.u@[0]]), t[k], 2),
    )
}

impl QuadEqu {
    /// Construct a proof from the witnesses, their commitment randomness and
    /// the CRS.
    #[verifier::rlimit(100)]
    pub fn prove(
        &self,
        scalar_xvars: &Vec<Scalar>,
        scalar_yvars: &Vec<Scalar>,
        xcoms: &Commit1,
        ycoms: &Commit2,
        crs: &CRS,
        rng: &mut RandSource,
    ) -> (r: EquProof)
        requires
            crs.wf(),
            self.gamma.nrows() == scalar_xvars@.len(),
            self.gamma.ncols() == scalar_yvars@.len(),
            self.a_consts@.len() == scalar_yvars@.len(),
            self.b_consts@.len() == scalar_xvars@.len(),
            xcoms.rand.nrows() == scalar_xvars@.len(),
            xcoms.rand.ncols() == 1,
            ycoms.rand.nrows() == scalar_yvars@.len(),
            ycoms.rand.ncols() == 1,
        ensures
            r.pi.nrows() == 1,
            r.pi.ncols() == 1,
            r.theta.nrows() == 1,
            r.theta.ncols() == 1,
            exists|t: Seq<Seq<int>>|
                t.len() == 1 && t[0].len() == 1 && r.pi.cell(0, 0) == quad_pi_cell(
                    *self,
                    xcoms.rand,
                    ycoms.rand,
                    scalar_yvars@,
                    *crs,
                    t,
                    0,
                ) && r.theta.cell(0, 0) == #[trigger] quad_theta_cell(
                    *self,
                    xcoms.rand,
                    ycoms.rand,
                    scalar_xvars@,
                    *crs,
                    t,
                    0,
                ),
    {
        let t_mat = Matrix::<Scalar>::rand(rng, 1, 1);
        let r_t = xcoms.rand.transpose();
        let s_t = ycoms.rand.transpose();
        let u0_col = vec_to_col_vec(&vec![crs.u[0]]);
        let v0_col = vec_to_col_vec(&vec![crs.v[0]]);

        let slin_b_vec = crs.v[1].batch_scalar_linear_map(&self.b_consts, &crs.g2_gen);
        let slin_b = vec_to_col_vec(&slin_b_vec);
        let slin_y_vec = crs.v[1].batch_scalar_linear_map(scalar_yvars, &crs.g2_gen);
        let slin_y = vec_to_col_vec(&slin_y_vec);
        let pi1 = slin_b.left_mul(&r_t);
        let rt_gamma = r_t.right_mul(&self.gamma);
        let pi2 = slin_y.left_mul(&rt_gamma);
        let rt_gamma_s = rt_gamma.right_mul(&ycoms.rand);
        let pi3 = v0_col.left_mul(&rt_gamma_s);
        let t_t = t_mat.transpose();
        let pi4 = v0_col.left_mul(&t_t);
        let pi = pi1.add(&pi2).add(&pi3).add(&pi4.neg());

        let slin_a_vec = crs.u[1].batch_scalar_linear_map(&self.a_consts, &crs.g1_gen);
        let slin_a = vec_to_col_vec(&slin_a_vec);
        let slin_x_vec = crs.u[1].batch_scalar_linear_map(scalar_xvars, &crs.g1_gen);
        let slin_x = vec_to_col_vec(&slin_x_vec);
        let th1 = slin_a.left_mul(&s_t);
        let g_t = self.gamma.transpose();
        let st_gamma_t = s_t.right_mul(&g_t);
        let th2 = slin_x.left_mul(&st_gamma_t);
        let th3 = u0_col.left_mul(&t_mat);
        let theta = th1.add(&th2).add(&th3);

        let r = EquProof { pi, theta };
        proof {
            let tv = t_mat.sval_rows();
            let m = self.gamma.nrows();
            let n = self.gamma.ncols();
            assert(tv.len() == 1 && tv[0].len() == 1);
            assert(slin_b.col_models(0) =~= slin_models(
                crs.v@[1].model(),
                g2_log(crs.g2_gen),
                self.b_consts@,
            ));
            assert(slin_y.col_models(0) =~= slin_models(
                crs.v@[1].model(),
                g2_log(crs.g2_gen),
                scalar_yvars@,
            ));
            assert(slin_a.col_models(0) =~= slin_models(
                crs.u@[1].model(),
                g1_log(crs.g1_gen),
                self.a_consts@,
            ));
            assert(slin_x.col_models(0) =~= slin_models(
                crs.u@[1].model(),
                g1_log(crs.g1_gen),
                scalar_xvars@,
            ));
            assert(v0_col.col_models(0) =~= c2_models(seq![crs.v@[0]]));
            assert(u0_col.col_models(0) =~= c1_models(seq![crs.u@[0]]));
            assert forall|b: int| 0 <= b < xcoms.rand.nrows() implies r_t.svals_row(0)[b]
                == xcoms.rand.svals_col(0)[b] by {
                assert(r_t.entry(0, b) == xcoms.rand.entry(b, 0));
            };
            assert(r_t.svals_row(0) =~= xcoms.rand.svals_col(0));
            assert forall|b: int| 0 <= b < ycoms.rand.nrows() implies s_t.svals_row(0)[b]
                == ycoms.rand.svals_col(0)[b] by {
                assert(s_t.entry(0, b) == ycoms.rand.entry(b, 0));
            };
            assert(s_t.svals_row(0) =~= ycoms.rand.svals_col(0));
            let rtg = Seq::new(
                n as nat,
                |j: int| sdot(xcoms.rand.svals_col(0), self.gamma.svals_col(j)),
            );
            assert forall|j: int| 0 <= j < n implies #[trigger] rt_gamma.svals_row(0)[j]
                == rtg[j] by {
                lemma_dot_as_sdot(r_t.row_models(0), self.gamma.svals_col(j));
                assert(crate::com_t::col0(r_t.row_models(0)) =~= r_t.svals_row(0));
            };
            assert(rt_gamma.svals_row(0) =~= rtg);
            assert forall|l: int| 0 <= l < 1 implies #[trigger] rt_gamma_s.svals_row(0)[l]
                == sdot(rtg, ycoms.rand.svals_col(l)) by {
                lemma_dot_as_sdot(rt_gamma.row_models(0), ycoms.rand.svals_col(l));
                assert(crate::com_t::col0(rt_gamma.row_models(0)) =~= rt_gamma.svals_row(0));
            };
            assert(rt_gamma_s.svals_row(0) =~= Seq::new(
                1,
                |l: int| sdot(rtg, ycoms.rand.svals_col(l)),
            ));
            assert(t_t.svals_row(0) =~= Seq::new(1, |l: int| tv[l][0]));
            assert(t_mat.svals_row(0) =~= tv[0]);
            let sgt = Seq::new(
                m as nat,
                |i: int| sdot(ycoms.rand.svals_col(0), self.gamma.svals_row(i)),
            );
            assert forall|i: int| 0 <= i < m implies #[trigger] st_gamma_t.svals_row(0)[i]
                == sgt[i] by {
                lemma_dot_as_sdot(s_t.row_models(0), g_t.svals_col(i));
                assert(crate::com_t::col0(s_t.row_models(0)) =~= s_t.svals_row(0));
                assert(g_t.svals_col(i) =~= self.gamma.svals_row(i));
            };
            assert(st_gamma_t.svals_row(0) =~= sgt);
            assert(r.pi.cell(0, 0) == quad_pi_cell(
                *self,
                xcoms.rand,
                ycoms.rand,
                scalar_yvars@,
                *crs,
                tv,
                0,
            ) && r.theta.cell(0, 0) == quad_theta_cell(
                *self,
                xcoms.rand,
                ycoms.rand,
                scalar_xvars@,
                *crs,
                tv,
                0,
            ));
        }
        r
    }
}

} // verus!
