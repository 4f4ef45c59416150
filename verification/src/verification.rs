//! Proof verification.  For each equation shape the verifier recomputes, from
//! the public commitments, constants, coefficient matrix and target, a
//! left-hand target-group value, and compares it cell by cell against a
//! right-hand value assembled from the proof matrices paired with the CRS
//! bases.  The contract of each `verify` method states the exact identity
//! over the integer models; a verdict of `false` is the expected outcome for
//! an invalid proof, not an error.

use crate::adapter::fr_val;
use crate::adapter::g1_log;
use crate::adapter::g2_log;
use crate::adapter::gt_log;
use crate::adapter::G1Affine;
use crate::adapter::G2Affine;
use crate::adapter::Scalar;
use crate::com::Com1;
use crate::com::Com2;
use crate::com_t::c1_models;
use crate::com_t::c2_models;
use crate::com_t::pairing_model;
use crate::com_t::ps_model;
use crate::com_t::ComT;
use crate::commit::Commit1;
use crate::commit::Commit2;
use crate::data_structures::madd;
use crate::data_structures::mscale;
use crate::data_structures::Element;
use crate::generator::CRS;
use crate::matrix::col_vec_to_vec;
use crate::matrix::dot;
use crate::matrix::vec_to_col_vec;
use crate::matrix::Matrix;
use crate::statement::EquProof;
use crate::statement::MSMEG1;
use crate::statement::MSMEG2;
use crate::statement::QuadEqu;
use crate::statement::PPE;
use vstd::prelude::*;

verus! {

/// Models of the zero-randomness embeddings of a list of `G1` constants.
pub open spec fn lin1_models(xs: Seq<G1Affine>) -> Seq<Seq<int>> {
    xs.map_values(|x: G1Affine| seq![0int, g1_log(x)])
}

/// Models of the zero-randomness embeddings of a list of `G2` constants.
pub open spec fn lin2_models(ys: Seq<G2Affine>) -> Seq<Seq<int>> {
    ys.map_values(|y: G2Affine| seq![0int, g2_log(y)])
}

/// Models of the scalar embeddings of a list of scalar constants against a
/// commitment base and a generator logarithm.
pub open spec fn slin_models(base: Seq<int>, gen_log: int, xs: Seq<Scalar>) -> Seq<Seq<int>> {
    xs.map_values(|x: Scalar| mscale(madd(base, seq![0int, gen_log]), fr_val(x)))
}

/// The models of the coefficient-weighted combinations `gamma * d`: row `i`
/// is the sum of the models `dms`, each scaled by the matching scalar of row
/// `i` of `gamma`.
pub open spec fn gamma_mixed(gamma: Matrix<Scalar>, dms: Seq<Seq<int>>) -> Seq<Seq<int>> {
    Seq::new(gamma.nrows() as nat, |i: int| dot(dms, gamma.svals_row(i), 2))
}

/// The cell models of a proof column over the first commitment group.
pub open spec fn col_cells1(m: Matrix<Com1>) -> Seq<Seq<int>> {
    Seq::new(m.nrows() as nat, |k: int| m.cell(k, 0))
}

/// The cell models of a proof column over the second commitment group.
pub open spec fn col_cells2(m: Matrix<Com2>) -> Seq<Seq<int>> {
    Seq::new(m.nrows() as nat, |k: int| m.cell(k, 0))
}

impl PPE {
    /// The left side of the verification identity: the pairings of the
    /// embedded constants and the commitments, plus the coefficient-weighted
    /// cross pairings.
    pub open spec fn lhs_model(self, c: Seq<Com1>, d: Seq<Com2>) -> Seq<int> {
        madd(
            madd(
                ps_model(lin1_models(self.a_consts@), c2_models(d)),
                ps_model(c1_models(c), lin2_models(self.b_consts@)),
            ),
            ps_model(c1_models(c), gamma_mixed(self.gamma, c2_models(d))),
        )
    }

    /// The right side of the verification identity: the embedded target plus
    /// the proof columns paired with the CRS bases.
    pub open spec fn rhs_model(self, pf: EquProof, key: CRS) -> Seq<int> {
        madd(
            madd(
                seq![0int, 0int, 0int, gt_log(self.target)],
                ps_model(c1_models(key.u@), col_cells2(pf.pi)),
            ),
            ps_model(col_cells1(pf.theta), c2_models(key.v@)),
        )
    }

    /// Whether the proof satisfies the closing pairing-product identity.
    #[verifier::rlimit(100)]
    pub fn verify(&self, proof: &EquProof, xcoms: &Commit1, ycoms: &Commit2, crs: &CRS) -> (r:
        bool)
        requires
            crs.wf(),
            self.gamma.nrows() == xcoms.coms@.len(),
            self.gamma.ncols() == ycoms.coms@.len(),
            self.a_consts@.len() == ycoms.coms@.len(),
            self.b_consts@.len() == xcoms.coms@.len(),
            proof.pi.nrows() == 2,
            proof.pi.ncols() == 1,
            proof.theta.nrows() == 2,
            proof.theta.ncols() == 1,
        ensures
            r == (self.lhs_model(xcoms.coms@, ycoms.coms@) == self.rhs_model(*proof, *crs)),
    {
        let lin_a = Com1::batch_linear_map(&self.a_consts);
        let lhs1 = ComT::pairing_sum(&lin_a, &ycoms.coms);
        let lin_b = Com2::batch_linear_map(&self.b_consts);
        let lhs2 = ComT::pairing_sum(&xcoms.coms, &lin_b);
        let d_col = vec_to_col_vec(&ycoms.coms);
        let gamma_d = d_col.left_mul(&self.gamma);
        let gd_vec = col_vec_to_vec(&gamma_d);
        let lhs3 = ComT::pairing_sum(&xcoms.coms, &gd_vec);
        let lhs = lhs1.add(&lhs2).add(&lhs3);

        let lin_t = ComT::linear_map_PPE(&self.target);
        let pi_vec = col_vec_to_vec(&proof.pi);
        let rhs2 = ComT::pairing_sum(&crs.u, &pi_vec);
        let th_vec = col_vec_to_vec(&proof.theta);
        let rhs3 = ComT::pairing_sum(&th_vec, &crs.v);
        let rhs = lin_t.add(&rhs2).add(&rhs3);

        proof {
            assert(c1_models(lin_a@) =~= lin1_models(self.a_consts@));
            assert(c2_models(lin_b@) =~= lin2_models(self.b_consts@));
            assert(d_col.col_models(0) =~= c2_models(ycoms.coms@));
            assert forall|i: int| 0 <= i < gd_vec@.len() implies (#[trigger] c2_models(gd_vec@)[i])
                == gamma_mixed(self.gamma, c2_models(ycoms.coms@))[i] by {
                assert(gd_vec@[i] == gamma_d.entry(i, 0));
                assert(gamma_d.cell(i, 0) == dot(d_col.col_models(0), self.gamma.svals_row(i), 2));
            };
            assert(c2_models(gd_vec@) =~= gamma_mixed(self.gamma, c2_models(ycoms.coms@)));
            assert(c2_models(pi_vec@) =~= col_cells2(proof.pi));
            assert(c1_models(th_vec@) =~= col_cells1(proof.theta));
            assert(lhs.model() == self.lhs_model(xcoms.coms@, ycoms.coms@));
            assert(rhs.model() == self.rhs_model(*proof, *crs));
        }
        lhs.eq_elem(&rhs)
    }
}

impl MSMEG1 {
    /// The left side of the verification identity.
    pub open spec fn lhs_model(self, c: Seq<Com1>, d: Seq<Com2>, key: CRS) -> Seq<int> {
        madd(
            madd(
                ps_model(lin1_models(self.a_consts@), c2_models(d)),
                ps_model(
                    c1_models(c),
                    slin_models(key.v@[1].model(), g2_log(key.g2_gen), self.b_consts@),
                ),
            ),
            ps_model(c1_models(c), gamma_mixed(self.gamma, c2_models(d))),
        )
    }

    /// The right side of the verification identity.
    pub open spec fn rhs_model(self, pf: EquProof, key: CRS) -> Seq<int> {
        madd(
            madd(
                pairing_model(
                    seq![0int, g1_log(self.target)],
                    madd(key.v@[1].model(), seq![0int, g2_log(key.g2_gen)]),
                ),
                ps_model(c1_models(key.u@), col_cells2(pf.pi)),
            ),
            ps_model(col_cells1(pf.theta), c2_models(seq![key.v@[0]])),
        )
    }

    /// Whether the proof satisfies the closing identity.
    #[verifier::rlimit(100)]
    pub fn verify(&self, proof: &EquProof, xcoms: &Commit1, ycoms: &Commit2, crs: &CRS) -> (r:
        bool)
        requires
            crs.wf(),
            self.gamma.nrows() == xcoms.coms@.len(),
            self.gamma.ncols() == ycoms.coms@.len(),
            self.a_consts@.len() == ycoms.coms@.len(),
            self.b_consts@.len() == xcoms.coms@.len(),
            proof.pi.nrows() == 2,
            proof.pi.ncols() == 1,
            proof.theta.nrows() == 1,
            proof.theta.ncols() == 1,
        ensures
            r == (self.lhs_model(xcoms.coms@, ycoms.coms@, *crs) == self.rhs_model(*proof, *crs)),
    {
        let lin_a = Com1::batch_linear_map(&self.a_consts);
        let lhs1 = ComT::pairing_sum(&lin_a, &ycoms.coms);
        let slin_b = crs.v[1].batch_scalar_linear_map(&self.b_consts, &crs.g2_gen);
        let lhs2 = ComT::pairing_sum(&xcoms.coms, &slin_b);
        let d_col = vec_to_col_vec(&ycoms.coms);
        let gamma_d = d_col.left_mul(&self.gamma);
        let gd_vec = col_vec_to_vec(&gamma_d);
        let lhs3 = ComT::pairing_sum(&xcoms.coms, &gd_vec);
        let lhs = lhs1.add(&lhs2).add(&lhs3);

        let lin_t = ComT::linear_map_MSMEG1(&self.target, &crs.v[1], &crs.g2_gen);
        let pi_vec = col_vec_to_vec(&proof.pi);
        let rhs2 = ComT::pairing_sum(&crs.u, &pi_vec);
        let th_vec = col_vec_to_vec(&proof.theta);
        let v0_vec = vec![crs.v[0]];
        let rhs3 = ComT::pairing_sum(&th_vec, &v0_vec);
        let rhs = lin_t.add(&rhs2).add(&rhs3);

        proof {
            assert(c1_models(lin_a@) =~= lin1_models(self.a_consts@));
            assert(c2_models(slin_b@) =~= slin_models(
                crs.v@[1].model(),
                g2_log(crs.g2_gen),
                self.b_consts@,
            ));
            assert(d_col.col_models(0) =~= c2_models(ycoms.coms@));
            assert forall|i: int| 0 <= i < gd_vec@.len() implies (#[trigger] c2_models(gd_vec@)[i])
                == gamma_mixed(self.gamma, c2_models(ycoms.coms@))[i] by {
                assert(gd_vec@[i] == gamma_d.entry(i, 0));
                assert(gamma_d.cell(i, 0) == dot(d_col.col_models(0), self.gamma.svals_row(i), 2));
            };
            assert(c2_models(gd_vec@) =~= gamma_mixed(self.gamma, c2_models(ycoms.coms@)));
            assert(c2_models(pi_vec@) =~= col_cells2(proof.pi));
            assert(c1_models(th_vec@) =~= col_cells1(proof.theta));
            assert(c2_models(v0_vec@) =~= c2_models(seq![crs.v@[0]]));
            assert(lhs.model() == self.lhs_model(xcoms.coms@, ycoms.coms@, *crs));
            assert(rhs.model() == self.rhs_model(*proof, *crs));
        }
        lhs.eq_elem(&rhs)
    }
}

impl MSMEG2 {
    /// The left side of the verification identity.
    pub open spec fn lhs_model(self, c: Seq<Com1>, d: Seq<Com2>, key: CRS) -> Seq<int> {
        madd(
            madd(
                ps_model(
                    slin_models(key.u@[1].model(), g1_log(key.g1_gen), self.a_consts@),
                    c2_models(d),
                ),
                ps_model(c1_models(c), lin2_models(self.b_consts@)),
            ),
            ps_model(c1_models(c), gamma_mixed(self.gamma, c2_models(d))),
        )
    }

    /// The right side of the verification identity.
    pub open spec fn rhs_model(self, pf: EquProof, key: CRS) -> Seq<int> {
        madd(
            madd(
                pairing_model(
                    madd(key.u@[1].model(), seq![0int, g1_log(key.g1_gen)]),
                    seq![0int, g2_log(self.target)],
                ),
                ps_model(c1_models(seq![key.u@[0]]), col_cells2(pf.pi)),
            ),
            ps_model(col_cells1(pf.theta), c2_models(key.v@)),
        )
    }

    /// Whether the proof satisfies the closing identity.
    #[verifier::rlimit(100)]
    pub fn verify(&self, proof: &EquProof, xcoms: &Commit1, ycoms: &Commit2, crs: &CRS) -> (r:
        bool)
        requires
            crs.wf(),
            self.gamma.nrows() == xcoms.coms@.len(),
            self.gamma.ncols() == ycoms.coms@.len(),
            self.a_consts@.len() == ycoms.coms@.len(),
            self.b_consts@.len() == xcoms.coms@.len(),
            proof.pi.nrows() == 1,
            proof.pi.ncols() == 1,
            proof.theta.nrows() == 2,
            proof.theta.ncols() == 1,
        ensures
            r == (self.lhs_model(xcoms.coms@, ycoms.coms@, *crs) == self.rhs_model(*proof, *crs)),
    {
        let slin_a = crs.u[1].batch_scalar_linear_map(&self.a_consts, &crs.g1_gen);
        let lhs1 = ComT::pairing_sum(&slin_a, &ycoms.coms);
        let lin_b = Com2::batch_linear_map(&self.b_consts);
        let lhs2 = ComT::pairing_sum(&xcoms.coms, &lin_b);
        let d_col = vec_to_col_vec(&ycoms.coms);
        let gamma_d = d_col.left_mul(&self.gamma);
        let gd_vec = col_vec_to_vec(&gamma_d);
        let lhs3 = ComT::pairing_sum(&xcoms.coms, &gd_vec);
        let lhs = lhs1.add(&lhs2).add(&lhs3);

        let lin_t = ComT::linear_map_MSMEG2(&self.target, &crs.u[1], &crs.g1_gen);
        let pi_vec = col_vec_to_vec(&proof.pi);
        let u0_vec = vec![crs.u[0]];
        let rhs2 = ComT::pairing_sum(&u0_vec, &pi_vec);
        let th_vec = col_vec_to_vec(&proof.theta);
        let rhs3 = ComT::pairing_sum(&th_vec, &crs.v);
        let rhs = lin_t.add(&rhs2).add(&rhs3);

        proof {
            assert(c1_models(slin_a@) =~= slin_models(
                crs.u@[1].model(),
                g1_log(crs.g1_gen),
                self.a_consts@,
            ));
            assert(c2_models(lin_b@) =~= lin2_models(self.b_consts@));
            assert(d_col.col_models(0) =~= c2_models(ycoms.coms@));
            assert forall|i: int| 0 <= i < gd_vec@.len() implies (#[trigger] c2_models(gd_vec@)[i])
                == gamma_mixed(self.gamma, c2_models(ycoms.coms@))[i] by {
                assert(gd_vec@[i] == gamma_d.entry(i, 0));
                assert(gamma_d.cell(i, 0) == dot(d_col.col_models(0), self.gamma.svals_row(i), 2));
            };
            assert(c2_models(gd_vec@) =~= gamma_mixed(self.gamma, c2_models(ycoms.coms@)));
            assert(c2_models(pi_vec@) =~= col_cells2(proof.pi));
            assert(c1_models(th_vec@) =~= col_cells1(proof.theta));
            assert(c1_models(u0_vec@) =~= c1_models(seq![crs.u@[0]]));
            assert(lhs.model() == self.lhs_model(xcoms.coms@, ycoms.coms@, *crs));
            assert(rhs.model() == self.rhs_model(*proof, *crs));
        }
        lhs.eq_elem(&rhs)
    }
}

impl QuadEqu {
    /// The left side of the verification identity.
    pub open spec fn lhs_model(self, c: Seq<Com1>, d: Seq<Com2>, key: CRS) -> Seq<int> {
        madd(
            madd(
                ps_model(
                    slin_models(key.u@[1].model(), g1_log(key.g1_gen), self.a_consts@),
                    c2_models(d),
                ),
                ps_model(
                    c1_models(c),
                    slin_models(key.v@[1].model(), g2_log(key.g2_gen), self.b_consts@),
                ),
            ),
            ps_model(c1_models(c), gamma_mixed(self.gamma, c2_models(d))),
        )
    }

    /// The right side of the verification identity.
    pub open spec fn rhs_model(self, pf: EquProof, key: CRS) -> Seq<int> {
        madd(
            madd(
                pairing_model(
                    madd(key.u@[1].model(), seq![0int, g1_log(key.g1_gen)]),
                    mscale(
                        madd(key.v@[1].model(), seq![0int, g2_log(key.g2_gen)]),
                        fr_val(self.target),
                    ),
                ),
                ps_model(c1_models(seq![key.u@[0]]), col_cells2(pf.pi)),
            ),
            ps_model(col_cells1(pf.theta), c2_models(seq![key.v@[0]])),
        )
    }

    /// Whether the proof satisfies the closing identity.
    #[verifier::rlimit(100)]
    pub fn verify(&self, proof: &EquProof, xcoms: &Commit1, ycoms: &Commit2, crs: &CRS) -> (r:
        bool)
        requires
            crs.wf(),
            self.gamma.nrows() == xcoms.coms@.len(),
            self.gamma.ncols() == ycoms.coms@.len(),
            self.a_consts@.len() == ycoms.coms@.len(),
            self.b_consts@.len() == xcoms.coms@.len(),
            proof.pi.nrows() == 1,
            proof.pi.ncols() == 1,
            proof.theta.nrows() == 1,
            proof.theta.ncols() == 1,
        ensures
            r == (self.lhs_model(xcoms.coms@, ycoms.coms@, *crs) == self.rhs_model(*proof, *crs)),
    {
        let slin_a = crs.u[1].batch_scalar_linear_map(&self.a_consts, &crs.g1_gen);
        let lhs1 = ComT::pairing_sum(&slin_a, &ycoms.coms);
        let slin_b = crs.v[1].batch_scalar_linear_map(&self.b_consts, &crs.g2_gen);
        let lhs2 = ComT::pairing_sum(&xcoms.coms, &slin_b);
        let d_col = vec_to_col_vec(&ycoms.coms);
        let gamma_d = d_col.left_mul(&self.gamma);
        let gd_vec = col_vec_to_vec(&gamma_d);
        let lhs3 = ComT::pairing_sum(&xcoms.coms, &gd_vec);
        let lhs = lhs1.add(&lhs2).add(&lhs3);

        let lin_t = ComT::linear_map_quad(&self.target, &crs.u[1], &crs.g1_gen, &crs.v[1], &crs.g2_gen);
        let pi_vec = col_vec_to_vec(&proof.pi);
        let u0_vec = vec![crs.u[0]];
        let rhs2 = ComT::pairing_sum(&u0_vec, &pi_vec);
        let th_vec = col_vec_to_vec(&proof.theta);
        let v0_vec = vec![crs.v[0]];
        let rhs3 = ComT::pairing_sum(&th_vec, &v0_vec);
        let rhs = lin_t.add(&rhs2).add(&rhs3);

        proof {
            assert(c1_models(slin_a@) =~= slin_models(
                crs.u@[1].model(),
                g1_log(crs.g1_gen),
                self.a_consts@,
            ));
            assert(c2_models(slin_b@) =~= slin_models(
                crs.v@[1].model(),
                g2_log(crs.g2_gen),
                self.b_consts@,
            ));
            assert(d_col.col_models(0) =~= c2_models(ycoms.coms@));
            assert forall|i: int| 0 <= i < gd_vec@.len() implies (#[trigger] c2_models(gd_vec@)[i])
                == gamma_mixed(self.gamma, c2_models(ycoms.coms@))[i] by {
                assert(gd_vec@[i] == gamma_d.entry(i, 0));
                assert(gamma_d.cell(i, 0) == dot(d_col.col_models(0), self.gamma.svals_row(i), 2));
            };
            assert(c2_models(gd_vec@) =~= gamma_mixed(self.gamma, c2_models(ycoms.coms@)));
            assert(c2_models(pi_vec@) =~= col_cells2(proof.pi));
            assert(c1_models(th_vec@) =~= col_cells1(proof.theta));
            assert(c1_models(u0_vec@) =~= c1_models(seq![crs.u@[0]]));
            assert(c2_models(v0_vec@) =~= c2_models(seq![crs.v@[0]]));
            assert(lhs.model() == self.lhs_model(xcoms.coms@, ycoms.coms@, *crs));
            assert(rhs.model() == self.rhs_model(*proof, *crs));
        }
        lhs.eq_elem(&rhs)
    }
}

} // verus!
