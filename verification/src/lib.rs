//! Groth-Sahai proofs over the BLS12-381 bilinear group, in the SXDH
//! instantiation: commitment-group algebra, randomized commitments, and
//! witness-indistinguishable proofs of satisfiability for the four supported
//! equation shapes.

use vstd::prelude::*;

pub mod adapter;
pub mod codec;
pub mod com;
pub mod commit;
pub mod com_t;
pub mod data_structures;
pub mod generator;
pub mod matrix;
pub mod prover;
pub mod statement;
pub mod verification;

verus! {

pub use adapter::fr_bytes;
pub use adapter::fr_order;
pub use adapter::fr_val;
pub use adapter::g1_bytes;
pub use adapter::g1_enc_len;
pub use adapter::g1_log;
pub use adapter::g2_bytes;
pub use adapter::g2_enc_len;
pub use adapter::g2_log;
pub use adapter::gt_bytes;
pub use adapter::gt_log;
pub use adapter::pair_fold;
pub use adapter::G1Affine;
pub use adapter::G2Affine;
pub use adapter::Gt;
pub use adapter::RandSource;
pub use adapter::Scalar;
pub use codec::com1_enc;
pub use codec::com1_list_enc;
pub use codec::com1_mat_enc;
pub use codec::com1_rows_enc;
pub use codec::com2_enc;
pub use codec::com2_list_enc;
pub use codec::com2_mat_enc;
pub use codec::com2_rows_enc;
pub use codec::commit1_enc;
pub use codec::commit2_enc;
pub use codec::comt_enc;
pub use codec::fr_cells_enc;
pub use codec::fr_mat_enc;
pub use codec::fr_rows_enc;
pub use codec::fr_vec_enc;
pub use codec::parse_com1_matrix;
pub use codec::parse_com2_matrix;
pub use codec::parse_scalar_matrix;
pub use codec::proof_enc;
pub use codec::u64_le;
pub use codec::svals;
pub use codec::fr_cells_decodable;
pub use codec::fr_mat_decodable;
pub use codec::fr_mat_hyp;
pub use codec::com1_list_decodable;
pub use codec::com2_list_decodable;
pub use codec::com1_mat_decodable;
pub use codec::com2_mat_decodable;
pub use codec::com1_mat_hyp;
pub use codec::com2_mat_hyp;
pub use codec::commit1_hyp;
pub use codec::commit2_hyp;
pub use com::lemma_com1_add_neg;
pub use com::lemma_com1_scalar_mul_laws;
pub use com::lemma_com1_zero_identity;
pub use com::lemma_com2_add_neg;
pub use com::lemma_com2_scalar_mul_laws;
pub use com::lemma_com2_zero_identity;
pub use com::Com1;
pub use com::Com2;
pub use com_t::c1_models;
pub use com_t::c2_models;
pub use com_t::col0;
pub use com_t::col1;
pub use com_t::lemma_pairing_sum_pair;
pub use com_t::lemma_pairing_zero;
pub use com_t::pairing_model;
pub use com_t::ps_model;
pub use com_t::ComT;
pub use commit::batch_commit_scalar_to_B1;
pub use commit::batch_commit_scalar_to_B2;
pub use commit::batch_commit_G1;
pub use commit::batch_commit_G2;
pub use commit::commit_scalar_to_B1;
pub use commit::commit_scalar_to_B2;
pub use commit::commit_G1;
pub use commit::commit_G2;
pub use commit::Commit1;
pub use commit::Commit2;
pub use data_structures::madd;
pub use data_structures::mneg;
pub use data_structures::mscale;
pub use data_structures::msum;
pub use data_structures::mwf;
pub use data_structures::mzero;
pub use data_structures::Element;
pub use data_structures::ModuleElem;
pub use data_structures::B1;
pub use data_structures::B2;
pub use data_structures::BT;
pub use generator::CRS;
pub use matrix::col_vec_to_vec;
pub use matrix::dot;
pub use matrix::lemma_dot_as_sdot;
pub use matrix::lemma_dot_distributes;
pub use matrix::lemma_dot_is_scaled_sum;
pub use matrix::lemma_dot_len;
pub use matrix::lemma_dot_step;
pub use matrix::lemma_right_mul_assoc;
pub use matrix::lemma_right_mul_distributes;
pub use matrix::lemma_sdot_assoc;
pub use matrix::sdot;
pub use matrix::vec_to_col_vec;
pub use matrix::Matrix;
pub use statement::EquProof;
pub use statement::EquType;
pub use statement::MSMEG1;
pub use statement::MSMEG2;
pub use statement::QuadEqu;
pub use statement::PPE;
pub use prover::ppe_pi_cell;
pub use prover::ppe_theta_cell;
pub use prover::msme1_pi_cell;
pub use prover::msme1_theta_cell;
pub use prover::msme2_pi_cell;
pub use prover::msme2_theta_cell;
pub use prover::quad_pi_cell;
pub use prover::quad_theta_cell;
pub use verification::lin1_models;
pub use verification::lin2_models;
pub use verification::slin_models;
pub use verification::gamma_mixed;
pub use matrix::lemma_dims_nonneg;

} // verus!
