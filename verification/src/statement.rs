//! The four equation shapes the proof system supports.  An equation is pure
//! data: constant vectors, a bilinear coefficient matrix `gamma` whose cell
//! `(i, j)` weighs the cross term between the `i`-th first-side witness and
//! the `j`-th second-side witness, and a target in the equation's codomain.

use crate::adapter::G1Affine;
use crate::adapter::G2Affine;
use crate::adapter::Gt;
use crate::adapter::Scalar;
use crate::com::Com1;
use crate::com::Com2;
use crate::matrix::Matrix;
use vstd::prelude::*;

verus! {

/// Which of the four equation shapes a statement has.
pub enum EquType {
    PairingProduct,
    MultiScalarG1,
    MultiScalarG2,
    Quadratic,
}

/// A proof of satisfiability: two small matrices of commitment-group
/// elements, consumed once by the verifier.
pub struct EquProof {
    pub pi: Matrix<Com2>,
    pub theta: Matrix<Com1>,
}

/// Pairing-product equation: for witnesses `X` in `G1` and `Y` in `G2`,
/// `sum_j e(A_j, Y_j) + sum_i e(X_i, B_i) + sum_ij gamma_ij e(X_i, Y_j) = t`
/// with `t` in the pairing target group.
#[allow(non_camel_case_types)]
pub struct PPE {
    pub a_consts: Vec<G1Affine>,
    pub b_consts: Vec<G2Affine>,
    pub gamma: Matrix<Scalar>,
    pub target: Gt,
}

/// Multi-scalar multiplication equation in `G1`: for witnesses `X` in `G1`
/// and scalars `y`,
/// `sum_j y_j * A_j + sum_i b_i * X_i + sum_ij gamma_ij y_j * X_i = t` with
/// `t` in `G1`.
#[allow(non_camel_case_types)]
pub struct MSMEG1 {
    pub a_consts: Vec<G1Affine>,
    pub b_consts: Vec<Scalar>,
    pub gamma: Matrix<Scalar>,
    pub target: G1Affine,
}

/// Multi-scalar multiplication equation in `G2`: for scalar witnesses `x`
/// and witnesses `Y` in `G2`,
/// `sum_j a_j * Y_j + sum_i x_i * B_i + sum_ij gamma_ij x_i * Y_j = t` with
/// `t` in `G2`.
#[allow(non_camel_case_types)]
pub struct MSMEG2 {
    pub a_consts: Vec<Scalar>,
    pub b_consts: Vec<G2Affine>,
    pub gamma: Matrix<Scalar>,
    pub target: G2Affine,
}

/// Quadratic equation over the scalar field: for scalar witnesses `x`, `y`,
/// `sum_j a_j y_j + sum_i x_i b_i + sum_ij gamma_ij x_i y_j = t`.
pub struct QuadEqu {
    pub a_consts: Vec<Scalar>,
    pub b_consts: Vec<Scalar>,
    pub gamma: Matrix<Scalar>,
    pub target: Scalar,
}

impl PPE {
    /// The tag of this equation shape.
    pub fn equ_type(&self) -> (r: EquType)
        ensures
            r is PairingProduct,
    {
        EquType::PairingProduct
    }
}

impl MSMEG1 {
    /// The tag of this equation shape.
    pub fn equ_type(&self) -> (r: EquType)
        ensures
            r is MultiScalarG1,
    {
        EquType::MultiScalarG1
    }
}

impl MSMEG2 {
    /// The tag of this equation shape.
    pub fn equ_type(&self) -> (r: EquType)
        ensures
            r is MultiScalarG2,
    {
        EquType::MultiScalarG2
    }
}

impl QuadEqu {
    /// The tag of this equation shape.
    pub fn equ_type(&self) -> (r: EquType)
        ensures
            r is Quadratic,
    {
        EquType::Quadratic
    }
}

} // verus!
