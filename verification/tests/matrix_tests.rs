#![allow(non_snake_case)]

use groth_sahai::col_vec_to_vec;
use groth_sahai::vec_to_col_vec;
use groth_sahai::Com1;
use groth_sahai::Com2;
use groth_sahai::G1Affine;
use groth_sahai::G2Affine;
use groth_sahai::Matrix;
use groth_sahai::ModuleElem;
use groth_sahai::RandSource;
use groth_sahai::Scalar;

fn s(n: u64) -> Scalar {
    Scalar::from_u64(n)
}

fn test_rng() -> RandSource {
    RandSource::from_seed(0)
}

fn b1(g: &G1Affine, n: u64) -> Com1 {
    Com1::new(G1Affine::zero(), g.mul(&s(n)))
}

fn b2(g: &G2Affine, n: u64) -> Com2 {
    Com2::new(G2Affine::zero(), g.mul(&s(n)))
}

#[test]
fn test_col_vec_to_vec() {
    let mat = Matrix::new(&[[s(1)], [s(2)], [s(3)]]);
    let vec: Vec<Scalar> = col_vec_to_vec(&mat);
    let exp = vec![s(1), s(2), s(3)];
    assert!(vec == exp);
}

#[test]
fn test_vec_to_col_vec() {
    let vec = vec![s(1), s(2), s(3)];
    let mat = vec_to_col_vec(&vec);
    let exp = Matrix::new(&[[s(1)], [s(2)], [s(3)]]);
    assert!(mat == exp);
}

#[test]
fn test_field_matrix_left_mul_entry() {
    // 1 x 3 (row) vector
    let lhs = Matrix::new(&[[s(1), s(2), s(3)]]);
    // 3 x 1 (column) vector
    let rhs = Matrix::new(&[[s(4)], [s(5)], [s(6)]]);
    let exp = Matrix::new(&[[s(32)]]);
    let res = rhs.left_mul(&lhs);

    assert!(res.dim() == (1, 1));
    assert!(exp == res);
}

#[test]
fn test_field_matrix_right_mul_entry() {
    let lhs = Matrix::new(&[[s(1), s(2), s(3)]]);
    let rhs = Matrix::new(&[[s(4)], [s(5)], [s(6)]]);
    let exp = Matrix::new(&[[s(32)]]);
    let res = lhs.right_mul(&rhs);

    assert!(res.dim() == (1, 1));
    assert!(exp == res);
}

#[test]
fn test_field_matrix_left_mul() {
    // 2 x 3 matrix
    let lhs = Matrix::new(&[[s(1), s(2), s(3)], [s(4), s(5), s(6)]]);
    // 3 x 4 matrix
    let rhs = Matrix::new(&[
        [s(7), s(8), s(9), s(10)],
        [s(11), s(12), s(13), s(14)],
        [s(15), s(16), s(17), s(18)],
    ]);
    let exp = Matrix::new(&[
        [s(74), s(80), s(86), s(92)],
        [s(173), s(188), s(203), s(218)],
    ]);
    let res = rhs.left_mul(&lhs);

    assert!(res.dim() == (2, 4));
    assert!(exp == res);
}

#[test]
fn test_field_matrix_right_mul() {
    let lhs = Matrix::new(&[[s(1), s(2), s(3)], [s(4), s(5), s(6)]]);
    let rhs = Matrix::new(&[
        [s(7), s(8), s(9), s(10)],
        [s(11), s(12), s(13), s(14)],
        [s(15), s(16), s(17), s(18)],
    ]);
    let exp = Matrix::new(&[
        [s(74), s(80), s(86), s(92)],
        [s(173), s(188), s(203), s(218)],
    ]);
    let res = lhs.right_mul(&rhs);

    assert!(res.dim() == (2, 4));
    assert!(exp == res);
}

#[test]
fn test_B1_matrix_left_mul_entry() {
    let mut rng = test_rng();
    let g1gen = G1Affine::rand(&mut rng);

    let lhs = Matrix::new(&[[s(1), s(2), s(3)]]);
    let rhs = Matrix::new(&[[b1(&g1gen, 4)], [b1(&g1gen, 5)], [b1(&g1gen, 6)]]);
    let exp = Matrix::new(&[[b1(&g1gen, 32)]]);
    let res = rhs.left_mul(&lhs);

    assert!(res.dim() == (1, 1));
    assert!(exp == res);
}

#[test]
fn test_B1_matrix_right_mul_entry() {
    let mut rng = test_rng();
    let g1gen = G1Affine::rand(&mut rng);
    let lhs = Matrix::new(&[[b1(&g1gen, 1), b1(&g1gen, 2), b1(&g1gen, 3)]]);
    let rhs = Matrix::new(&[[s(4)], [s(5)], [s(6)]]);
    let exp = Matrix::new(&[[b1(&g1gen, 32)]]);
    let res = lhs.right_mul(&rhs);

    assert!(res.dim() == (1, 1));
    assert!(exp == res);
}

#[test]
fn test_field_matrix_scalar_mul() {
    // 3 x 3 matrices
    let scalar: Scalar = s(3);
    let mat = Matrix::new(&[[s(1), s(2), s(3)], [s(4), s(5), s(6)], [s(7), s(8), s(9)]]);
    let exp = Matrix::new(&[[s(3), s(6), s(9)], [s(12), s(15), s(18)], [s(21), s(24), s(27)]]);
    let res = mat.scalar_mul(&scalar);

    assert!(exp == res);
}

#[test]
fn test_B1_matrix_scalar_mul() {
    let scalar: Scalar = s(3);
    let mut rng = test_rng();
    let g1gen = G1Affine::rand(&mut rng);
    let a = b1(&g1gen, 1);
    let e = b1(&g1gen, 3);
    let mat = Matrix::new(&[[a, a, a], [a, a, a], [a, a, a]]);
    let exp = Matrix::new(&[[e, e, e], [e, e, e], [e, e, e]]);
    let res = mat.scalar_mul(&scalar);

    assert!(exp == res);
}

#[test]
fn test_B2_matrix_scalar_mul() {
    let scalar: Scalar = s(3);
    let mut rng = test_rng();
    let g2gen = G2Affine::rand(&mut rng);
    let a = b2(&g2gen, 1);
    let e = b2(&g2gen, 3);
    let mat = Matrix::new(&[[a, a, a], [a, a, a], [a, a, a]]);
    let exp = Matrix::new(&[[e, e, e], [e, e, e], [e, e, e]]);
    let res = mat.scalar_mul(&scalar);

    assert!(exp == res);
}

#[test]
fn test_B1_transpose_vec() {
    let mut rng = test_rng();
    let g1gen = G1Affine::rand(&mut rng);
    // 1 x 3 (row) vector
    let mat = Matrix::new(&[[b1(&g1gen, 1), b1(&g1gen, 2), b1(&g1gen, 3)]]);
    // 3 x 1 transpose (column) vector
    let exp = Matrix::new(&[[b1(&g1gen, 1)], [b1(&g1gen, 2)], [b1(&g1gen, 3)]]);
    let res = mat.transpose();

    assert!(res.dim() == (3, 1));
    assert!(exp == res);
}

#[test]
fn test_B1_matrix_transpose() {
    let mut rng = test_rng();
    let g1gen = G1Affine::rand(&mut rng);
    let mat = Matrix::new(&[
        [b1(&g1gen, 1), b1(&g1gen, 2), b1(&g1gen, 3)],
        [b1(&g1gen, 4), b1(&g1gen, 5), b1(&g1gen, 6)],
        [b1(&g1gen, 7), b1(&g1gen, 8), b1(&g1gen, 9)],
    ]);
    let exp = Matrix::new(&[
        [b1(&g1gen, 1), b1(&g1gen, 4), b1(&g1gen, 7)],
        [b1(&g1gen, 2), b1(&g1gen, 5), b1(&g1gen, 8)],
        [b1(&g1gen, 3), b1(&g1gen, 6), b1(&g1gen, 9)],
    ]);
    let res = mat.transpose();

    assert!(res.dim() == (3, 3));
    assert!(exp == res);
}

#[test]
fn test_B2_transpose_vec() {
    let mut rng = test_rng();
    let g2gen = G2Affine::rand(&mut rng);
    let mat = Matrix::new(&[[b2(&g2gen, 1), b2(&g2gen, 2), b2(&g2gen, 3)]]);
    let exp = Matrix::new(&[[b2(&g2gen, 1)], [b2(&g2gen, 2)], [b2(&g2gen, 3)]]);
    let res = mat.transpose();

    assert!(res.dim() == (3, 1));
    assert!(exp == res);
}

#[test]
fn test_B2_matrix_transpose() {
    let mut rng = test_rng();
    let g2gen = G2Affine::rand(&mut rng);
    let mat = Matrix::new(&[
        [b2(&g2gen, 1), b2(&g2gen, 2), b2(&g2gen, 3)],
        [b2(&g2gen, 4), b2(&g2gen, 5), b2(&g2gen, 6)],
        [b2(&g2gen, 7), b2(&g2gen, 8), b2(&g2gen, 9)],
    ]);
    let exp = Matrix::new(&[
        [b2(&g2gen, 1), b2(&g2gen, 4), b2(&g2gen, 7)],
        [b2(&g2gen, 2), b2(&g2gen, 5), b2(&g2gen, 8)],
        [b2(&g2gen, 3), b2(&g2gen, 6), b2(&g2gen, 9)],
    ]);
    let res = mat.transpose();

    assert!(res.dim() == (3, 3));
    assert!(exp == res);
}

#[test]
fn test_field_transpose_vec() {
    let mat = Matrix::new(&[[s(1), s(2), s(3)]]);
    let exp = Matrix::new(&[[s(1)], [s(2)], [s(3)]]);
    let res = mat.transpose();

    assert!(res.dim() == (3, 1));
    assert!(exp == res);
}

#[test]
fn test_field_matrix_transpose() {
    let mat = Matrix::new(&[[s(1), s(2), s(3)], [s(4), s(5), s(6)], [s(7), s(8), s(9)]]);
    let exp = Matrix::new(&[[s(1), s(4), s(7)], [s(2), s(5), s(8)], [s(3), s(6), s(9)]]);
    let res = mat.transpose();

    assert!(res.dim() == (3, 3));
    assert!(exp == res);
}

#[test]
fn test_field_matrix_neg() {
    let mat = Matrix::new(&[[s(1), s(2), s(3)], [s(4), s(5), s(6)], [s(7), s(8), s(9)]]);
    let exp = Matrix::new(&[
        [s(1).neg(), s(2).neg(), s(3).neg()],
        [s(4).neg(), s(5).neg(), s(6).neg()],
        [s(7).neg(), s(8).neg(), s(9).neg()],
    ]);
    let res = mat.neg();

    assert!(res.dim() == (3, 3));
    assert!(exp == res);
}

fn neg1(c: Com1) -> Com1 {
    Com1::new(c.0.neg(), c.1.neg())
}

fn neg2(c: Com2) -> Com2 {
    Com2::new(c.0.neg(), c.1.neg())
}

#[test]
fn test_B1_matrix_neg() {
    let mut rng = test_rng();
    let g1gen = G1Affine::rand(&mut rng);
    let mat = Matrix::new(&[
        [b1(&g1gen, 1), b1(&g1gen, 2), b1(&g1gen, 3)],
        [b1(&g1gen, 4), b1(&g1gen, 5), b1(&g1gen, 6)],
        [b1(&g1gen, 7), b1(&g1gen, 8), b1(&g1gen, 9)],
    ]);
    let exp = Matrix::new(&[
        [neg1(b1(&g1gen, 1)), neg1(b1(&g1gen, 2)), neg1(b1(&g1gen, 3))],
        [neg1(b1(&g1gen, 4)), neg1(b1(&g1gen, 5)), neg1(b1(&g1gen, 6))],
        [neg1(b1(&g1gen, 7)), neg1(b1(&g1gen, 8)), neg1(b1(&g1gen, 9))],
    ]);
    let res = mat.neg();

    assert!(res.dim() == (3, 3));
    assert!(exp == res);
}

#[test]
fn test_B2_matrix_neg() {
    let mut rng = test_rng();
    let g2gen = G2Affine::rand(&mut rng);
    let mat = Matrix::new(&[
        [b2(&g2gen, 1), b2(&g2gen, 2), b2(&g2gen, 3)],
        [b2(&g2gen, 4), b2(&g2gen, 5), b2(&g2gen, 6)],
        [b2(&g2gen, 7), b2(&g2gen, 8), b2(&g2gen, 9)],
    ]);
    let exp = Matrix::new(&[
        [neg2(b2(&g2gen, 1)), neg2(b2(&g2gen, 2)), neg2(b2(&g2gen, 3))],
        [neg2(b2(&g2gen, 4)), neg2(b2(&g2gen, 5)), neg2(b2(&g2gen, 6))],
        [neg2(b2(&g2gen, 7)), neg2(b2(&g2gen, 8)), neg2(b2(&g2gen, 9))],
    ]);
    let res = mat.neg();

    assert!(res.dim() == (3, 3));
    assert!(exp == res);
}

#[test]
fn test_field_matrix_add() {
    let lhs = Matrix::new(&[[s(1), s(2), s(3)], [s(4), s(5), s(6)], [s(7), s(8), s(9)]]);
    let rhs = Matrix::new(&[[s(10), s(11), s(12)], [s(13), s(14), s(15)], [s(16), s(17), s(18)]]);
    let exp = Matrix::new(&[[s(11), s(13), s(15)], [s(17), s(19), s(21)], [s(23), s(25), s(27)]]);
    let lr = lhs.add(&rhs);
    let rl = rhs.add(&lhs);

    assert!(lr.dim() == (3, 3));
    assert!(exp == lr);
    assert!(lr == rl);
}

#[test]
fn test_B1_matrix_add() {
    let mut rng = test_rng();
    let g1gen = G1Affine::rand(&mut rng);
    let lhs = Matrix::new(&[
        [b1(&g1gen, 1), b1(&g1gen, 2), b1(&g1gen, 3)],
        [b1(&g1gen, 4), b1(&g1gen, 5), b1(&g1gen, 6)],
        [b1(&g1gen, 7), b1(&g1gen, 8), b1(&g1gen, 9)],
    ]);
    let rhs = Matrix::new(&[
        [b1(&g1gen, 10), b1(&g1gen, 11), b1(&g1gen, 12)],
        [b1(&g1gen, 13), b1(&g1gen, 14), b1(&g1gen, 15)],
        [b1(&g1gen, 16), b1(&g1gen, 17), b1(&g1gen, 18)],
    ]);
    let exp = Matrix::new(&[
        [b1(&g1gen, 11), b1(&g1gen, 13), b1(&g1gen, 15)],
        [b1(&g1gen, 17), b1(&g1gen, 19), b1(&g1gen, 21)],
        [b1(&g1gen, 23), b1(&g1gen, 25), b1(&g1gen, 27)],
    ]);
    let lr = lhs.add(&rhs);
    let rl = rhs.add(&lhs);

    assert!(lr.dim() == (3, 3));
    assert!(exp == lr);
    assert!(lr == rl);
}

#[test]
fn test_B2_matrix_add() {
    let mut rng = test_rng();
    let g2gen = G2Affine::rand(&mut rng);
    let lhs = Matrix::new(&[
        [b2(&g2gen, 1), b2(&g2gen, 2), b2(&g2gen, 3)],
        [b2(&g2gen, 4), b2(&g2gen, 5), b2(&g2gen, 6)],
        [b2(&g2gen, 7), b2(&g2gen, 8), b2(&g2gen, 9)],
    ]);
    let rhs = Matrix::new(&[
        [b2(&g2gen, 10), b2(&g2gen, 11), b2(&g2gen, 12)],
        [b2(&g2gen, 13), b2(&g2gen, 14), b2(&g2gen, 15)],
        [b2(&g2gen, 16), b2(&g2gen, 17), b2(&g2gen, 18)],
    ]);
    let exp = Matrix::new(&[
        [b2(&g2gen, 11), b2(&g2gen, 13), b2(&g2gen, 15)],
        [b2(&g2gen, 17), b2(&g2gen, 19), b2(&g2gen, 21)],
        [b2(&g2gen, 23), b2(&g2gen, 25), b2(&g2gen, 27)],
    ]);
    let lr = lhs.add(&rhs);
    let rl = rhs.add(&lhs);

    assert!(lr.dim() == (3, 3));
    assert!(exp == lr);
    assert!(lr == rl);
}
