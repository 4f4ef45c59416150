#![allow(non_snake_case)]

use groth_sahai::batch_commit_scalar_to_B1;
use groth_sahai::batch_commit_scalar_to_B2;
use groth_sahai::batch_commit_G1;
use groth_sahai::batch_commit_G2;
use groth_sahai::col_vec_to_vec;
use groth_sahai::vec_to_col_vec;
use groth_sahai::Com2;
use groth_sahai::EquProof;
use groth_sahai::G1Affine;
use groth_sahai::G2Affine;
use groth_sahai::Gt;
use groth_sahai::Matrix;
use groth_sahai::ModuleElem;
use groth_sahai::RandSource;
use groth_sahai::Scalar;
use groth_sahai::CRS;
use groth_sahai::MSMEG1;
use groth_sahai::MSMEG2;
use groth_sahai::PPE;
use groth_sahai::QuadEqu;

fn s(n: u64) -> Scalar {
    Scalar::from_u64(n)
}

fn test_rng() -> RandSource {
    RandSource::from_seed(0)
}

#[test]
fn pairing_product_equation_verifies() {
    let mut rng = test_rng();
    let crs = CRS::generate_crs(&mut rng);

    // An equation of the form e(X_2, c_2) * e(c_1, Y_1) * e(X_1, Y_1)^5 = t
    // where t = e(3 g1, c_2) * e(c_1, 4 g2) * e(2 g1, 4 g2)^5 is satisfied by
    // variables X_1, X_2 in G1 and Y_1 in G2, and constants c_1 in G1 and
    // c_2 in G2.

    // X = [ X_1, X_2 ] = [2 g1, 3 g1]
    let xvars: Vec<G1Affine> = vec![crs.g1_gen.mul(&s(2)), crs.g1_gen.mul(&s(3))];
    // Y = [ Y_1 ] = [4 g2]
    let yvars: Vec<G2Affine> = vec![crs.g2_gen.mul(&s(4))];
    let xcoms = batch_commit_G1(&xvars, &crs, &mut rng);
    let ycoms = batch_commit_G2(&yvars, &crs, &mut rng);

    // A = [ c_1 ] (i.e. e(c_1, Y_1) term in equation)
    let a_consts: Vec<G1Affine> = vec![crs.g1_gen.mul(&Scalar::rand(&mut rng))];
    // B = [ 0, c_2 ] (i.e. only e(X_2, c_2) term in equation)
    let b_consts: Vec<G2Affine> = vec![G2Affine::zero(), crs.g2_gen.mul(&Scalar::rand(&mut rng))];
    // Gamma = [[5], [0]] (i.e. only e(X_1, Y_1)^5 term)
    let gamma: Matrix<Scalar> = Matrix::from_vecs(&vec![vec![s(5)], vec![Scalar::zero()]]);
    // Target: all together (e(X_1, Y_1)^5 = e(X_1, 5 Y_1) by bilinearity)
    let target: Gt = Gt::pairing(&xvars[1], &b_consts[1])
        .add(&Gt::pairing(&a_consts[0], &yvars[0]))
        .add(&Gt::pairing(&xvars[0], &yvars[0].mul(&s(5))));
    let equ = PPE { a_consts, b_consts, gamma, target };

    let proof: EquProof = equ.prove(&xvars, &yvars, &xcoms, &ycoms, &crs, &mut rng);
    assert!(equ.verify(&proof, &xcoms, &ycoms, &crs));
}

#[test]
fn pairing_product_tampered_proof_rejected() {
    let mut rng = test_rng();
    let crs = CRS::generate_crs(&mut rng);

    let xvars: Vec<G1Affine> = vec![crs.g1_gen.mul(&s(2)), crs.g1_gen.mul(&s(3))];
    let yvars: Vec<G2Affine> = vec![crs.g2_gen.mul(&s(4))];
    let xcoms = batch_commit_G1(&xvars, &crs, &mut rng);
    let ycoms = batch_commit_G2(&yvars, &crs, &mut rng);

    let a_consts: Vec<G1Affine> = vec![crs.g1_gen.mul(&Scalar::rand(&mut rng))];
    let b_consts: Vec<G2Affine> = vec![G2Affine::zero(), crs.g2_gen.mul(&Scalar::rand(&mut rng))];
    let gamma: Matrix<Scalar> = Matrix::from_vecs(&vec![vec![s(5)], vec![Scalar::zero()]]);
    let target: Gt = Gt::pairing(&xvars[1], &b_consts[1])
        .add(&Gt::pairing(&a_consts[0], &yvars[0]))
        .add(&Gt::pairing(&xvars[0], &yvars[0].mul(&s(5))));
    let equ = PPE { a_consts, b_consts, gamma, target };

    let proof: EquProof = equ.prove(&xvars, &yvars, &xcoms, &ycoms, &crs, &mut rng);
    assert!(equ.verify(&proof, &xcoms, &ycoms, &crs));

    // Disturb one component of the proof: verification must reject it.
    let mut pi_entries = col_vec_to_vec(&proof.pi);
    pi_entries[0] = pi_entries[0].add(&Com2::linear_map(&crs.g2_gen));
    let tampered = EquProof { pi: vec_to_col_vec(&pi_entries), theta: proof.theta };
    assert!(!equ.verify(&tampered, &xcoms, &ycoms, &crs));
}

#[test]
fn multi_scalar_mult_equation_G1_verifies() {
    let mut rng = test_rng();
    let crs = CRS::generate_crs(&mut rng);

    // An equation of the form c_2 * X_2 + y_1 * c_1 + 5 * (y_1 * X_1) = t
    // where t = c_2 * (3 g1) + 4 * c_1 + 5 * (4 * (2 g1)) is satisfied by
    // variables X_1, X_2 in G1 and y_1 in Fr, and constants c_1 in G1 and
    // c_2 in Fr.

    // X = [ X_1, X_2 ] = [2 g1, 3 g1]
    let xvars: Vec<G1Affine> = vec![crs.g1_gen.mul(&s(2)), crs.g1_gen.mul(&s(3))];
    // y = [ y_1 ] = [ 4 ]
    let scalar_yvars: Vec<Scalar> = vec![s(4)];
    let xcoms = batch_commit_G1(&xvars, &crs, &mut rng);
    let scalar_ycoms = batch_commit_scalar_to_B2(&scalar_yvars, &crs, &mut rng);

    // A = [ c_1 ] (i.e. y_1 * c_1 term in equation)
    let a_consts: Vec<G1Affine> = vec![crs.g1_gen.mul(&Scalar::rand(&mut rng))];
    // B = [ 0, c_2 ] (i.e. only c_2 * X_2 term in equation)
    let b_consts: Vec<Scalar> = vec![Scalar::zero(), Scalar::rand(&mut rng)];
    // Gamma = [[5], [0]] (i.e. only 5 * (y_1 * X_1) term)
    let gamma: Matrix<Scalar> = Matrix::from_vecs(&vec![vec![s(5)], vec![Scalar::zero()]]);
    // Target: all together
    let target: G1Affine = xvars[1]
        .mul(&b_consts[1])
        .add(&a_consts[0].mul(&scalar_yvars[0]))
        .add(&xvars[0].mul(&scalar_yvars[0].mul(&s(5))));
    let equ = MSMEG1 { a_consts, b_consts, gamma, target };

    let proof: EquProof = equ.prove(&xvars, &scalar_yvars, &xcoms, &scalar_ycoms, &crs, &mut rng);
    assert!(equ.verify(&proof, &xcoms, &scalar_ycoms, &crs));
}

#[test]
fn multi_scalar_mult_equation_G1_mutated_statement_rejected() {
    let mut rng = test_rng();
    let crs = CRS::generate_crs(&mut rng);

    let xvars: Vec<G1Affine> = vec![crs.g1_gen.mul(&s(2)), crs.g1_gen.mul(&s(3))];
    let scalar_yvars: Vec<Scalar> = vec![s(4)];
    let xcoms = batch_commit_G1(&xvars, &crs, &mut rng);
    let scalar_ycoms = batch_commit_scalar_to_B2(&scalar_yvars, &crs, &mut rng);

    let a_consts: Vec<G1Affine> = vec![crs.g1_gen.mul(&Scalar::rand(&mut rng))];
    let b_consts: Vec<Scalar> = vec![Scalar::zero(), Scalar::rand(&mut rng)];
    let gamma: Matrix<Scalar> = Matrix::from_vecs(&vec![vec![s(5)], vec![Scalar::zero()]]);
    let target: G1Affine = xvars[1]
        .mul(&b_consts[1])
        .add(&a_consts[0].mul(&scalar_yvars[0]))
        .add(&xvars[0].mul(&scalar_yvars[0].mul(&s(5))));
    let equ = MSMEG1 {
        a_consts: a_consts.clone(),
        b_consts: b_consts.clone(),
        gamma: Matrix::from_vecs(&vec![vec![s(5)], vec![Scalar::zero()]]),
        target,
    };

    let proof: EquProof = equ.prove(&xvars, &scalar_yvars, &xcoms, &scalar_ycoms, &crs, &mut rng);
    assert!(equ.verify(&proof, &xcoms, &scalar_ycoms, &crs));

    // Changing any constant or the target without re-proving must fail.
    let bad_target = MSMEG1 {
        a_consts: a_consts.clone(),
        b_consts: b_consts.clone(),
        gamma: Matrix::from_vecs(&vec![vec![s(5)], vec![Scalar::zero()]]),
        target: target.add(&crs.g1_gen),
    };
    assert!(!bad_target.verify(&proof, &xcoms, &scalar_ycoms, &crs));

    let bad_a = MSMEG1 {
        a_consts: vec![a_consts[0].add(&crs.g1_gen)],
        b_consts: b_consts.clone(),
        gamma: Matrix::from_vecs(&vec![vec![s(5)], vec![Scalar::zero()]]),
        target,
    };
    assert!(!bad_a.verify(&proof, &xcoms, &scalar_ycoms, &crs));

    let bad_b = MSMEG1 {
        a_consts: a_consts.clone(),
        b_consts: vec![Scalar::one(), b_consts[1]],
        gamma: Matrix::from_vecs(&vec![vec![s(5)], vec![Scalar::zero()]]),
        target,
    };
    assert!(!bad_b.verify(&proof, &xcoms, &scalar_ycoms, &crs));
}

#[test]
fn multi_scalar_mult_equation_G2_verifies() {
    let mut rng = test_rng();
    let crs = CRS::generate_crs(&mut rng);

    // An equation of the form a_1 * Y_1 + x_2 * c_2 + 5 * (x_1 * Y_1) = t
    // with variables x_1, x_2 in Fr and Y_1 in G2.
    let scalar_xvars: Vec<Scalar> = vec![s(2), s(3)];
    let yvars: Vec<G2Affine> = vec![crs.g2_gen.mul(&s(4))];
    let scalar_xcoms = batch_commit_scalar_to_B1(&scalar_xvars, &crs, &mut rng);
    let ycoms = batch_commit_G2(&yvars, &crs, &mut rng);

    let a_consts: Vec<Scalar> = vec![Scalar::rand(&mut rng)];
    let b_consts: Vec<G2Affine> = vec![G2Affine::zero(), crs.g2_gen.mul(&Scalar::rand(&mut rng))];
    let gamma: Matrix<Scalar> = Matrix::from_vecs(&vec![vec![s(5)], vec![Scalar::zero()]]);
    let target: G2Affine = yvars[0]
        .mul(&a_consts[0])
        .add(&b_consts[1].mul(&scalar_xvars[1]))
        .add(&yvars[0].mul(&scalar_xvars[0].mul(&s(5))));
    let equ = MSMEG2 { a_consts, b_consts, gamma, target };

    let proof: EquProof = equ.prove(&scalar_xvars, &yvars, &scalar_xcoms, &ycoms, &crs, &mut rng);
    assert!(equ.verify(&proof, &scalar_xcoms, &ycoms, &crs));
}

#[test]
fn quadratic_equation_verifies() {
    let mut rng = test_rng();
    let crs = CRS::generate_crs(&mut rng);

    // An equation of the form a_1 y_1 + x_2 b_2 + 5 x_1 y_1 = t over the
    // scalar field, with variables x_1, x_2 and y_1.
    let scalar_xvars: Vec<Scalar> = vec![s(2), s(3)];
    let scalar_yvars: Vec<Scalar> = vec![s(4)];
    let scalar_xcoms = batch_commit_scalar_to_B1(&scalar_xvars, &crs, &mut rng);
    let scalar_ycoms = batch_commit_scalar_to_B2(&scalar_yvars, &crs, &mut rng);

    let a_consts: Vec<Scalar> = vec![Scalar::rand(&mut rng)];
    let b_consts: Vec<Scalar> = vec![Scalar::zero(), Scalar::rand(&mut rng)];
    let gamma: Matrix<Scalar> = Matrix::from_vecs(&vec![vec![s(5)], vec![Scalar::zero()]]);
    let target: Scalar = a_consts[0]
        .mul(&scalar_yvars[0])
        .add(&scalar_xvars[1].mul(&b_consts[1]))
        .add(&s(5).mul(&scalar_xvars[0]).mul(&scalar_yvars[0]));
    let equ = QuadEqu { a_consts, b_consts, gamma, target };

    let proof: EquProof = equ.prove(
        &scalar_xvars,
        &scalar_yvars,
        &scalar_xcoms,
        &scalar_ycoms,
        &crs,
        &mut rng,
    );
    assert!(equ.verify(&proof, &scalar_xcoms, &scalar_ycoms, &crs));
}

#[test]
fn commitments_have_expected_shape() {
    let mut rng = test_rng();
    let crs = CRS::generate_crs(&mut rng);

    let xvars: Vec<G1Affine> = vec![crs.g1_gen, crs.g1_gen.mul(&s(2)), crs.g1_gen.mul(&s(3))];
    let xcoms = batch_commit_G1(&xvars, &crs, &mut rng);
    assert!(xcoms.coms.len() == 3);
    assert!(xcoms.rand.dim() == (3, 2));

    let yvars: Vec<G2Affine> = vec![crs.g2_gen];
    let ycoms = batch_commit_G2(&yvars, &crs, &mut rng);
    assert!(ycoms.coms.len() == 1);
    assert!(ycoms.rand.dim() == (1, 2));

    let xs: Vec<Scalar> = vec![s(7), s(8)];
    let sxcoms = batch_commit_scalar_to_B1(&xs, &crs, &mut rng);
    assert!(sxcoms.coms.len() == 2);
    assert!(sxcoms.rand.dim() == (2, 1));

    let sycoms = batch_commit_scalar_to_B2(&xs, &crs, &mut rng);
    assert!(sycoms.coms.len() == 2);
    assert!(sycoms.rand.dim() == (2, 1));
}

#[test]
fn fresh_commitments_to_same_witness_differ() {
    let mut rng = test_rng();
    let crs = CRS::generate_crs(&mut rng);

    let xvars: Vec<G1Affine> = vec![crs.g1_gen.mul(&s(2))];
    let first = batch_commit_G1(&xvars, &crs, &mut rng);
    let second = batch_commit_G1(&xvars, &crs, &mut rng);

    // The randomness hides the witness: two commitments to the same value
    // are distinct group elements.
    assert!(!(first == second));
}
