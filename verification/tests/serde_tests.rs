#![allow(non_snake_case)]

use groth_sahai::Com1;
use groth_sahai::Com2;
use groth_sahai::ComT;
use groth_sahai::Commit1;
use groth_sahai::Commit2;
use groth_sahai::G1Affine;
use groth_sahai::G2Affine;
use groth_sahai::Matrix;
use groth_sahai::RandSource;
use groth_sahai::Scalar;
use groth_sahai::batch_commit_G1;
use groth_sahai::batch_commit_G2;
use groth_sahai::EquProof;
use groth_sahai::Gt;
use groth_sahai::CRS;
use groth_sahai::PPE;

fn s(n: u64) -> Scalar {
    Scalar::from_u64(n)
}

fn test_rng() -> RandSource {
    RandSource::from_seed(0)
}

#[test]
fn test_matrix_serde() {
    let mat = Matrix::new(&[[s(1), s(2)], [s(3), s(4)]]);
    let buf = mat.serialize();
    let mat2 = Matrix::<Scalar>::deserialize(&buf).unwrap();
    assert!(mat == mat2);
}

#[test]
fn test_B1_serde() {
    let mut rng = test_rng();
    let a = Com1::new(G1Affine::rand(&mut rng), G1Affine::rand(&mut rng));

    // Serialize and deserialize Com1, in both modes.

    let c_bytes = a.serialize(true);
    let a_de = Com1::deserialize(&c_bytes, true).unwrap();
    assert!(a == a_de);

    let u_bytes = a.serialize(false);
    let a_de = Com1::deserialize(&u_bytes, false).unwrap();
    assert!(a == a_de);
}

#[test]
fn test_B2_serde() {
    let mut rng = test_rng();
    let a = Com2::new(G2Affine::rand(&mut rng), G2Affine::rand(&mut rng));

    // Serialize and deserialize Com2, in both modes.

    let c_bytes = a.serialize(true);
    let a_de = Com2::deserialize(&c_bytes, true).unwrap();
    assert!(a == a_de);

    let u_bytes = a.serialize(false);
    let a_de = Com2::deserialize(&u_bytes, false).unwrap();
    assert!(a == a_de);
}

#[test]
fn test_BT_serde() {
    let mut rng = test_rng();
    let b1 = Com1::new(G1Affine::rand(&mut rng), G1Affine::rand(&mut rng));
    let b2 = Com2::new(G2Affine::rand(&mut rng), G2Affine::rand(&mut rng));
    let bt = ComT::pairing(b1, b2);

    let bytes = bt.serialize();
    let bt_de = ComT::deserialize(&bytes).unwrap();
    assert!(bt == bt_de);
}

#[test]
fn test_commit_serde() {
    let mut rng = test_rng();
    let crs = CRS::generate_crs(&mut rng);
    let r1 = Scalar::rand(&mut rng);
    let r2 = Scalar::rand(&mut rng);
    let com1 = Commit1 {
        coms: vec![Com1::new(crs.g1_gen.mul(&r1), crs.g1_gen.mul(&r2))],
        rand: Matrix::new(&[[r1, r2]]),
    };
    let com2 = Commit2 {
        coms: vec![Com2::new(crs.g2_gen.mul(&r1), crs.g2_gen.mul(&r2))],
        rand: Matrix::new(&[[r1, r2]]),
    };

    // Serialize and deserialize the commitment 1.
    let c_bytes = com1.serialize(true);
    let com1_de = Commit1::deserialize(&c_bytes, true).unwrap();
    assert!(com1 == com1_de);

    let u_bytes = com1.serialize(false);
    let com1_de = Commit1::deserialize(&u_bytes, false).unwrap();
    assert!(com1 == com1_de);

    // Serialize and deserialize the commitment 2.
    let c_bytes = com2.serialize(true);
    let com2_de = Commit2::deserialize(&c_bytes, true).unwrap();
    assert!(com2 == com2_de);

    let u_bytes = com2.serialize(false);
    let com2_de = Commit2::deserialize(&u_bytes, false).unwrap();
    assert!(com2 == com2_de);
}

#[test]
fn proof_serde_roundtrip() {
    let mut rng = test_rng();
    let crs = CRS::generate_crs(&mut rng);
    let xvars: Vec<G1Affine> = vec![crs.g1_gen.mul(&s(2))];
    let yvars = vec![crs.g2_gen.mul(&s(3))];
    let xcoms = batch_commit_G1(&xvars, &crs, &mut rng);
    let ycoms = batch_commit_G2(&yvars, &crs, &mut rng);
    let equ = PPE {
        a_consts: vec![G1Affine::zero()],
        b_consts: vec![G2Affine::zero()],
        gamma: Matrix::from_vecs(&vec![vec![s(1)]]),
        target: Gt::pairing(&xvars[0], &yvars[0]),
    };
    let proof = equ.prove(&xvars, &yvars, &xcoms, &ycoms, &crs, &mut rng);
    assert!(equ.verify(&proof, &xcoms, &ycoms, &crs));

    let bytes = proof.serialize(true);
    let proof_de = EquProof::deserialize(&bytes, true).unwrap();
    assert!(proof.pi == proof_de.pi);
    assert!(proof.theta == proof_de.theta);
    assert!(equ.verify(&proof_de, &xcoms, &ycoms, &crs));

    let ubytes = proof.serialize(false);
    let proof_du = EquProof::deserialize(&ubytes, false).unwrap();
    assert!(proof.pi == proof_du.pi);
    assert!(proof.theta == proof_du.theta);
}

#[test]
fn truncated_input_is_rejected() {
    let mut rng = test_rng();
    let a = Com1::new(G1Affine::rand(&mut rng), G1Affine::rand(&mut rng));
    let mut bytes = a.serialize(true);
    bytes.pop();
    assert!(Com1::deserialize(&bytes, true).is_none());

    let mat = Matrix::new(&[[s(1), s(2)], [s(3), s(4)]]);
    let mut mbytes = mat.serialize();
    mbytes.pop();
    assert!(Matrix::<Scalar>::deserialize(&mbytes).is_none());

    // A wrong mode changes the expected sizes and is rejected too.
    assert!(Com1::deserialize(&a.serialize(true), false).is_none());
}

#[test]
fn corrupted_scalar_encoding_is_rejected() {
    // A field element encoding holding a value at least as large as the
    // field order is not canonical.
    let bytes: Vec<u8> = vec![0xff; 32];
    assert!(Scalar::from_bytes(&bytes).is_none());
}
