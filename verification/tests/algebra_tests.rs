#![allow(non_snake_case)]

use groth_sahai::Com1;
use groth_sahai::Com2;
use groth_sahai::ComT;
use groth_sahai::G1Affine;
use groth_sahai::G2Affine;
use groth_sahai::Gt;
use groth_sahai::Matrix;
use groth_sahai::ModuleElem;
use groth_sahai::RandSource;
use groth_sahai::Scalar;
use groth_sahai::CRS;

fn s(n: u64) -> Scalar {
    Scalar::from_u64(n)
}

fn test_rng() -> RandSource {
    RandSource::from_seed(0)
}

fn rand_com1(rng: &mut RandSource) -> Com1 {
    Com1::new(G1Affine::rand(rng), G1Affine::rand(rng))
}

fn rand_com2(rng: &mut RandSource) -> Com2 {
    Com2::new(G2Affine::rand(rng), G2Affine::rand(rng))
}

fn rand_comt(rng: &mut RandSource) -> ComT {
    ComT(Gt::rand(rng), Gt::rand(rng), Gt::rand(rng), Gt::rand(rng))
}

#[test]
fn test_B1_add_zero() {
    let mut rng = test_rng();
    let a = rand_com1(&mut rng);
    let zero = Com1::new(G1Affine::zero(), G1Affine::zero());
    let asub = a.add(&zero);

    assert!(zero == Com1::zero());
    assert!(zero.is_zero());
    assert!(a == asub);
}

#[test]
fn test_B2_add_zero() {
    let mut rng = test_rng();
    let a = rand_com2(&mut rng);
    let zero = Com2::new(G2Affine::zero(), G2Affine::zero());
    let asub = a.add(&zero);

    assert!(zero == Com2::zero());
    assert!(zero.is_zero());
    assert!(a == asub);
}

#[test]
fn test_BT_add_zero() {
    let mut rng = test_rng();
    let a = rand_comt(&mut rng);
    let zero = ComT(Gt::zero(), Gt::zero(), Gt::zero(), Gt::zero());
    let asub = a.add(&zero);

    assert!(zero == ComT::zero());
    assert!(zero.is_zero());
    assert!(a == asub);
}

#[test]
fn test_B1_add() {
    let mut rng = test_rng();
    let a = rand_com1(&mut rng);
    let b = rand_com1(&mut rng);
    let ab = a.add(&b);
    let ba = b.add(&a);

    assert!(ab == Com1::new(a.0.add(&b.0), a.1.add(&b.1)));
    assert!(ab == ba);
}

#[test]
fn test_B2_add() {
    let mut rng = test_rng();
    let a = rand_com2(&mut rng);
    let b = rand_com2(&mut rng);
    let ab = a.add(&b);
    let ba = b.add(&a);

    assert!(ab == Com2::new(a.0.add(&b.0), a.1.add(&b.1)));
    assert!(ab == ba);
}

#[test]
fn test_BT_add() {
    let mut rng = test_rng();
    let a = rand_comt(&mut rng);
    let b = rand_comt(&mut rng);
    let ab = a.add(&b);
    let ba = b.add(&a);

    assert!(ab == ComT(a.0.add(&b.0), a.1.add(&b.1), a.2.add(&b.2), a.3.add(&b.3)));
    assert!(ab == ba);
}

#[test]
fn test_B1_sum() {
    let mut rng = test_rng();
    let a = rand_com1(&mut rng);
    let b = rand_com1(&mut rng);
    let c = rand_com1(&mut rng);

    let abc_vec = vec![a, b, c];
    let abc = Com1::sum(&abc_vec);

    assert!(abc == a.add(&b).add(&c));
}

#[test]
fn test_B2_sum() {
    let mut rng = test_rng();
    let a = rand_com2(&mut rng);
    let b = rand_com2(&mut rng);
    let c = rand_com2(&mut rng);

    let abc_vec = vec![a, b, c];
    let abc = Com2::sum(&abc_vec);

    assert!(abc == a.add(&b).add(&c));
}

#[test]
fn test_BT_sum() {
    let mut rng = test_rng();
    let a = rand_comt(&mut rng);
    let b = rand_comt(&mut rng);
    let c = rand_comt(&mut rng);

    let abc_vec = vec![a, b, c];
    let abc = ComT::sum(&abc_vec);

    assert!(abc == a.add(&b).add(&c));
}

#[test]
fn test_B1_neg() {
    let mut rng = test_rng();
    let b = rand_com1(&mut rng);
    let bneg = b.neg();
    let zero = b.add(&bneg);

    assert!(zero.is_zero());
}

#[test]
fn test_B2_neg() {
    let mut rng = test_rng();
    let b = rand_com2(&mut rng);
    let bneg = b.neg();
    let zero = b.add(&bneg);

    assert!(zero.is_zero());
}

#[test]
fn test_BT_neg() {
    let mut rng = test_rng();
    let b = rand_comt(&mut rng);
    let bneg = b.neg();
    let zero = b.add(&bneg);

    assert!(zero.is_zero());
}

#[test]
fn test_B1_sub() {
    let mut rng = test_rng();
    let a = rand_com1(&mut rng);
    let b = rand_com1(&mut rng);
    let ab = a.sub(&b);
    let ba = b.sub(&a);

    assert!(ab == Com1::new(a.0.add(&b.0.neg()), a.1.add(&b.1.neg())));
    assert!(ab == ba.neg());
}

#[test]
fn test_B2_sub() {
    let mut rng = test_rng();
    let a = rand_com2(&mut rng);
    let b = rand_com2(&mut rng);
    let ab = a.sub(&b);
    let ba = b.sub(&a);

    assert!(ab == Com2::new(a.0.add(&b.0.neg()), a.1.add(&b.1.neg())));
    assert!(ab == ba.neg());
}

#[test]
fn test_BT_sub() {
    let mut rng = test_rng();
    let a = rand_comt(&mut rng);
    let b = rand_comt(&mut rng);
    let ab = a.sub(&b);
    let ba = b.sub(&a);

    assert!(ab == ComT(a.0.sub(&b.0), a.1.sub(&b.1), a.2.sub(&b.2), a.3.sub(&b.3)));
    assert!(ab == ba.neg());
}

#[test]
fn test_B1_scalar_mul() {
    let mut rng = test_rng();
    let b = rand_com1(&mut rng);
    let scalar = Scalar::rand(&mut rng);
    let b0 = b.0.mul(&scalar);
    let b1 = b.1.mul(&scalar);
    let bres = b.scalar_mul(&scalar);
    let bexp = Com1::new(b0, b1);

    assert!(bres == bexp);
}

#[test]
fn test_B2_scalar_mul() {
    let mut rng = test_rng();
    let b = rand_com2(&mut rng);
    let scalar = Scalar::rand(&mut rng);
    let b0 = b.0.mul(&scalar);
    let b1 = b.1.mul(&scalar);
    let bres = b.scalar_mul(&scalar);
    let bexp = Com2::new(b0, b1);

    assert!(bres == bexp);
}

#[test]
fn mod_test_B_pairing_zero_G1() {
    let mut rng = test_rng();
    let b1 = Com1::new(G1Affine::zero(), G1Affine::zero());
    let b2 = rand_com2(&mut rng);
    let bt = ComT::pairing(b1, b2);

    assert!(bt.0 == Gt::zero());
    assert!(bt.1 == Gt::zero());
    assert!(bt.2 == Gt::zero());
    assert!(bt.3 == Gt::zero());
}

#[test]
fn mod_test_B_pairing_zero_G2() {
    let mut rng = test_rng();
    let b1 = rand_com1(&mut rng);
    let b2 = Com2::new(G2Affine::zero(), G2Affine::zero());
    let bt = ComT::pairing(b1, b2);

    assert!(bt.0 == Gt::zero());
    assert!(bt.1 == Gt::zero());
    assert!(bt.2 == Gt::zero());
    assert!(bt.3 == Gt::zero());
}

#[test]
fn mod_test_B_pairing_commit() {
    let mut rng = test_rng();
    let b1 = Com1::new(G1Affine::zero(), G1Affine::rand(&mut rng));
    let b2 = Com2::new(G2Affine::zero(), G2Affine::rand(&mut rng));
    let bt = ComT::pairing(b1, b2);

    assert!(bt.0 == Gt::zero());
    assert!(bt.1 == Gt::zero());
    assert!(bt.2 == Gt::zero());
    assert!(bt.3 == Gt::pairing(&b1.1, &b2.1));
}

#[test]
fn mod_test_B_pairing_rand() {
    let mut rng = test_rng();
    let b1 = rand_com1(&mut rng);
    let b2 = rand_com2(&mut rng);
    let bt = ComT::pairing(b1, b2);

    assert!(bt.0 == Gt::pairing(&b1.0, &b2.0));
    assert!(bt.1 == Gt::pairing(&b1.0, &b2.1));
    assert!(bt.2 == Gt::pairing(&b1.1, &b2.0));
    assert!(bt.3 == Gt::pairing(&b1.1, &b2.1));
}

#[test]
fn test_B_pairing_sum() {
    let mut rng = test_rng();
    let x1 = rand_com1(&mut rng);
    let x2 = rand_com1(&mut rng);
    let y1 = rand_com2(&mut rng);
    let y2 = rand_com2(&mut rng);
    let x = vec![x1, x2];
    let y = vec![y1, y2];
    let exp = ComT::sum(&vec![ComT::pairing(x1, y1), ComT::pairing(x2, y2)]);
    let res = ComT::pairing_sum(&x, &y);

    assert!(exp == res);
}

#[test]
fn test_B_into_matrix() {
    let mut rng = test_rng();
    let b1 = rand_com1(&mut rng);
    let b2 = rand_com2(&mut rng);
    let bt = ComT::pairing(b1, b2);

    // B1 and B2 can be represented as 2-dim column vectors
    assert!(b1.as_col_vec() == Matrix::new(&[[b1.0], [b1.1]]));
    assert!(b2.as_col_vec() == Matrix::new(&[[b2.0], [b2.1]]));
    // BT can be represented as a 2 x 2 matrix
    assert!(bt.as_matrix() == Matrix::new(&[[bt.0, bt.1], [bt.2, bt.3]]));
}

#[test]
fn test_B_from_matrix() {
    let mut rng = test_rng();
    let b1_vec = Matrix::new(&[[G1Affine::rand(&mut rng)], [G1Affine::rand(&mut rng)]]);
    let b2_vec = Matrix::new(&[[G2Affine::rand(&mut rng)], [G2Affine::rand(&mut rng)]]);
    let bt_vec = Matrix::new(&[
        [
            Gt::pairing(&b1_vec.get(0, 0), &b2_vec.get(0, 0)),
            Gt::pairing(&b1_vec.get(0, 0), &b2_vec.get(1, 0)),
        ],
        [
            Gt::pairing(&b1_vec.get(1, 0), &b2_vec.get(0, 0)),
            Gt::pairing(&b1_vec.get(1, 0), &b2_vec.get(1, 0)),
        ],
    ]);

    let b1 = Com1::from(&b1_vec);
    let b2 = Com2::from(&b2_vec);
    let bt = ComT::from(&bt_vec);

    assert!(b1.0 == b1_vec.get(0, 0));
    assert!(b1.1 == b1_vec.get(1, 0));
    assert!(b2.0 == b2_vec.get(0, 0));
    assert!(b2.1 == b2_vec.get(1, 0));
    assert!(bt.0 == bt_vec.get(0, 0));
    assert!(bt.1 == bt_vec.get(0, 1));
    assert!(bt.2 == bt_vec.get(1, 0));
    assert!(bt.3 == bt_vec.get(1, 1));
}

#[test]
fn test_batched_linear_maps() {
    let mut rng = test_rng();
    let vec_g1 = vec![G1Affine::rand(&mut rng), G1Affine::rand(&mut rng)];
    let vec_g2 = vec![G2Affine::rand(&mut rng), G2Affine::rand(&mut rng)];
    let vec_b1 = Com1::batch_linear_map(&vec_g1);
    let vec_b2 = Com2::batch_linear_map(&vec_g2);

    assert!(vec_b1[0] == Com1::linear_map(&vec_g1[0]));
    assert!(vec_b1[1] == Com1::linear_map(&vec_g1[1]));
    assert!(vec_b2[0] == Com2::linear_map(&vec_g2[0]));
    assert!(vec_b2[1] == Com2::linear_map(&vec_g2[1]));
}

#[test]
fn test_batched_scalar_linear_maps() {
    let mut rng = test_rng();
    let key = CRS::generate_crs(&mut rng);

    let vec_scalar = vec![Scalar::rand(&mut rng), Scalar::rand(&mut rng)];
    let vec_b1 = key.u[1].batch_scalar_linear_map(&vec_scalar, &key.g1_gen);
    let vec_b2 = key.v[1].batch_scalar_linear_map(&vec_scalar, &key.g2_gen);

    assert!(vec_b1[0] == key.u[1].scalar_linear_map(&vec_scalar[0], &key.g1_gen));
    assert!(vec_b1[1] == key.u[1].scalar_linear_map(&vec_scalar[1], &key.g1_gen));
    assert!(vec_b2[0] == key.v[1].scalar_linear_map(&vec_scalar[0], &key.g2_gen));
    assert!(vec_b2[1] == key.v[1].scalar_linear_map(&vec_scalar[1], &key.g2_gen));
}

#[test]
fn test_PPE_linear_maps() {
    let mut rng = test_rng();
    let a1 = G1Affine::rand(&mut rng);
    let a2 = G2Affine::rand(&mut rng);
    let at = Gt::pairing(&a1, &a2);
    let b1 = Com1::linear_map(&a1);
    let b2 = Com2::linear_map(&a2);
    let bt = ComT::linear_map_PPE(&at);

    assert!(b1.0 == G1Affine::zero());
    assert!(b1.1 == a1);
    assert!(b2.0 == G2Affine::zero());
    assert!(b2.1 == a2);
    assert!(bt.0 == Gt::zero());
    assert!(bt.1 == Gt::zero());
    assert!(bt.2 == Gt::zero());
    assert!(bt.3 == Gt::pairing(&a1, &a2));
}

#[test]
fn test_MSMEG1_linear_maps() {
    let mut rng = test_rng();
    let key = CRS::generate_crs(&mut rng);

    let a1 = G1Affine::rand(&mut rng);
    let a2 = Scalar::rand(&mut rng);
    let at = a1.mul(&a2);
    let b1 = Com1::linear_map(&a1);
    let b2 = key.v[1].scalar_linear_map(&a2, &key.g2_gen);
    let bt = ComT::linear_map_MSMEG1(&at, &key.v[1], &key.g2_gen);

    assert!(b1.0 == G1Affine::zero());
    assert!(b1.1 == a1);
    assert!(b2.0 == key.v[1].0.mul(&a2));
    assert!(b2.1 == key.v[1].1.add(&key.g2_gen).mul(&a2));
    assert!(bt.0 == Gt::zero());
    assert!(bt.1 == Gt::zero());
    assert!(bt.2 == Gt::pairing(&at, &key.v[1].0));
    assert!(bt.3 == Gt::pairing(&at, &key.v[1].1.add(&key.g2_gen)));
}

#[test]
fn test_MSMEG2_linear_maps() {
    let mut rng = test_rng();
    let key = CRS::generate_crs(&mut rng);

    let a1 = Scalar::rand(&mut rng);
    let a2 = G2Affine::rand(&mut rng);
    let at = a2.mul(&a1);
    let b1 = key.u[1].scalar_linear_map(&a1, &key.g1_gen);
    let b2 = Com2::linear_map(&a2);
    let bt = ComT::linear_map_MSMEG2(&at, &key.u[1], &key.g1_gen);

    assert!(b1.0 == key.u[1].0.mul(&a1));
    assert!(b1.1 == key.u[1].1.add(&key.g1_gen).mul(&a1));
    assert!(b2.0 == G2Affine::zero());
    assert!(b2.1 == a2);
    assert!(bt.0 == Gt::zero());
    assert!(bt.1 == Gt::pairing(&key.u[1].0, &at));
    assert!(bt.2 == Gt::zero());
    assert!(bt.3 == Gt::pairing(&key.u[1].1.add(&key.g1_gen), &at));
}

#[test]
fn test_QuadEqu_linear_maps() {
    let mut rng = test_rng();
    let key = CRS::generate_crs(&mut rng);

    let a1 = Scalar::rand(&mut rng);
    let a2 = Scalar::rand(&mut rng);
    let at = a1.mul(&a2);
    let b1 = key.u[1].scalar_linear_map(&a1, &key.g1_gen);
    let b2 = key.v[1].scalar_linear_map(&a2, &key.g2_gen);
    let bt = ComT::linear_map_quad(&at, &key.u[1], &key.g1_gen, &key.v[1], &key.g2_gen);
    let W1 = Com1::new(key.u[1].0, key.u[1].1.add(&key.g1_gen));
    let W2 = Com2::new(key.v[1].0, key.v[1].1.add(&key.g2_gen));
    assert!(b1.0 == W1.0.mul(&a1));
    assert!(b1.1 == W1.1.mul(&a1));
    assert!(b2.0 == W2.0.mul(&a2));
    assert!(b2.1 == W2.1.mul(&a2));
    assert!(bt == ComT::pairing(W1.scalar_mul(&a1), W2.scalar_mul(&a2)));
    assert!(bt == ComT::pairing(W1, W2.scalar_mul(&at)));
}

#[test]
fn com1_scalar_action_laws() {
    let mut rng = test_rng();
    let a = rand_com1(&mut rng);
    let b = rand_com1(&mut rng);
    let sc = s(7);

    assert!(a.add(&b).scalar_mul(&sc) == a.scalar_mul(&sc).add(&b.scalar_mul(&sc)));
    assert!(a.scalar_mul(&Scalar::one()) == a);
    assert!(a.scalar_mul(&Scalar::zero()) == Com1::zero());
}

#[test]
fn com2_scalar_action_laws() {
    let mut rng = test_rng();
    let a = rand_com2(&mut rng);
    let b = rand_com2(&mut rng);
    let sc = s(11);

    assert!(a.add(&b).scalar_mul(&sc) == a.scalar_mul(&sc).add(&b.scalar_mul(&sc)));
    assert!(a.scalar_mul(&Scalar::one()) == a);
    assert!(a.scalar_mul(&Scalar::zero()) == Com2::zero());
}

#[test]
fn scalar_field_arithmetic_matches() {
    let a = s(20);
    let b = s(22);
    assert!(a.add(&b) == s(42));
    assert!(a.mul(&b) == s(440));
    assert!(a.add(&a.neg()) == Scalar::zero());
    assert!(a.mul(&Scalar::one()) == a);
}
