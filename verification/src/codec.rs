//! Canonical byte encodings of the library's structures: the direct
//! concatenation of the field encodings in declared order, with vectors
//! framed by a little-endian 64-bit length.  Decoding never populates a
//! structure partially: a malformed or truncated input yields `None`.

use crate::adapter::fr_bytes;
use crate::adapter::fr_order;
use crate::adapter::fr_val;
use crate::adapter::g1_bytes;
use crate::adapter::g1_enc_len;
use crate::adapter::g2_bytes;
use crate::adapter::g2_enc_len;
use crate::adapter::gt_bytes;
use crate::adapter::G1Affine;
use crate::adapter::G2Affine;
use crate::adapter::Gt;
use crate::adapter::Scalar;
use crate::com::Com1;
use crate::com::Com2;
use crate::com_t::c1_models;
use crate::com_t::c2_models;
use crate::com_t::ComT;
use crate::commit::Commit1;
use crate::commit::Commit2;
use crate::data_structures::mwf;
use crate::matrix::Matrix;
use crate::statement::EquProof;
use crate::data_structures::Element;
use vstd::prelude::*;
use vstd::slice::slice_subrange;

verus! {

/// Little-endian 8-byte encoding of a length.
#[verifier::opaque]
pub open spec fn u64_le(n: int) -> Seq<u8> {
    seq![
        (n % 256) as u8,
        ((n / 256) % 256) as u8,
        ((n / 0x10000) % 256) as u8,
        ((n / 0x1000000) % 256) as u8,
        ((n / 0x100000000) % 256) as u8,
        ((n / 0x10000000000) % 256) as u8,
        ((n / 0x1000000000000) % 256) as u8,
        ((n / 0x100000000000000) % 256) as u8,
    ]
}

/// Encode a length.
fn u64_to_le(n: u64) -> (r: Vec<u8>)
    ensures
        r@ == u64_le(n as int),
{
    let r = vec![
        (n % 256) as u8,
        ((n / 256) % 256) as u8,
        ((n / 0x10000) % 256) as u8,
        ((n / 0x1000000) % 256) as u8,
        ((n / 0x100000000) % 256) as u8,
        ((n / 0x10000000000) % 256) as u8,
        ((n / 0x1000000000000) % 256) as u8,
        ((n / 0x100000000000000) % 256) as u8,
    ];
    proof {
        reveal(u64_le);
        assert(r@ =~= u64_le(n as int));
    }
    r
}

/// The encoding of a pair of the first commitment group: its two point
/// encodings in order.
pub open spec fn com1_enc(m: Seq<int>, compress: bool) -> Seq<u8> {
    g1_bytes(m[0], compress) + g1_bytes(m[1], compress)
}

/// The encoding of a pair of the second commitment group.
pub open spec fn com2_enc(m: Seq<int>, compress: bool) -> Seq<u8> {
    g2_bytes(m[0], compress) + g2_bytes(m[1], compress)
}

/// The encoding of a target commitment-group element: its four cell
/// encodings in order, the same in both modes.
pub open spec fn comt_enc(m: Seq<int>) -> Seq<u8> {
    gt_bytes(m[0]) + gt_bytes(m[1]) + gt_bytes(m[2]) + gt_bytes(m[3])
}

impl Com1 {
    /// The canonical encoding: both coordinates in order.
    pub fn serialize(&self, compress: bool) -> (r: Vec<u8>)
        ensures
            r@ == com1_enc(self.model(), compress),
            g1_bytes(self.model()[0], compress).len() == g1_enc_len(compress),
            g1_bytes(self.model()[1], compress).len() == g1_enc_len(compress),
    {
        let mut out = self.0.to_bytes(compress);
        let mut second = self.1.to_bytes(compress);
        out.append(&mut second);
        out
    }

    /// Decode a canonical encoding; anything else yields `None`.
    pub fn deserialize(bytes: &[u8], compress: bool) -> (r: Option<Com1>)
        ensures
            r matches Some(v) ==> bytes@ == com1_enc(v.model(), compress) && v.wf() && g1_bytes(
                v.model()[0],
                compress,
            ).len() == g1_enc_len(compress) && g1_bytes(v.model()[1], compress).len()
                == g1_enc_len(compress),
            forall|m: Seq<int>|
                (#[trigger] com1_enc(m, compress)) == bytes@ && m.len() == 2 && mwf(m) && g1_bytes(
                    m[0],
                    compress,
                ).len() == g1_enc_len(compress) && g1_bytes(m[1], compress).len() == g1_enc_len(
                    compress,
                ) ==> (r matches Some(v) && v.model() == m),
    {
        let n = if compress {
            48
        } else {
            96
        };
        if bytes.len() != 2 * n {
            return None;
        }
        let first = slice_subrange(bytes, 0, n);
        let second = slice_subrange(bytes, n, 2 * n);
        let p0 = G1Affine::from_bytes(first, compress);
        let p1 = G1Affine::from_bytes(second, compress);
        proof {
            assert forall|m: Seq<int>|
                (#[trigger] com1_enc(m, compress)) == bytes@ && m.len() == 2 && mwf(m) && g1_bytes(
                    m[0],
                    compress,
                ).len() == g1_enc_len(compress) && g1_bytes(m[1], compress).len() == g1_enc_len(
                    compress,
                ) implies first@ == g1_bytes(m[0], compress) && second@ == g1_bytes(
                m[1],
                compress,
            ) by {
                assert(bytes@.subrange(0, n as int) =~= g1_bytes(m[0], compress));
                assert(bytes@.subrange(n as int, 2 * n) =~= g1_bytes(m[1], compress));
            };
        }
        match (p0, p1) {
            (Some(a), Some(b)) => {
                let v = Com1::new(a, b);
                proof {
                    assert(bytes@ =~= com1_enc(v.model(), compress));
                    assert forall|m: Seq<int>|
                        (#[trigger] com1_enc(m, compress)) == bytes@ && m.len() == 2 && mwf(m)
                            && g1_bytes(m[0], compress).len() == g1_enc_len(compress) && g1_bytes(
                            m[1],
                            compress,
                        ).len() == g1_enc_len(compress) implies v.model() == m by {
                        assert(v.model() =~= m);
                    };
                }
                Some(v)
            },
            _ => {
                None
            },
        }
    }
}

impl Com2 {
    /// The canonical encoding: both coordinates in order.
    pub fn serialize(&self, compress: bool) -> (r: Vec<u8>)
        ensures
            r@ == com2_enc(self.model(), compress),
            g2_bytes(self.model()[0], compress).len() == g2_enc_len(compress),
            g2_bytes(self.model()[1], compress).len() == g2_enc_len(compress),
    {
        let mut out = self.0.to_bytes(compress);
        let mut second = self.1.to_bytes(compress);
        out.append(&mut second);
        out
    }

    /// Decode a canonical encoding; anything else yields `None`.
    pub fn deserialize(bytes: &[u8], compress: bool) -> (r: Option<Com2>)
        ensures
            r matches Some(v) ==> bytes@ == com2_enc(v.model(), compress) && v.wf() && g2_bytes(
                v.model()[0],
                compress,
            ).len() == g2_enc_len(compress) && g2_bytes(v.model()[1], compress).len()
                == g2_enc_len(compress),
            forall|m: Seq<int>|
                (#[trigger] com2_enc(m, compress)) == bytes@ && m.len() == 2 && mwf(m) && g2_bytes(
                    m[0],
                    compress,
                ).len() == g2_enc_len(compress) && g2_bytes(m[1], compress).len() == g2_enc_len(
                    compress,
                ) ==> (r matches Some(v) && v.model() == m),
    {
        let n = if compress {
            96
        } else {
            192
        };
        if bytes.len() != 2 * n {
            return None;
        }
        let first = slice_subrange(bytes, 0, n);
        let second = slice_subrange(bytes, n, 2 * n);
        let p0 = G2Affine::from_bytes(first, compress);
        let p1 = G2Affine::from_bytes(second, compress);
        proof {
            assert forall|m: Seq<int>|
                (#[trigger] com2_enc(m, compress)) == bytes@ && m.len() == 2 && mwf(m) && g2_bytes(
                    m[0],
                    compress,
                ).len() == g2_enc_len(compress) && g2_bytes(m[1], compress).len() == g2_enc_len(
                    compress,
                ) implies first@ == g2_bytes(m[0], compress) && second@ == g2_bytes(
                m[1],
                compress,
            ) by {
                assert(bytes@.subrange(0, n as int) =~= g2_bytes(m[0], compress));
                assert(bytes@.subrange(n as int, 2 * n) =~= g2_bytes(m[1], compress));
            };
        }
        match (p0, p1) {
            (Some(a), Some(b)) => {
                let v = Com2::new(a, b);
                proof {
                    assert(bytes@ =~= com2_enc(v.model(), compress));
                    assert forall|m: Seq<int>|
                        (#[trigger] com2_enc(m, compress)) == bytes@ && m.len() == 2 && mwf(m)
                            && g2_bytes(m[0], compress).len() == g2_enc_len(compress) && g2_bytes(
                            m[1],
                            compress,
                        ).len() == g2_enc_len(compress) implies v.model() == m by {
                        assert(v.model() =~= m);
                    };
                }
                Some(v)
            },
            _ => {
                None
            },
        }
    }
}

impl ComT {
    /// The canonical encoding: the four cells in row-major order; target
    /// elements encode identically in both modes.
    pub fn serialize(&self) -> (r: Vec<u8>)
        ensures
            r@ == comt_enc(self.model()),
            forall|i: int| 0 <= i < 4 ==> (#[trigger] gt_bytes(self.model()[i])).len() == 576,
    {
        let mut out = self.0.to_bytes();
        let mut b1 = self.1.to_bytes();
        let mut b2 = self.2.to_bytes();
        let mut b3 = self.3.to_bytes();
        out.append(&mut b1);
        out.append(&mut b2);
        out.append(&mut b3);
        out
    }

    /// Decode a canonical encoding; anything else yields `None`.
    pub fn deserialize(bytes: &[u8]) -> (r: Option<ComT>)
        ensures
            r matches Some(v) ==> bytes@ == comt_enc(v.model()) && v.wf(),
            forall|m: Seq<int>|
                (#[trigger] comt_enc(m)) == bytes@ && m.len() == 4 && mwf(m) && gt_bytes(
                    m[0],
                ).len() == 576 && gt_bytes(m[1]).len() == 576 && gt_bytes(m[2]).len() == 576
                    && gt_bytes(m[3]).len() == 576 ==> (r matches Some(v) && v.model() == m),
    {
        if bytes.len() != 4 * 576 {
            proof {
                assert forall|m: Seq<int>|
                    (#[trigger] comt_enc(m)) == bytes@ && m.len() == 4 && mwf(m) && gt_bytes(
                        m[0],
                    ).len() == 576 && gt_bytes(m[1]).len() == 576 && gt_bytes(m[2]).len() == 576
                        && gt_bytes(m[3]).len() == 576 implies false by {
                    assert(bytes@.len() == 4 * 576);
                };
            }
            return None;
        }
        let t0 = Gt::from_bytes(slice_subrange(bytes, 0, 576));
        let t1 = Gt::from_bytes(slice_subrange(bytes, 576, 1152));
        let t2 = Gt::from_bytes(slice_subrange(bytes, 1152, 1728));
        let t3 = Gt::from_bytes(slice_subrange(bytes, 1728, 2304));
        proof {
            assert forall|m: Seq<int>|
                (#[trigger] comt_enc(m)) == bytes@ && m.len() == 4 && mwf(m) && gt_bytes(
                    m[0],
                ).len() == 576 && gt_bytes(m[1]).len() == 576 && gt_bytes(m[2]).len() == 576
                    && gt_bytes(m[3]).len() == 576 implies bytes@.subrange(0, 576) == gt_bytes(
                m[0],
            ) && bytes@.subrange(576, 1152) == gt_bytes(m[1]) && bytes@.subrange(1152, 1728)
                == gt_bytes(m[2]) && bytes@.subrange(1728, 2304) == gt_bytes(m[3]) by {
                assert(bytes@.subrange(0, 576) =~= gt_bytes(m[0]));
                assert(bytes@.subrange(576, 1152) =~= gt_bytes(m[1]));
                assert(bytes@.subrange(1152, 1728) =~= gt_bytes(m[2]));
                assert(bytes@.subrange(1728, 2304) =~= gt_bytes(m[3]));
            };
        }
        match (t0, t1, t2, t3) {
            (Some(a), Some(b), Some(c), Some(d)) => {
                let v = ComT(a, b, c, d);
                proof {
                    assert(bytes@ =~= comt_enc(v.model()));
                    assert forall|m: Seq<int>|
                        (#[trigger] comt_enc(m)) == bytes@ && m.len() == 4 && mwf(m) && gt_bytes(
                            m[0],
                        ).len() == 576 && gt_bytes(m[1]).len() == 576 && gt_bytes(m[2]).len()
                            == 576 && gt_bytes(m[3]).len() == 576 implies v.model() == m by {
                        assert(v.model() =~= m);
                    };
                }
                Some(v)
            },
            _ => {
                None
            },
        }
    }
}

/// The concatenated encodings of a sequence of scalar residues.
pub open spec fn fr_cells_enc(vals: Seq<int>) -> Seq<u8>
    decreases vals.len(),
{
    if vals.len() == 0 {
        Seq::empty()
    } else {
        fr_cells_enc(vals.drop_last()) + fr_bytes(vals.last())
    }
}

/// A length-framed vector of scalar residues.
pub open spec fn fr_vec_enc(vals: Seq<int>) -> Seq<u8> {
    u64_le(vals.len() as int) + fr_cells_enc(vals)
}

/// The concatenated encodings of the rows.
pub open spec fn fr_rows_enc(rows: Seq<Seq<int>>) -> Seq<u8>
    decreases rows.len(),
{
    if rows.len() == 0 {
        Seq::empty()
    } else {
        fr_rows_enc(rows.drop_last()) + fr_vec_enc(rows.last())
    }
}

/// A scalar matrix as its length-framed row-major nested sequence.
pub open spec fn fr_mat_enc(rows: Seq<Seq<int>>) -> Seq<u8> {
    u64_le(rows.len() as int) + fr_rows_enc(rows)
}

/// The concatenated encodings of a list of first-group pairs.
pub open spec fn com1_list_enc(ms: Seq<Seq<int>>, compress: bool) -> Seq<u8>
    decreases ms.len(),
{
    if ms.len() == 0 {
        Seq::empty()
    } else {
        com1_list_enc(ms.drop_last(), compress) + com1_enc(ms.last(), compress)
    }
}

/// The concatenated encodings of a list of second-group pairs.
pub open spec fn com2_list_enc(ms: Seq<Seq<int>>, compress: bool) -> Seq<u8>
    decreases ms.len(),
{
    if ms.len() == 0 {
        Seq::empty()
    } else {
        com2_list_enc(ms.drop_last(), compress) + com2_enc(ms.last(), compress)
    }
}

/// The encoding of a commitment batch over the first group: the framed list
/// of public commitments followed by the randomness matrix.
pub open spec fn commit1_enc(ms: Seq<Seq<int>>, rand: Seq<Seq<int>>, compress: bool) -> Seq<u8> {
    u64_le(ms.len() as int) + com1_list_enc(ms, compress) + fr_mat_enc(rand)
}

/// The encoding of a commitment batch over the second group.
pub open spec fn commit2_enc(ms: Seq<Seq<int>>, rand: Seq<Seq<int>>, compress: bool) -> Seq<u8> {
    u64_le(ms.len() as int) + com2_list_enc(ms, compress) + fr_mat_enc(rand)
}

proof fn lemma_cells_step(vals: Seq<int>, k: int)
    requires
        0 <= k < vals.len(),
    ensures
        fr_cells_enc(vals.take(k + 1)) == fr_cells_enc(vals.take(k)) + fr_bytes(vals[k]),
{
    assert(vals.take(k + 1).drop_last() =~= vals.take(k));
    assert(vals.take(k + 1).last() == vals[k]);
}

proof fn lemma_rows_step(rows: Seq<Seq<int>>, k: int)
    requires
        0 <= k < rows.len(),
    ensures
        fr_rows_enc(rows.take(k + 1)) == fr_rows_enc(rows.take(k)) + fr_vec_enc(rows[k]),
{
    assert(rows.take(k + 1).drop_last() =~= rows.take(k));
    assert(rows.take(k + 1).last() == rows[k]);
}

proof fn lemma_com1_list_step(ms: Seq<Seq<int>>, compress: bool, k: int)
    requires
        0 <= k < ms.len(),
    ensures
        com1_list_enc(ms.take(k + 1), compress) == com1_list_enc(ms.take(k), compress) + com1_enc(
            ms[k],
            compress,
        ),
{
    assert(ms.take(k + 1).drop_last() =~= ms.take(k));
    assert(ms.take(k + 1).last() == ms[k]);
}

proof fn lemma_com2_list_step(ms: Seq<Seq<int>>, compress: bool, k: int)
    requires
        0 <= k < ms.len(),
    ensures
        com2_list_enc(ms.take(k + 1), compress) == com2_list_enc(ms.take(k), compress) + com2_enc(
            ms[k],
            compress,
        ),
{
    assert(ms.take(k + 1).drop_last() =~= ms.take(k));
    assert(ms.take(k + 1).last() == ms[k]);
}

proof fn lemma_u64_digits(a: int)
    requires
        0 <= a < 0x10000000000000000,
    ensures
        a == (a % 256) + 256 * ((a / 256) % 256) + 0x10000 * ((a / 0x10000) % 256) + 0x1000000 * ((
        a / 0x1000000) % 256) + 0x100000000 * ((a / 0x100000000) % 256) + 0x10000000000 * ((a
            / 0x10000000000) % 256) + 0x1000000000000 * ((a / 0x1000000000000) % 256)
            + 0x100000000000000 * ((a / 0x100000000000000) % 256),
{
    vstd::arithmetic::div_mod::lemma_div_denominator(a, 256, 256);
    vstd::arithmetic::div_mod::lemma_div_denominator(a, 0x10000, 256);
    vstd::arithmetic::div_mod::lemma_div_denominator(a, 0x1000000, 256);
    vstd::arithmetic::div_mod::lemma_div_denominator(a, 0x100000000, 256);
    vstd::arithmetic::div_mod::lemma_div_denominator(a, 0x10000000000, 256);
    vstd::arithmetic::div_mod::lemma_div_denominator(a, 0x1000000000000, 256);
    vstd::arithmetic::div_mod::lemma_fundamental_div_mod(a, 256);
    vstd::arithmetic::div_mod::lemma_fundamental_div_mod(a / 256, 256);
    vstd::arithmetic::div_mod::lemma_fundamental_div_mod(a / 0x10000, 256);
    vstd::arithmetic::div_mod::lemma_fundamental_div_mod(a / 0x1000000, 256);
    vstd::arithmetic::div_mod::lemma_fundamental_div_mod(a / 0x100000000, 256);
    vstd::arithmetic::div_mod::lemma_fundamental_div_mod(a / 0x10000000000, 256);
    vstd::arithmetic::div_mod::lemma_fundamental_div_mod(a / 0x1000000000000, 256);
    vstd::arithmetic::div_mod::lemma_div_pos_is_pos(a, 0x100000000000000);
    vstd::arithmetic::div_mod::lemma_multiply_divide_lt(a, 0x100000000000000, 256);
    vstd::arithmetic::div_mod::lemma_small_mod((a / 0x100000000000000) as nat, 256nat);
}

/// Two lengths below two to the sixty-fourth with the same encoding are equal.
proof fn lemma_u64_le_inj(a: int, b: int)
    requires
        0 <= a < 0x10000000000000000,
        0 <= b < 0x10000000000000000,
        u64_le(a) == u64_le(b),
    ensures
        a == b,
{
    reveal(u64_le);
    assert(u64_le(a)[0] == u64_le(b)[0]);
    assert(u64_le(a)[1] == u64_le(b)[1]);
    assert(u64_le(a)[2] == u64_le(b)[2]);
    assert(u64_le(a)[3] == u64_le(b)[3]);
    assert(u64_le(a)[4] == u64_le(b)[4]);
    assert(u64_le(a)[5] == u64_le(b)[5]);
    assert(u64_le(a)[6] == u64_le(b)[6]);
    assert(u64_le(a)[7] == u64_le(b)[7]);
    lemma_digit_eq(a, b, 1);
    lemma_digit_eq(a, b, 256);
    lemma_digit_eq(a, b, 0x10000);
    lemma_digit_eq(a, b, 0x1000000);
    lemma_digit_eq(a, b, 0x100000000);
    lemma_digit_eq(a, b, 0x10000000000);
    lemma_digit_eq(a, b, 0x1000000000000);
    lemma_digit_eq(a, b, 0x100000000000000);
    lemma_u64_digits(a);
    lemma_u64_digits(b);
}

proof fn lemma_digit_eq(a: int, b: int, k: int)
    requires
        0 <= a,
        0 <= b,
        0 < k,
        ((a / k) % 256) as u8 == ((b / k) % 256) as u8,
    ensures
        (a / k) % 256 == (b / k) % 256,
{
    vstd::arithmetic::div_mod::lemma_div_pos_is_pos(a, k);
    vstd::arithmetic::div_mod::lemma_div_pos_is_pos(b, k);
    vstd::arithmetic::div_mod::lemma_mod_bound(a / k, 256);
    vstd::arithmetic::div_mod::lemma_mod_bound(b / k, 256);
}

/// Read one framed length.
#[verifier::rlimit(60)]
fn parse_u64(bytes: &[u8], start: usize) -> (r: Option<(u64, usize)>)
    ensures
        r matches Some((n, end)) ==> start + 8 == end && end <= bytes@.len() && bytes@.subrange(
            start as int,
            end as int,
        ) == u64_le(n as int),
        start + 8 <= bytes@.len() ==> r is Some,
        r matches Some((n, end)) ==> forall|w: int|
            0 <= w < 0x10000000000000000 && u64_le(w) == bytes@.subrange(
                start as int,
                start as int + 8,
            ) ==> w == n as int,
{
    if bytes.len() < 8 || start > bytes.len() - 8 {
        return None;
    }
    let b0 = bytes[start] as u64;
    let b1 = bytes[start + 1] as u64;
    let b2 = bytes[start + 2] as u64;
    let b3 = bytes[start + 3] as u64;
    let b4 = bytes[start + 4] as u64;
    let b5 = bytes[start + 5] as u64;
    let b6 = bytes[start + 6] as u64;
    let b7 = bytes[start + 7] as u64;
    let v6: u64 = b6 + 256 * b7;
    let v5: u64 = b5 + 256 * v6;
    let v4: u64 = b4 + 256 * v5;
    let v3: u64 = b3 + 256 * v4;
    let v2: u64 = b2 + 256 * v3;
    let v1: u64 = b1 + 256 * v2;
    let n: u64 = b0 + 256 * v1;
    proof {
        reveal(u64_le);
        lemma_le_level(n as int, b0 as int, v1 as int);
        lemma_le_level(v1 as int, b1 as int, v2 as int);
        lemma_le_level(v2 as int, b2 as int, v3 as int);
        lemma_le_level(v3 as int, b3 as int, v4 as int);
        lemma_le_level(v4 as int, b4 as int, v5 as int);
        lemma_le_level(v5 as int, b5 as int, v6 as int);
        lemma_le_level(v6 as int, b6 as int, b7 as int);
        lemma_le_level(b7 as int, b7 as int, 0);
        assert(bytes@.subrange(start as int, start as int + 8) =~= u64_le(n as int));
        assert forall|w: int|
            0 <= w < 0x10000000000000000 && u64_le(w) == bytes@.subrange(
                start as int,
                start as int + 8,
            ) implies w == n as int by {
            lemma_u64_le_inj(w, n as int);
        };
    }
    Some((n, start + 8))
}

proof fn lemma_le_level(v: int, b: int, rest: int)
    requires
        0 <= b < 256,
        0 <= rest,
        v == b + 256 * rest,
    ensures
        v % 256 == b,
        v / 256 == rest,
{
    vstd::arithmetic::div_mod::lemma_fundamental_div_mod_converse(v, 256, rest, b);
}

impl Matrix<Scalar> {
    /// The canonical encoding: the length-framed row-major nested sequence
    /// of the entries; scalar matrices encode identically in both modes.
    /// A matrix with zero rows encodes, but its encoding does not record the
    /// column count and is therefore not decodable.
    pub fn serialize(&self) -> (r: Vec<u8>)
        ensures
            r@ == fr_mat_enc(self.sval_rows()),
    {
        let (rows, cols) = self.dim();
        let mut out = u64_to_le(rows as u64);
        proof {
            assert(self.sval_rows().take(0) =~= Seq::<Seq<int>>::empty());
            assert(out@ =~= u64_le(rows as int) + fr_rows_enc(self.sval_rows().take(0)));
        }
        for i in 0..rows
            invariant
                rows as int == self.nrows(),
                cols as int == self.ncols(),
                out@ == u64_le(rows as int) + fr_rows_enc(self.sval_rows().take(i as int)),
        {
            let mut rowb = u64_to_le(cols as u64);
            proof {
                assert(self.svals_row(i as int).take(0) =~= Seq::<int>::empty());
                assert(rowb@ =~= u64_le(cols as int) + fr_cells_enc(
                    self.svals_row(i as int).take(0),
                ));
            }
            for j in 0..cols
                invariant
                    rows as int == self.nrows(),
                    cols as int == self.ncols(),
                    i < rows,
                    rowb@ == u64_le(cols as int) + fr_cells_enc(
                        self.svals_row(i as int).take(j as int),
                    ),
            {
                let cell = self.get(i, j);
                let mut cb = cell.to_bytes();
                rowb.append(&mut cb);
                proof {
                    lemma_cells_step(self.svals_row(i as int), j as int);
                    assert(self.svals_row(i as int)[j as int] == fr_val(cell));
                }
            }
            out.append(&mut rowb);
            proof {
                assert(self.svals_row(i as int).take(cols as int) =~= self.svals_row(i as int));
                lemma_rows_step(self.sval_rows(), i as int);
                assert(self.sval_rows()[i as int] == self.svals_row(i as int));
                assert(fr_vec_enc(self.svals_row(i as int)) == u64_le(cols as int) + fr_cells_enc(
                    self.svals_row(i as int),
                ));
            }
        }
        proof {
            assert(self.sval_rows().take(rows as int) =~= self.sval_rows());
        }
        out
    }

    /// Decode a canonical encoding of a non-empty rectangular scalar matrix;
    /// anything else yields `None`.  Every encoding of a decodable row
    /// sequence is accepted and restored exactly.
    pub fn deserialize(bytes: &[u8]) -> (r: Option<Matrix<Scalar>>)
        ensures
            r matches Some(m) ==> bytes@ == fr_mat_enc(m.sval_rows()) && m.nrows() > 0,
            forall|rv: Seq<Seq<int>>|
                (#[trigger] fr_mat_decodable(rv)) && bytes@ == fr_mat_enc(rv) ==> (r matches Some(
                    m,
                ) && m.sval_rows() == rv),
    {
        proof {
            assert forall|rv: Seq<Seq<int>>|
                (#[trigger] fr_mat_decodable(rv)) && bytes@ == fr_mat_enc(rv) implies fr_mat_hyp(
                rv,
                bytes@,
                0,
            ) by {
                assert(bytes@.subrange(0, fr_mat_enc(rv).len() as int) =~= fr_mat_enc(rv));
            };
        }
        match parse_scalar_matrix(bytes, 0) {
            Some((m, end)) => {
                if end == bytes.len() {
                    proof {
                        assert(bytes@.subrange(0, bytes@.len() as int) =~= bytes@);
                    }
                    Some(m)
                } else {
                    proof {
                        assert forall|rv: Seq<Seq<int>>|
                            (#[trigger] fr_mat_decodable(rv)) && bytes@ == fr_mat_enc(
                                rv,
                            ) implies false by {
                            assert(end == 0 + fr_mat_enc(rv).len());
                        };
                    }
                    None
                }
            },
            None => {
                None
            },
        }
    }
}


proof fn lemma_u64_le_len(n: int)
    ensures
        u64_le(n).len() == 8,
{
    reveal(u64_le);
}

/// The residues of a list of scalars.
pub open spec fn svals(v: Seq<Scalar>) -> Seq<int> {
    v.map_values(|x: Scalar| fr_val(x))
}

/// Whether a residue sequence can stand in a decodable cell run: reduced
/// values whose encodings have the canonical size.
pub open spec fn fr_cells_decodable(vals: Seq<int>) -> bool {
    &&& forall|j: int| 0 <= j < vals.len() ==> 0 <= #[trigger] vals[j] < fr_order()
    &&& forall|j: int| 0 <= j < vals.len() ==> (#[trigger] fr_bytes(vals[j])).len() == 32
}

proof fn lemma_cells_enc_len(vals: Seq<int>)
    requires
        fr_cells_decodable(vals),
    ensures
        fr_cells_enc(vals).len() == 32 * vals.len(),
    decreases vals.len(),
{
    if vals.len() == 0 {
    } else {
        assert(fr_cells_decodable(vals.drop_last()));
        lemma_cells_enc_len(vals.drop_last());
    }
}

proof fn lemma_cells_enc_index(vals: Seq<int>, j: int)
    requires
        fr_cells_decodable(vals),
        0 <= j < vals.len(),
    ensures
        fr_cells_enc(vals).subrange(32 * j, 32 * j + 32) == fr_bytes(vals[j]),
    decreases vals.len(),
{
    assert(fr_cells_decodable(vals.drop_last()));
    lemma_cells_enc_len(vals.drop_last());
    if j == vals.len() - 1 {
        assert(fr_cells_enc(vals).subrange(32 * j, 32 * j + 32) =~= fr_bytes(vals[j]));
    } else {
        lemma_cells_enc_index(vals.drop_last(), j);
        assert(fr_cells_enc(vals).subrange(32 * j, 32 * j + 32) =~= fr_cells_enc(
            vals.drop_last(),
        ).subrange(32 * j, 32 * j + 32));
    }
}

/// Whether a row sequence is a value a framed scalar matrix can encode:
/// non-empty, rectangular, within the length caps, with decodable cells.
pub open spec fn fr_mat_decodable(rows: Seq<Seq<int>>) -> bool {
    &&& 0 < rows.len() <= 0xffff_ffff
    &&& rows[0].len() <= 0xffff_ffff
    &&& forall|i: int| 0 <= i < rows.len() ==> (#[trigger] rows[i]).len() == rows[0].len()
    &&& forall|i: int| 0 <= i < rows.len() ==> fr_cells_decodable(#[trigger] rows[i])
}

/// The encodings of the rows from position `i` on.
pub open spec fn fr_rows_enc_from(rows: Seq<Seq<int>>, i: int) -> Seq<u8>
    decreases rows.len() - i,
{
    if i < 0 || i >= rows.len() {
        Seq::empty()
    } else {
        fr_vec_enc(rows[i]) + fr_rows_enc_from(rows, i + 1)
    }
}

proof fn lemma_rows_enc_suffix(rows: Seq<Seq<int>>, i: int)
    requires
        0 <= i <= rows.len(),
    ensures
        fr_rows_enc(rows) == fr_rows_enc(rows.take(i)) + fr_rows_enc_from(rows, i),
    decreases rows.len() - i,
{
    if i == rows.len() {
        assert(rows.take(i) =~= rows);
        assert(fr_rows_enc(rows) =~= fr_rows_enc(rows.take(i)) + fr_rows_enc_from(rows, i));
    } else {
        lemma_rows_enc_suffix(rows, i + 1);
        lemma_rows_step(rows, i);
        assert(fr_rows_enc(rows.take(i + 1)) + fr_rows_enc_from(rows, i + 1) =~= fr_rows_enc(
            rows.take(i),
        ) + fr_rows_enc_from(rows, i));
    }
}

/// The full hypothesis under which a framed scalar matrix must parse: the
/// buffer holds the encoding of `rows` at `start`.
pub open spec fn fr_mat_hyp(rows: Seq<Seq<int>>, b: Seq<u8>, start: int) -> bool {
    &&& fr_mat_decodable(rows)
    &&& 0 <= start
    &&& start + fr_mat_enc(rows).len() <= b.len()
    &&& b.subrange(start, start + fr_mat_enc(rows).len() as int) == fr_mat_enc(rows)
}

/// Read `count` scalar encodings starting at `start`.
fn parse_fr_cells(bytes: &[u8], start: usize, count: usize) -> (r: Option<(Vec<Scalar>, usize)>)
    ensures
        r matches Some((row, end)) ==> start <= end <= bytes@.len() && row@.len() == count
            && end == start + 32 * count && bytes@.subrange(start as int, end as int)
            == fr_cells_enc(svals(row@)) && fr_cells_decodable(svals(row@)),
        forall|vals: Seq<int>|
            (#[trigger] fr_cells_decodable(vals)) && vals.len() == count && start + 32 * count
                <= bytes@.len() && bytes@.subrange(start as int, start as int + 32 * count)
                == fr_cells_enc(vals) ==> (r matches Some((row, end)) && svals(row@) == vals),
{
    let mut row: Vec<Scalar> = Vec::new();
    let mut pos = start;
    if start > bytes.len() {
        proof {
            assert forall|vals: Seq<int>|
                (#[trigger] fr_cells_decodable(vals)) && vals.len() == count && start + 32 * count
                    <= bytes@.len() && bytes@.subrange(start as int, start as int + 32 * count)
                    == fr_cells_enc(vals) implies false by {
            };
        }
        return None;
    }
    for j in 0..count
        invariant
            start <= pos <= bytes@.len(),
            pos == start + 32 * j,
            row@.len() == j,
            bytes@.subrange(start as int, pos as int) == fr_cells_enc(svals(row@)),
            fr_cells_decodable(svals(row@)),
            forall|vals: Seq<int>|
                (#[trigger] fr_cells_decodable(vals)) && vals.len() == count && start + 32 * count
                    <= bytes@.len() && bytes@.subrange(start as int, start as int + 32 * count)
                    == fr_cells_enc(vals) ==> svals(row@) == vals.take(j as int),
    {
        proof {
            assert forall|vals: Seq<int>|
                (#[trigger] fr_cells_decodable(vals)) && vals.len() == count && start + 32 * count
                    <= bytes@.len() && bytes@.subrange(start as int, start as int + 32 * count)
                    == fr_cells_enc(vals) implies bytes@.subrange(pos as int, pos as int + 32)
                == fr_bytes(vals[j as int]) && 0 <= vals[j as int] < fr_order() by {
                lemma_cells_enc_len(vals);
                lemma_cells_enc_index(vals, j as int);
                assert(bytes@.subrange(pos as int, pos as int + 32) =~= fr_cells_enc(
                    vals,
                ).subrange(32 * j, 32 * j + 32));
            };
        }
        if bytes.len() < 32 || pos > bytes.len() - 32 {
            return None;
        }
        let sl = slice_subrange(bytes, pos, pos + 32);
        let s = match Scalar::from_bytes(sl) {
            Some(s) => { s },
            None => { return None; },
        };
        let ghost oldvals = svals(row@);
        row.push(s);
        pos = pos + 32;
        proof {
            let newvals = svals(row@);
            assert(newvals.drop_last() =~= oldvals);
            assert(newvals.last() == fr_val(s));
            assert(fr_cells_enc(newvals) == fr_cells_enc(oldvals) + fr_bytes(fr_val(s)));
            assert(bytes@.subrange(start as int, pos as int) =~= bytes@.subrange(
                start as int,
                pos as int - 32,
            ) + bytes@.subrange(pos as int - 32, pos as int));
            assert(fr_cells_decodable(newvals)) by {
                assert(fr_bytes(fr_val(s)).len() == sl@.len());
                assert forall|q: int| 0 <= q < newvals.len() implies 0 <= #[trigger] newvals[q]
                    < fr_order() by {
                    if q < oldvals.len() {
                        assert(newvals[q] == oldvals[q]);
                    } else {
                        assert(newvals[q] == fr_val(s));
                    }
                };
                assert forall|q: int| 0 <= q < newvals.len() implies (#[trigger] fr_bytes(
                    newvals[q],
                )).len() == 32 by {
                    if q < oldvals.len() {
                        assert(newvals[q] == oldvals[q]);
                    } else {
                        assert(newvals[q] == fr_val(s));
                    }
                };
            };
            assert forall|vals: Seq<int>|
                (#[trigger] fr_cells_decodable(vals)) && vals.len() == count && start + 32 * count
                    <= bytes@.len() && bytes@.subrange(start as int, start as int + 32 * count)
                    == fr_cells_enc(vals) implies newvals == vals.take(j + 1) by {
                assert(newvals =~= vals.take(j as int).push(vals[j as int]));
                assert(vals.take(j + 1) =~= vals.take(j as int).push(vals[j as int]));
            };
        }
    }
    proof {
        assert forall|vals: Seq<int>|
            (#[trigger] fr_cells_decodable(vals)) && vals.len() == count && start + 32 * count
                <= bytes@.len() && bytes@.subrange(start as int, start as int + 32 * count)
                == fr_cells_enc(vals) implies svals(row@) == vals by {
            assert(vals.take(count as int) =~= vals);
        };
    }
    Some((row, pos))
}

/// Read one framed scalar matrix starting at `start`; on success the second
/// component is the position one past its encoding.  Every buffer holding
/// the encoding of a decodable row sequence at `start` is accepted and
/// restored exactly; a zero-row encoding is rejected, since it does not
/// determine the column count.
pub fn parse_scalar_matrix(bytes: &[u8], start: usize) -> (r: Option<(Matrix<Scalar>, usize)>)
    ensures
        r matches Some((m, end)) ==> start <= end <= bytes@.len() && bytes@.subrange(
            start as int,
            end as int,
        ) == fr_mat_enc(m.sval_rows()) && m.nrows() > 0,
        forall|rv: Seq<Seq<int>>|
            (#[trigger] fr_mat_hyp(rv, bytes@, start as int)) ==> (r matches Some((m, end))
                && end == start + fr_mat_enc(rv).len() && m.sval_rows() == rv),
{
    let parsed_rows = parse_u64(bytes, start);
    proof {
        assert forall|rv: Seq<Seq<int>>| #[trigger]
            fr_mat_hyp(rv, bytes@, start as int) implies start + 8 <= bytes@.len()
            && bytes@.subrange(start as int, start as int + 8) == u64_le(rv.len() as int) by {
            lemma_u64_le_len(rv.len() as int);
            assert(bytes@.subrange(start as int, start as int + 8) =~= fr_mat_enc(rv).subrange(
                0,
                8,
            ));
            assert(fr_mat_enc(rv).subrange(0, 8) =~= u64_le(rv.len() as int));
        };
    }
    let (rows_n, mut pos) = match parsed_rows {
        Some(x) => { x },
        None => { return None; },
    };
    proof {
        assert forall|rv: Seq<Seq<int>>| #[trigger]
            fr_mat_hyp(rv, bytes@, start as int) implies rows_n as int == rv.len() by {
        };
    }
    if rows_n == 0 || rows_n > 0xffff_ffff {
        return None;
    }
    let rows = rows_n as usize;
    let mut vecs: Vec<Vec<Scalar>> = Vec::new();
    let mut cols: usize = 0;
    let ghost mut rowvals: Seq<Seq<int>> = Seq::empty();
    proof {
        assert(fr_rows_enc(rowvals) =~= Seq::<u8>::empty());
        assert(bytes@.subrange(start as int, pos as int) =~= u64_le(rows as int) + fr_rows_enc(
            rowvals,
        ));
    }
    for i in 0..rows
        invariant
            rows_n == rows as u64,
            rows_n <= 0xffff_ffff,
            start <= pos <= bytes@.len(),
            vecs@.len() == i,
            rowvals.len() == i,
            forall|a: int| 0 <= a < i ==> (#[trigger] vecs@[a])@.len() == cols,
            forall|a: int|
                0 <= a < i ==> rowvals[a] == (#[trigger] vecs@[a])@.map_values(
                    |x: Scalar| fr_val(x),
                ),
            bytes@.subrange(start as int, pos as int) == u64_le(rows as int) + fr_rows_enc(
                rowvals,
            ),
            forall|rv: Seq<Seq<int>>|
                (#[trigger] fr_mat_hyp(rv, bytes@, start as int)) ==> (rows as int == rv.len()
                    && rowvals == rv.take(i as int) && (i > 0 ==> cols as int == rv[0].len())),
    {
        proof {
            assert forall|rv: Seq<Seq<int>>| #[trigger]
                fr_mat_hyp(rv, bytes@, start as int) implies bytes@.subrange(
                pos as int,
                start + fr_mat_enc(rv).len(),
            ) == fr_rows_enc_from(rv, i as int) && pos + fr_vec_enc(rv[i as int]).len()
                <= bytes@.len() && bytes@.subrange(pos as int, pos as int + 8) == u64_le(
                rv[0].len() as int,
            ) && bytes@.subrange(pos as int + 8, pos as int + 8 + 32 * rv[0].len() as int)
                == fr_cells_enc(rv[i as int]) by {
                lemma_u64_le_len(rv.len() as int);
                lemma_u64_le_len(rv[0].len() as int);
                lemma_rows_enc_suffix(rv, i as int);
                lemma_cells_enc_len(rv[i as int]);
                assert(rv[i as int].len() == rv[0].len());
                let enc = fr_mat_enc(rv);
                let head = (8 + fr_rows_enc(rv.take(i as int)).len()) as int;
                assert(rowvals == rv.take(i as int));
                assert(bytes@.subrange(start as int, pos as int).len() == pos - start);
                assert((u64_le(rows as int) + fr_rows_enc(rowvals)).len() == 8 + fr_rows_enc(
                    rv.take(i as int),
                ).len()) by {
                    lemma_u64_le_len(rows as int);
                };
                assert(pos as int == start + head);
                assert(bytes@.subrange(start as int, start + enc.len()) == enc);
                assert(bytes@.subrange(pos as int, start + enc.len()) =~= enc.subrange(
                    head,
                    enc.len() as int,
                ));
                assert(enc.subrange(head, enc.len() as int) =~= fr_rows_enc_from(rv, i as int));
                let from = fr_rows_enc_from(rv, i as int);
                assert(from == fr_vec_enc(rv[i as int]) + fr_rows_enc_from(rv, i + 1));
                assert(bytes@.subrange(pos as int, pos as int + 8) =~= from.subrange(0, 8));
                assert(from.subrange(0, 8) =~= u64_le(rv[0].len() as int));
                assert(bytes@.subrange(pos as int + 8, pos as int + 8 + 32 * rv[0].len() as int)
                    =~= from.subrange(8, 8 + 32 * rv[0].len() as int));
                assert(from.subrange(8, 8 + 32 * rv[0].len() as int) =~= fr_cells_enc(rv[i as int]));
            };
        }
        let parsed_cols = parse_u64(bytes, pos);
        let (cols_n, rpos) = match parsed_cols {
            Some(x) => { x },
            None => {
                proof {
                    assert forall|rv: Seq<Seq<int>>| #[trigger]
                        fr_mat_hyp(rv, bytes@, start as int) implies false by {
                        lemma_u64_le_len(rv[0].len() as int);
                        lemma_cells_enc_len(rv[i as int]);
                        assert(fr_vec_enc(rv[i as int]).len() >= 8);
                        assert(pos + 8 <= bytes@.len());
                    };
                }
                return None;
            },
        };
        proof {
            assert forall|rv: Seq<Seq<int>>| #[trigger]
                fr_mat_hyp(rv, bytes@, start as int) implies cols_n as int == rv[0].len() by {
            };
        }
        if i == 0 {
            if cols_n > 0xffff_ffff {
                proof {
                    assert forall|rv: Seq<Seq<int>>| #[trigger]
                        fr_mat_hyp(rv, bytes@, start as int) implies false by {
                        assert(cols_n as int == rv[0].len());
                    };
                }
                return None;
            }
            cols = cols_n as usize;
        } else {
            if cols_n != cols as u64 {
                proof {
                    assert forall|rv: Seq<Seq<int>>| #[trigger]
                        fr_mat_hyp(rv, bytes@, start as int) implies false by {
                        assert(cols_n as int == rv[0].len());
                        assert(cols as int == rv[0].len());
                    };
                }
                return None;
            }
        }
        let parsed_row = parse_fr_cells(bytes, rpos, cols);
        proof {
            assert forall|rv: Seq<Seq<int>>| #[trigger]
                fr_mat_hyp(rv, bytes@, start as int) implies (parsed_row matches Some((row, _))
                && svals(row@) == rv[i as int]) by {
                assert(fr_cells_decodable(rv[i as int]));
                assert(cols_n as int == rv[0].len());
                assert(rv[i as int].len() == cols);
                lemma_u64_le_len(rv[0].len() as int);
                lemma_cells_enc_len(rv[i as int]);
                assert(fr_vec_enc(rv[i as int]).len() == 8 + 32 * cols);
                assert(rpos + 32 * cols <= bytes@.len());
                assert(bytes@.subrange(rpos as int, rpos as int + 32 * cols) == fr_cells_enc(
                    rv[i as int],
                ));
            };
        }
        let (row, rend) = match parsed_row {
            Some(x) => { x },
            None => {
                proof {
                    assert forall|rv: Seq<Seq<int>>| #[trigger]
                        fr_mat_hyp(rv, bytes@, start as int) implies false by {
                    };
                }
                return None;
            },
        };
        let ghost newrow = svals(row@);
        vecs.push(row);
        proof {
            let oldrows = rowvals;
            rowvals = rowvals.push(newrow);
            assert(rowvals.drop_last() =~= oldrows);
            assert(rowvals.last() == newrow);
            assert(fr_rows_enc(rowvals) == fr_rows_enc(oldrows) + fr_vec_enc(newrow));
            assert(newrow.len() == cols as int);
            assert(bytes@.subrange(start as int, rend as int) =~= bytes@.subrange(
                start as int,
                pos as int,
            ) + bytes@.subrange(pos as int, rpos as int) + bytes@.subrange(
                rpos as int,
                rend as int,
            ));
            assert(u64_le(rows as int) + fr_rows_enc(rowvals) =~= u64_le(rows as int)
                + fr_rows_enc(oldrows) + u64_le(cols as int) + fr_cells_enc(newrow));
            assert forall|rv: Seq<Seq<int>>| #[trigger]
                fr_mat_hyp(rv, bytes@, start as int) implies rowvals == rv.take(i + 1) by {
                assert(newrow == rv[i as int]);
                assert(rv.take(i + 1) =~= rv.take(i as int).push(rv[i as int]));
            };
        }
        pos = rend;
    }
    let m = Matrix::from_vecs(&vecs);
    proof {
        assert forall|i: int| 0 <= i < m.nrows() implies m.sval_rows()[i] == rowvals[i] by {
            assert(rowvals[i] == vecs@[i]@.map_values(|x: Scalar| fr_val(x)));
            assert(vecs@[i]@.len() == cols);
            assert forall|j: int| 0 <= j < m.ncols() implies m.svals_row(i)[j] == rowvals[i][j] by {
                assert(m.entry(i, j) == vecs@[i]@[j]);
            };
            assert(m.svals_row(i) =~= rowvals[i]);
        };
        assert(m.sval_rows() =~= rowvals);
        assert forall|rv: Seq<Seq<int>>| #[trigger]
            fr_mat_hyp(rv, bytes@, start as int) implies pos == start + fr_mat_enc(rv).len()
            && m.sval_rows() == rv by {
            lemma_u64_le_len(rv.len() as int);
            assert(rv.take(rows as int) =~= rv);
            lemma_rows_enc_suffix(rv, rows as int);
            assert(fr_rows_enc_from(rv, rows as int) =~= Seq::<u8>::empty());
            assert(fr_rows_enc(rv) + Seq::<u8>::empty() =~= fr_rows_enc(rv));
            assert(fr_rows_enc(rowvals) == fr_rows_enc(rv));
            assert(bytes@.subrange(start as int, pos as int).len() == (u64_le(rows as int)
                + fr_rows_enc(rv)).len());
        };
    }
    Some((m, pos))
}

/// Whether a model list can stand in a decodable commitment list: width-two
/// reduced models whose point encodings have the canonical size.
pub open spec fn com1_list_decodable(ms: Seq<Seq<int>>, compress: bool) -> bool {
    &&& forall|i: int| 0 <= i < ms.len() ==> (#[trigger] ms[i]).len() == 2
    &&& forall|i: int| 0 <= i < ms.len() ==> mwf(#[trigger] ms[i])
    &&& forall|i: int|
        0 <= i < ms.len() ==> g1_bytes((#[trigger] ms[i])[0], compress).len() == g1_enc_len(
            compress,
        ) && g1_bytes(ms[i][1], compress).len() == g1_enc_len(compress)
}

proof fn lemma_com1_list_len(ms: Seq<Seq<int>>, compress: bool)
    requires
        com1_list_decodable(ms, compress),
    ensures
        com1_list_enc(ms, compress).len() == ms.len() * (2 * g1_enc_len(compress)),
    decreases ms.len(),
{
    let k = 2 * g1_enc_len(compress) as int;
    if ms.len() == 0 {
        assert(ms.len() * k == 0) by (nonlinear_arith)
            requires
                ms.len() == 0,
        ;
    } else {
        assert(com1_list_decodable(ms.drop_last(), compress));
        lemma_com1_list_len(ms.drop_last(), compress);
        assert((ms.len() - 1) * k + k == ms.len() * k) by (nonlinear_arith);
    }
}

proof fn lemma_com1_list_index(ms: Seq<Seq<int>>, compress: bool, i: int)
    requires
        com1_list_decodable(ms, compress),
        0 <= i < ms.len(),
    ensures
        com1_list_enc(ms, compress).subrange(
            i * (2 * g1_enc_len(compress)),
            i * (2 * g1_enc_len(compress)) + 2 * g1_enc_len(compress),
        ) == com1_enc(ms[i], compress),
    decreases ms.len(),
{
    let k = 2 * g1_enc_len(compress) as int;
    assert(com1_list_decodable(ms.drop_last(), compress));
    lemma_com1_list_len(ms.drop_last(), compress);
    if i == ms.len() - 1 {
        assert((ms.len() - 1) * k == com1_list_enc(ms.drop_last(), compress).len());
        assert(com1_list_enc(ms, compress).subrange(i * k, i * k + k) =~= com1_enc(
            ms[i],
            compress,
        ));
    } else {
        lemma_com1_list_index(ms.drop_last(), compress, i);
        assert(i * k + k <= (ms.len() - 1) * k) by (nonlinear_arith)
            requires
                0 <= i < ms.len() - 1,
                k >= 0,
        ;
        assert(com1_list_enc(ms, compress).subrange(i * k, i * k + k) =~= com1_list_enc(
            ms.drop_last(),
            compress,
        ).subrange(i * k, i * k + k));
    }
}

/// The full hypothesis under which a commitment batch must parse: the buffer
/// is exactly the encoding of the decodable lists `ms` and `rand`.
pub open spec fn commit1_hyp(
    ms: Seq<Seq<int>>,
    rand: Seq<Seq<int>>,
    b: Seq<u8>,
    compress: bool,
) -> bool {
    &&& ms.len() <= 0xffff_ffff
    &&& com1_list_decodable(ms, compress)
    &&& fr_mat_decodable(rand)
    &&& b == commit1_enc(ms, rand, compress)
}

impl Commit1 {
    /// The canonical encoding: the framed commitment list, then the
    /// randomness matrix.
    pub fn serialize(&self, compress: bool) -> (r: Vec<u8>)
        ensures
            r@ == commit1_enc(c1_models(self.coms@), self.rand.sval_rows(), compress),
    {
        let n = self.coms.len();
        let mut out = u64_to_le(n as u64);
        proof {
            assert(c1_models(self.coms@).take(0) =~= Seq::<Seq<int>>::empty());
            assert(out@ =~= u64_le(n as int) + com1_list_enc(
                c1_models(self.coms@).take(0),
                compress,
            ));
        }
        for i in 0..n
            invariant
                n == self.coms@.len(),
                out@ == u64_le(n as int) + com1_list_enc(
                    c1_models(self.coms@).take(i as int),
                    compress,
                ),
        {
            let mut cb = self.coms[i].serialize(compress);
            out.append(&mut cb);
            proof {
                lemma_com1_list_step(c1_models(self.coms@), compress, i as int);
                assert(c1_models(self.coms@)[i as int] == self.coms@[i as int].model());
            }
        }
        let mut mb = self.rand.serialize();
        out.append(&mut mb);
        proof {
            assert(c1_models(self.coms@).take(n as int) =~= c1_models(self.coms@));
        }
        out
    }

    /// Decode a canonical encoding; anything else yields `None`.  Every
    /// buffer holding the encoding of decodable commitment and randomness
    /// lists is accepted and restored exactly.
    pub fn deserialize(bytes: &[u8], compress: bool) -> (r: Option<Commit1>)
        ensures
            r matches Some(v) ==> bytes@ == commit1_enc(
                c1_models(v.coms@),
                v.rand.sval_rows(),
                compress,
            ),
            forall|ms: Seq<Seq<int>>, rmat: Seq<Seq<int>>|
                (#[trigger] commit1_hyp(ms, rmat, bytes@, compress)) ==> (r matches Some(v)
                    && c1_models(v.coms@) == ms && v.rand.sval_rows() == rmat),
    {
        let parsed_count = parse_u64(bytes, 0);
        proof {
            assert forall|ms: Seq<Seq<int>>, rmat: Seq<Seq<int>>| #[trigger]
                commit1_hyp(ms, rmat, bytes@, compress) implies 8 <= bytes@.len()
                && bytes@.subrange(0, 8) == u64_le(ms.len() as int) by {
                lemma_u64_le_len(ms.len() as int);
                assert(bytes@.subrange(0, 8) =~= u64_le(ms.len() as int));
            };
        }
        let (count_n, mut pos) = match parsed_count {
            Some(x) => { x },
            None => { return None; },
        };
        proof {
            assert forall|ms: Seq<Seq<int>>, rmat: Seq<Seq<int>>| #[trigger]
                commit1_hyp(ms, rmat, bytes@, compress) implies count_n as int == ms.len() by {
            };
        }
        if count_n > 0xffff_ffff {
            return None;
        }
        let count = count_n as usize;
        let w = if compress {
            2 * 48
        } else {
            2 * 96
        };
        let mut coms: Vec<Com1> = Vec::new();
        proof {
            assert(c1_models(coms@) =~= Seq::<Seq<int>>::empty());
            assert(bytes@.subrange(0, pos as int) =~= u64_le(count as int) + com1_list_enc(
                c1_models(coms@),
                compress,
            ));
        }
        for i in 0..count
            invariant
                count_n == count as u64,
                pos <= bytes@.len(),
                w == 2 * g1_enc_len(compress),
                coms@.len() == i,
                bytes@.subrange(0, pos as int) == u64_le(count as int) + com1_list_enc(
                    c1_models(coms@),
                    compress,
                ),
                forall|ms: Seq<Seq<int>>, rmat: Seq<Seq<int>>|
                    (#[trigger] commit1_hyp(ms, rmat, bytes@, compress)) ==> (count as int
                        == ms.len() && c1_models(coms@) == ms.take(i as int)),
        {
            proof {
                assert forall|ms: Seq<Seq<int>>, rmat: Seq<Seq<int>>| #[trigger]
                    commit1_hyp(ms, rmat, bytes@, compress) implies pos + w <= bytes@.len()
                    && bytes@.subrange(pos as int, pos as int + w) == com1_enc(
                    ms[i as int],
                    compress,
                ) by {
                    lemma_u64_le_len(ms.len() as int);
                    lemma_com1_list_len(ms, compress);
                    assert(com1_list_decodable(ms.take(i as int), compress));
                    lemma_com1_list_len(ms.take(i as int), compress);
                    lemma_com1_list_index(ms, compress, i as int);
                    assert(c1_models(coms@) == ms.take(i as int));
                    assert(bytes@.subrange(0, pos as int).len() == pos as int);
                    assert(pos as int == 8 + com1_list_enc(ms.take(i as int), compress).len())
                        by {
                        lemma_u64_le_len(count as int);
                    };
                    assert(pos as int == 8 + i * w) by (nonlinear_arith)
                        requires
                            pos as int == 8 + com1_list_enc(ms.take(i as int), compress).len(),
                            com1_list_enc(ms.take(i as int), compress).len() == ms.take(
                                i as int,
                            ).len() * w,
                            ms.take(i as int).len() == i,
                    ;
                    assert(i * w + w <= ms.len() * w) by (nonlinear_arith)
                        requires
                            0 <= i < ms.len(),
                            w >= 0,
                    ;
                    assert(bytes@.subrange(pos as int, pos as int + w) =~= com1_list_enc(
                        ms,
                        compress,
                    ).subrange(i * w, i * w + w));
                };
            }
            if bytes.len() < w || pos > bytes.len() - w {
                return None;
            }
            let sl = slice_subrange(bytes, pos, pos + w);
            let parsed = Com1::deserialize(sl, compress);
            proof {
                assert forall|ms: Seq<Seq<int>>, rmat: Seq<Seq<int>>| #[trigger]
                    commit1_hyp(ms, rmat, bytes@, compress) implies (parsed matches Some(cv)
                    && cv.model() == ms[i as int]) by {
                    assert(com1_enc(ms[i as int], compress) == sl@);
                };
            }
            let cpt = match parsed {
                Some(cpt) => { cpt },
                None => { return None; },
            };
            let ghost oldms = c1_models(coms@);
            coms.push(cpt);
            proof {
                let newms = c1_models(coms@);
                assert(newms.drop_last() =~= oldms);
                assert(com1_list_enc(newms, compress) == com1_list_enc(oldms, compress)
                    + com1_enc(cpt.model(), compress));
                assert(bytes@.subrange(0, pos as int + w) =~= bytes@.subrange(0, pos as int)
                    + bytes@.subrange(pos as int, pos as int + w));
                assert forall|ms: Seq<Seq<int>>, rmat: Seq<Seq<int>>| #[trigger]
                    commit1_hyp(ms, rmat, bytes@, compress) implies newms == ms.take(i + 1) by {
                    assert(cpt.model() == ms[i as int]);
                    assert(newms =~= ms.take(i as int).push(ms[i as int]));
                    assert(ms.take(i + 1) =~= ms.take(i as int).push(ms[i as int]));
                };
            }
            pos = pos + w;
        }
        proof {
            assert forall|ms: Seq<Seq<int>>, rmat: Seq<Seq<int>>| #[trigger]
                commit1_hyp(ms, rmat, bytes@, compress) implies fr_mat_hyp(
                rmat,
                bytes@,
                pos as int,
            ) by {
                lemma_u64_le_len(ms.len() as int);
                assert(ms.take(count as int) =~= ms);
                assert(com1_list_enc(c1_models(coms@), compress) == com1_list_enc(ms, compress));
                assert(bytes@.subrange(
                    pos as int,
                    pos as int + fr_mat_enc(rmat).len() as int,
                ) =~= fr_mat_enc(rmat));
            };
        }
        let parsed_rand = parse_scalar_matrix(bytes, pos);
        let (rand, end) = match parsed_rand {
            Some(x) => { x },
            None => { return None; },
        };
        if end != bytes.len() {
            proof {
                assert forall|ms: Seq<Seq<int>>, rmat: Seq<Seq<int>>| #[trigger]
                    commit1_hyp(ms, rmat, bytes@, compress) implies false by {
                    lemma_u64_le_len(ms.len() as int);
                    assert(ms.take(count as int) =~= ms);
                    assert(c1_models(coms@) == ms);
                    assert(bytes@.subrange(0, pos as int).len() == pos as int);
                    assert(pos as int == 8 + com1_list_enc(ms, compress).len());
                    assert(bytes@.len() == commit1_enc(ms, rmat, compress).len());
                    assert(end == pos + fr_mat_enc(rmat).len());
                };
            }
            return None;
        }
        let v = Commit1 { coms, rand };
        proof {
            assert(bytes@.subrange(0, bytes@.len() as int) =~= bytes@);
            assert(bytes@ =~= bytes@.subrange(0, pos as int) + bytes@.subrange(
                pos as int,
                end as int,
            ));
            assert forall|ms: Seq<Seq<int>>, rmat: Seq<Seq<int>>| #[trigger]
                commit1_hyp(ms, rmat, bytes@, compress) implies c1_models(v.coms@) == ms
                && v.rand.sval_rows() == rmat by {
                assert(ms.take(count as int) =~= ms);
            };
        }
        Some(v)
    }
}

/// Whether a model list can stand in a decodable commitment list: width-two
/// reduced models whose point encodings have the canonical size.
pub open spec fn com2_list_decodable(ms: Seq<Seq<int>>, compress: bool) -> bool {
    &&& forall|i: int| 0 <= i < ms.len() ==> (#[trigger] ms[i]).len() == 2
    &&& forall|i: int| 0 <= i < ms.len() ==> mwf(#[trigger] ms[i])
    &&& forall|i: int|
        0 <= i < ms.len() ==> g2_bytes((#[trigger] ms[i])[0], compress).len() == g2_enc_len(
            compress,
        ) && g2_bytes(ms[i][1], compress).len() == g2_enc_len(compress)
}

proof fn lemma_com2_list_len(ms: Seq<Seq<int>>, compress: bool)
    requires
        com2_list_decodable(ms, compress),
    ensures
        com2_list_enc(ms, compress).len() == ms.len() * (2 * g2_enc_len(compress)),
    decreases ms.len(),
{
    let k = 2 * g2_enc_len(compress) as int;
    if ms.len() == 0 {
        assert(ms.len() * k == 0) by (nonlinear_arith)
            requires
                ms.len() == 0,
        ;
    } else {
        assert(com2_list_decodable(ms.drop_last(), compress));
        lemma_com2_list_len(ms.drop_last(), compress);
        assert((ms.len() - 1) * k + k == ms.len() * k) by (nonlinear_arith);
    }
}

proof fn lemma_com2_list_index(ms: Seq<Seq<int>>, compress: bool, i: int)
    requires
        com2_list_decodable(ms, compress),
        0 <= i < ms.len(),
    ensures
        com2_list_enc(ms, compress).subrange(
            i * (2 * g2_enc_len(compress)),
            i * (2 * g2_enc_len(compress)) + 2 * g2_enc_len(compress),
        ) == com2_enc(ms[i], compress),
    decreases ms.len(),
{
    let k = 2 * g2_enc_len(compress) as int;
    assert(com2_list_decodable(ms.drop_last(), compress));
    lemma_com2_list_len(ms.drop_last(), compress);
    if i == ms.len() - 1 {
        assert((ms.len() - 1) * k == com2_list_enc(ms.drop_last(), compress).len());
        assert(com2_list_enc(ms, compress).subrange(i * k, i * k + k) =~= com2_enc(
            ms[i],
            compress,
        ));
    } else {
        lemma_com2_list_index(ms.drop_last(), compress, i);
        assert(i * k + k <= (ms.len() - 1) * k) by (nonlinear_arith)
            requires
                0 <= i < ms.len() - 1,
                k >= 0,
        ;
        assert(com2_list_enc(ms, compress).subrange(i * k, i * k + k) =~= com2_list_enc(
            ms.drop_last(),
            compress,
        ).subrange(i * k, i * k + k));
    }
}

/// The full hypothesis under which a commitment batch must parse: the buffer
/// is exactly the encoding of the decodable lists `ms` and `rand`.
pub open spec fn commit2_hyp(
    ms: Seq<Seq<int>>,
    rand: Seq<Seq<int>>,
    b: Seq<u8>,
    compress: bool,
) -> bool {
    &&& ms.len() <= 0xffff_ffff
    &&& com2_list_decodable(ms, compress)
    &&& fr_mat_decodable(rand)
    &&& b == commit2_enc(ms, rand, compress)
}

impl Commit2 {
    /// The canonical encoding: the framed commitment list, then the
    /// randomness matrix.
    pub fn serialize(&self, compress: bool) -> (r: Vec<u8>)
        ensures
            r@ == commit2_enc(c2_models(self.coms@), self.rand.sval_rows(), compress),
    {
        let n = self.coms.len();
        let mut out = u64_to_le(n as u64);
        proof {
            assert(c2_models(self.coms@).take(0) =~= Seq::<Seq<int>>::empty());
            assert(out@ =~= u64_le(n as int) + com2_list_enc(
                c2_models(self.coms@).take(0),
                compress,
            ));
        }
        for i in 0..n
            invariant
                n == self.coms@.len(),
                out@ == u64_le(n as int) + com2_list_enc(
                    c2_models(self.coms@).take(i as int),
                    compress,
                ),
        {
            let mut cb = self.coms[i].serialize(compress);
            out.append(&mut cb);
            proof {
                lemma_com2_list_step(c2_models(self.coms@), compress, i as int);
                assert(c2_models(self.coms@)[i as int] == self.coms@[i as int].model());
            }
        }
        let mut mb = self.rand.serialize();
        out.append(&mut mb);
        proof {
            assert(c2_models(self.coms@).take(n as int) =~= c2_models(self.coms@));
        }
        out
    }

    /// Decode a canonical encoding; anything else yields `None`.  Every
    /// buffer holding the encoding of decodable commitment and randomness
    /// lists is accepted and restored exactly.
    pub fn deserialize(bytes: &[u8], compress: bool) -> (r: Option<Commit2>)
        ensures
            r matches Some(v) ==> bytes@ == commit2_enc(
                c2_models(v.coms@),
                v.rand.sval_rows(),
                compress,
            ),
            forall|ms: Seq<Seq<int>>, rmat: Seq<Seq<int>>|
                (#[trigger] commit2_hyp(ms, rmat, bytes@, compress)) ==> (r matches Some(v)
                    && c2_models(v.coms@) == ms && v.rand.sval_rows() == rmat),
    {
        let parsed_count = parse_u64(bytes, 0);
        proof {
            assert forall|ms: Seq<Seq<int>>, rmat: Seq<Seq<int>>| #[trigger]
                commit2_hyp(ms, rmat, bytes@, compress) implies 8 <= bytes@.len()
                && bytes@.subrange(0, 8) == u64_le(ms.len() as int) by {
                lemma_u64_le_len(ms.len() as int);
                assert(bytes@.subrange(0, 8) =~= u64_le(ms.len() as int));
            };
        }
        let (count_n, mut pos) = match parsed_count {
            Some(x) => { x },
            None => { return None; },
        };
        proof {
            assert forall|ms: Seq<Seq<int>>, rmat: Seq<Seq<int>>| #[trigger]
                commit2_hyp(ms, rmat, bytes@, compress) implies count_n as int == ms.len() by {
            };
        }
        if count_n > 0xffff_ffff {
            return None;
        }
        let count = count_n as usize;
        let w = if compress {
            2 * 96
        } else {
            2 * 192
        };
        let mut coms: Vec<Com2> = Vec::new();
        proof {
            assert(c2_models(coms@) =~= Seq::<Seq<int>>::empty());
            assert(bytes@.subrange(0, pos as int) =~= u64_le(count as int) + com2_list_enc(
                c2_models(coms@),
                compress,
            ));
        }
        for i in 0..count
            invariant
                count_n == count as u64,
                pos <= bytes@.len(),
                w == 2 * g2_enc_len(compress),
                coms@.len() == i,
                bytes@.subrange(0, pos as int) == u64_le(count as int) + com2_list_enc(
                    c2_models(coms@),
                    compress,
                ),
                forall|ms: Seq<Seq<int>>, rmat: Seq<Seq<int>>|
                    (#[trigger] commit2_hyp(ms, rmat, bytes@, compress)) ==> (count as int
                        == ms.len() && c2_models(coms@) == ms.take(i as int)),
        {
            proof {
                assert forall|ms: Seq<Seq<int>>, rmat: Seq<Seq<int>>| #[trigger]
                    commit2_hyp(ms, rmat, bytes@, compress) implies pos + w <= bytes@.len()
                    && bytes@.subrange(pos as int, pos as int + w) == com2_enc(
                    ms[i as int],
                    compress,
                ) by {
                    lemma_u64_le_len(ms.len() as int);
                    lemma_com2_list_len(ms, compress);
                    assert(com2_list_decodable(ms.take(i as int), compress));
                    lemma_com2_list_len(ms.take(i as int), compress);
                    lemma_com2_list_index(ms, compress, i as int);
                    assert(c2_models(coms@) == ms.take(i as int));
                    assert(bytes@.subrange(0, pos as int).len() == pos as int);
                    assert(pos as int == 8 + com2_list_enc(ms.take(i as int), compress).len())
                        by {
                        lemma_u64_le_len(count as int);
                    };
                    assert(pos as int == 8 + i * w) by (nonlinear_arith)
                        requires
                            pos as int == 8 + com2_list_enc(ms.take(i as int), compress).len(),
                            com2_list_enc(ms.take(i as int), compress).len() == ms.take(
                                i as int,
                            ).len() * w,
                            ms.take(i as int).len() == i,
                    ;
                    assert(i * w + w <= ms.len() * w) by (nonlinear_arith)
                        requires
                            0 <= i < ms.len(),
                            w >= 0,
                    ;
                    assert(bytes@.subrange(pos as int, pos as int + w) =~= com2_list_enc(
                        ms,
                        compress,
                    ).subrange(i * w, i * w + w));
                };
            }
            if bytes.len() < w || pos > bytes.len() - w {
                return None;
            }
            let sl = slice_subrange(bytes, pos, pos + w);
            let parsed = Com2::deserialize(sl, compress);
            proof {
                assert forall|ms: Seq<Seq<int>>, rmat: Seq<Seq<int>>| #[trigger]
                    commit2_hyp(ms, rmat, bytes@, compress) implies (parsed matches Some(cv)
                    && cv.model() == ms[i as int]) by {
                    assert(com2_enc(ms[i as int], compress) == sl@);
                };
            }
            let cpt = match parsed {
                Some(cpt) => { cpt },
                None => { return None; },
            };
            let ghost oldms = c2_models(coms@);
            coms.push(cpt);
            proof {
                let newms = c2_models(coms@);
                assert(newms.drop_last() =~= oldms);
                assert(com2_list_enc(newms, compress) == com2_list_enc(oldms, compress)
                    + com2_enc(cpt.model(), compress));
                assert(bytes@.subrange(0, pos as int + w) =~= bytes@.subrange(0, pos as int)
                    + bytes@.subrange(pos as int, pos as int + w));
                assert forall|ms: Seq<Seq<int>>, rmat: Seq<Seq<int>>| #[trigger]
                    commit2_hyp(ms, rmat, bytes@, compress) implies newms == ms.take(i + 1) by {
                    assert(cpt.model() == ms[i as int]);
                    assert(newms =~= ms.take(i as int).push(ms[i as int]));
                    assert(ms.take(i + 1) =~= ms.take(i as int).push(ms[i as int]));
                };
            }
            pos = pos + w;
        }
        proof {
            assert forall|ms: Seq<Seq<int>>, rmat: Seq<Seq<int>>| #[trigger]
                commit2_hyp(ms, rmat, bytes@, compress) implies fr_mat_hyp(
                rmat,
                bytes@,
                pos as int,
            ) by {
                lemma_u64_le_len(ms.len() as int);
                assert(ms.take(count as int) =~= ms);
                assert(com2_list_enc(c2_models(coms@), compress) == com2_list_enc(ms, compress));
                assert(bytes@.subrange(
                    pos as int,
                    pos as int + fr_mat_enc(rmat).len() as int,
                ) =~= fr_mat_enc(rmat));
            };
        }
        let parsed_rand = parse_scalar_matrix(bytes, pos);
        let (rand, end) = match parsed_rand {
            Some(x) => { x },
            None => { return None; },
        };
        if end != bytes.len() {
            proof {
                assert forall|ms: Seq<Seq<int>>, rmat: Seq<Seq<int>>| #[trigger]
                    commit2_hyp(ms, rmat, bytes@, compress) implies false by {
                    lemma_u64_le_len(ms.len() as int);
                    assert(ms.take(count as int) =~= ms);
                    assert(c2_models(coms@) == ms);
                    assert(bytes@.subrange(0, pos as int).len() == pos as int);
                    assert(pos as int == 8 + com2_list_enc(ms, compress).len());
                    assert(bytes@.len() == commit2_enc(ms, rmat, compress).len());
                    assert(end == pos + fr_mat_enc(rmat).len());
                };
            }
            return None;
        }
        let v = Commit2 { coms, rand };
        proof {
            assert(bytes@.subrange(0, bytes@.len() as int) =~= bytes@);
            assert(bytes@ =~= bytes@.subrange(0, pos as int) + bytes@.subrange(
                pos as int,
                end as int,
            ));
            assert forall|ms: Seq<Seq<int>>, rmat: Seq<Seq<int>>| #[trigger]
                commit2_hyp(ms, rmat, bytes@, compress) implies c2_models(v.coms@) == ms
                && v.rand.sval_rows() == rmat by {
                assert(ms.take(count as int) =~= ms);
            };
        }
        Some(v)
    }
}

/// The concatenated row encodings of a matrix over the first commitment group:
/// each row is length-framed.
pub open spec fn com1_rows_enc(rows: Seq<Seq<Seq<int>>>, compress: bool) -> Seq<u8>
    decreases rows.len(),
{
    if rows.len() == 0 {
        Seq::empty()
    } else {
        com1_rows_enc(rows.drop_last(), compress) + u64_le(rows.last().len() as int)
            + com1_list_enc(rows.last(), compress)
    }
}

/// A matrix over the first commitment group as its length-framed row-major
/// nested sequence.
pub open spec fn com1_mat_enc(rows: Seq<Seq<Seq<int>>>, compress: bool) -> Seq<u8> {
    u64_le(rows.len() as int) + com1_rows_enc(rows, compress)
}

proof fn lemma_com1_rows_step(rows: Seq<Seq<Seq<int>>>, compress: bool, k: int)
    requires
        0 <= k < rows.len(),
    ensures
        com1_rows_enc(rows.take(k + 1), compress) == com1_rows_enc(rows.take(k), compress)
            + u64_le(rows[k].len() as int) + com1_list_enc(rows[k], compress),
{
    assert(rows.take(k + 1).drop_last() =~= rows.take(k));
    assert(rows.take(k + 1).last() == rows[k]);
}

impl Matrix<Com1> {
    /// The canonical encoding: the length-framed row-major nested sequence
    /// of the entries.  A matrix with zero rows encodes, but its encoding
    /// does not record the column count and is therefore not decodable.
    pub fn serialize(&self, compress: bool) -> (r: Vec<u8>)
        ensures
            r@ == com1_mat_enc(self.model_rows(), compress),
    {
        let (rows, cols) = self.dim();
        let mut out = u64_to_le(rows as u64);
        proof {
            assert(self.model_rows().take(0) =~= Seq::<Seq<Seq<int>>>::empty());
            assert(out@ =~= u64_le(rows as int) + com1_rows_enc(
                self.model_rows().take(0),
                compress,
            ));
        }
        for i in 0..rows
            invariant
                rows as int == self.nrows(),
                cols as int == self.ncols(),
                out@ == u64_le(rows as int) + com1_rows_enc(
                    self.model_rows().take(i as int),
                    compress,
                ),
        {
            let ghost rowms = Seq::new(self.ncols() as nat, |j: int| self.cell(i as int, j));
            let mut rowb = u64_to_le(cols as u64);
            proof {
                assert(rowms.take(0) =~= Seq::<Seq<int>>::empty());
                assert(rowb@ =~= u64_le(cols as int) + com1_list_enc(rowms.take(0), compress));
            }
            for j in 0..cols
                invariant
                    rows as int == self.nrows(),
                    cols as int == self.ncols(),
                    i < rows,
                    rowms == Seq::new(self.ncols() as nat, |j: int| self.cell(i as int, j)),
                    rowb@ == u64_le(cols as int) + com1_list_enc(
                        rowms.take(j as int),
                        compress,
                    ),
            {
                let cell = self.get(i, j);
                let mut cb = cell.serialize(compress);
                rowb.append(&mut cb);
                proof {
                    lemma_com1_list_step(rowms, compress, j as int);
                    assert(rowms[j as int] == cell.model());
                }
            }
            out.append(&mut rowb);
            proof {
                assert(rowms.take(cols as int) =~= rowms);
                lemma_com1_rows_step(self.model_rows(), compress, i as int);
                assert(self.model_rows()[i as int] == rowms);
                assert(rowms.len() == cols as int);
            }
        }
        proof {
            assert(self.model_rows().take(rows as int) =~= self.model_rows());
        }
        out
    }

    /// Decode a canonical encoding of a non-empty rectangular matrix;
    /// anything else yields `None`.  Every encoding of a decodable row
    /// sequence is accepted and restored exactly.
    pub fn deserialize(bytes: &[u8], compress: bool) -> (r: Option<Matrix<Com1>>)
        ensures
            r matches Some(m) ==> bytes@ == com1_mat_enc(m.model_rows(), compress) && m.nrows()
                > 0,
            forall|rv: Seq<Seq<Seq<int>>>|
                (#[trigger] com1_mat_decodable(rv, compress)) && bytes@ == com1_mat_enc(
                    rv,
                    compress,
                ) ==> (r matches Some(m) && m.model_rows() == rv),
    {
        proof {
            assert forall|rv: Seq<Seq<Seq<int>>>|
                (#[trigger] com1_mat_decodable(rv, compress)) && bytes@ == com1_mat_enc(
                    rv,
                    compress,
                ) implies com1_mat_hyp(rv, bytes@, 0, compress) by {
                assert(bytes@.subrange(0, com1_mat_enc(rv, compress).len() as int)
                    =~= com1_mat_enc(rv, compress));
            };
        }
        match parse_com1_matrix(bytes, 0, compress) {
            Some((m, end)) => {
                if end == bytes.len() {
                    proof {
                        assert(bytes@.subrange(0, bytes@.len() as int) =~= bytes@);
                    }
                    Some(m)
                } else {
                    proof {
                        assert forall|rv: Seq<Seq<Seq<int>>>|
                            (#[trigger] com1_mat_decodable(rv, compress)) && bytes@
                                == com1_mat_enc(rv, compress) implies false by {
                            assert(end == 0 + com1_mat_enc(rv, compress).len());
                        };
                    }
                    None
                }
            },
            None => {
                None
            },
        }
    }
}

/// The encodings of the rows from position `i` on.
pub open spec fn com1_rows_enc_from(rows: Seq<Seq<Seq<int>>>, i: int, compress: bool) -> Seq<u8>
    decreases rows.len() - i,
{
    if i < 0 || i >= rows.len() {
        Seq::empty()
    } else {
        u64_le(rows[i].len() as int) + com1_list_enc(rows[i], compress) + com1_rows_enc_from(
            rows,
            i + 1,
            compress,
        )
    }
}

proof fn lemma_com1_rows_enc_suffix(rows: Seq<Seq<Seq<int>>>, i: int, compress: bool)
    requires
        0 <= i <= rows.len(),
    ensures
        com1_rows_enc(rows, compress) == com1_rows_enc(rows.take(i), compress)
            + com1_rows_enc_from(rows, i, compress),
    decreases rows.len() - i,
{
    if i == rows.len() {
        assert(rows.take(i) =~= rows);
        assert(com1_rows_enc(rows, compress) =~= com1_rows_enc(rows.take(i), compress)
            + com1_rows_enc_from(rows, i, compress));
    } else {
        lemma_com1_rows_enc_suffix(rows, i + 1, compress);
        lemma_com1_rows_step(rows, compress, i);
        assert(com1_rows_enc(rows.take(i + 1), compress) + com1_rows_enc_from(
            rows,
            i + 1,
            compress,
        ) =~= com1_rows_enc(rows.take(i), compress) + com1_rows_enc_from(rows, i, compress));
    }
}

/// Whether a row sequence is a value a framed matrix over the first
/// commitment group can encode.
pub open spec fn com1_mat_decodable(rows: Seq<Seq<Seq<int>>>, compress: bool) -> bool {
    &&& 0 < rows.len() <= 0xffff_ffff
    &&& rows[0].len() <= 0xffff_ffff
    &&& forall|i: int| 0 <= i < rows.len() ==> (#[trigger] rows[i]).len() == rows[0].len()
    &&& forall|i: int| 0 <= i < rows.len() ==> com1_list_decodable(#[trigger] rows[i], compress)
}

/// The full hypothesis under which a framed matrix over the first commitment
/// group must parse: the buffer holds the encoding of `rows` at `start`.
pub open spec fn com1_mat_hyp(
    rows: Seq<Seq<Seq<int>>>,
    b: Seq<u8>,
    start: int,
    compress: bool,
) -> bool {
    &&& com1_mat_decodable(rows, compress)
    &&& 0 <= start
    &&& start + com1_mat_enc(rows, compress).len() <= b.len()
    &&& b.subrange(start, start + com1_mat_enc(rows, compress).len() as int) == com1_mat_enc(
        rows,
        compress,
    )
}

/// Read `count` pair encodings starting at `start`.
fn parse_com1_cells(bytes: &[u8], start: usize, count: usize, compress: bool) -> (r: Option<
    (Vec<Com1>, usize),
>)
    ensures
        r matches Some((row, end)) ==> start <= end <= bytes@.len() && row@.len() == count && end
            == start + 2 * g1_enc_len(compress) * count && bytes@.subrange(
            start as int,
            end as int,
        ) == com1_list_enc(c1_models(row@), compress) && com1_list_decodable(
            c1_models(row@),
            compress,
        ),
        forall|vals: Seq<Seq<int>>|
            (#[trigger] com1_list_decodable(vals, compress)) && vals.len() == count && start + 2
                * g1_enc_len(compress) * count <= bytes@.len() && bytes@.subrange(
                start as int,
                start as int + 2 * g1_enc_len(compress) * count,
            ) == com1_list_enc(vals, compress) ==> (r matches Some((row, end)) && c1_models(row@)
                == vals),
{
    let w = if compress {
        2 * 48
    } else {
        2 * 96
    };
    let mut row: Vec<Com1> = Vec::new();
    let mut pos = start;
    if start > bytes.len() {
        proof {
            assert forall|vals: Seq<Seq<int>>|
                (#[trigger] com1_list_decodable(vals, compress)) && vals.len() == count && start
                    + 2 * g1_enc_len(compress) * count <= bytes@.len() && bytes@.subrange(
                    start as int,
                    start as int + 2 * g1_enc_len(compress) * count,
                ) == com1_list_enc(vals, compress) implies false by {
            };
        }
        return None;
    }
    for j in 0..count
        invariant
            start <= pos <= bytes@.len(),
            w == 2 * g1_enc_len(compress),
            pos == start + w * j,
            row@.len() == j,
            bytes@.subrange(start as int, pos as int) == com1_list_enc(c1_models(row@), compress),
            com1_list_decodable(c1_models(row@), compress),
            forall|vals: Seq<Seq<int>>|
                (#[trigger] com1_list_decodable(vals, compress)) && vals.len() == count && start
                    + 2 * g1_enc_len(compress) * count <= bytes@.len() && bytes@.subrange(
                    start as int,
                    start as int + 2 * g1_enc_len(compress) * count,
                ) == com1_list_enc(vals, compress) ==> c1_models(row@) == vals.take(j as int),
    {
        proof {
            assert forall|vals: Seq<Seq<int>>|
                (#[trigger] com1_list_decodable(vals, compress)) && vals.len() == count && start
                    + 2 * g1_enc_len(compress) * count <= bytes@.len() && bytes@.subrange(
                    start as int,
                    start as int + 2 * g1_enc_len(compress) * count,
                ) == com1_list_enc(vals, compress) implies pos + w <= bytes@.len()
                && bytes@.subrange(pos as int, pos as int + w) == com1_enc(
                vals[j as int],
                compress,
            ) by {
                lemma_com1_list_len(vals, compress);
                lemma_com1_list_index(vals, compress, j as int);
                assert(0 <= j * w && j * w + w <= count * w && w * j == j * w && w * count == count
                    * w) by (nonlinear_arith)
                    requires
                        0 <= j < count,
                        w >= 0,
                ;
                assert(pos as int + w <= start + w * count);
                assert(bytes@.subrange(pos as int, pos as int + w) =~= com1_list_enc(
                    vals,
                    compress,
                ).subrange(j * w, j * w + w));
            };
        }
        if bytes.len() < w || pos > bytes.len() - w {
            return None;
        }
        let sl = slice_subrange(bytes, pos, pos + w);
        let parsed = Com1::deserialize(sl, compress);
        proof {
            assert forall|vals: Seq<Seq<int>>|
                (#[trigger] com1_list_decodable(vals, compress)) && vals.len() == count && start
                    + 2 * g1_enc_len(compress) * count <= bytes@.len() && bytes@.subrange(
                    start as int,
                    start as int + 2 * g1_enc_len(compress) * count,
                ) == com1_list_enc(vals, compress) implies (parsed matches Some(cv) && cv.model()
                == vals[j as int]) by {
                assert(com1_enc(vals[j as int], compress) == sl@);
            };
        }
        let cpt = match parsed {
            Some(cpt) => { cpt },
            None => { return None; },
        };
        let ghost oldms = c1_models(row@);
        row.push(cpt);
        pos = pos + w;
        proof {
            assert(w * (j + 1) == w * j + w) by (nonlinear_arith);
            let newms = c1_models(row@);
            assert(newms.drop_last() =~= oldms);
            assert(com1_list_enc(newms, compress) == com1_list_enc(oldms, compress) + com1_enc(
                cpt.model(),
                compress,
            ));
            assert(bytes@.subrange(start as int, pos as int) =~= bytes@.subrange(
                start as int,
                pos as int - w,
            ) + bytes@.subrange(pos as int - w, pos as int));
            assert(com1_list_decodable(newms, compress)) by {
                assert forall|q: int| 0 <= q < newms.len() implies (#[trigger] newms[q]).len()
                    == 2 && mwf(newms[q]) && g1_bytes(newms[q][0], compress).len() == g1_enc_len(
                    compress,
                ) && g1_bytes(newms[q][1], compress).len() == g1_enc_len(compress) by {
                    if q < oldms.len() {
                        assert(newms[q] == oldms[q]);
                    } else {
                        assert(newms[q] == cpt.model());
                    }
                };
            };
            assert forall|vals: Seq<Seq<int>>|
                (#[trigger] com1_list_decodable(vals, compress)) && vals.len() == count && start
                    + 2 * g1_enc_len(compress) * count <= bytes@.len() && bytes@.subrange(
                    start as int,
                    start as int + 2 * g1_enc_len(compress) * count,
                ) == com1_list_enc(vals, compress) implies newms == vals.take(j + 1) by {
                assert(cpt.model() == vals[j as int]);
                assert(newms =~= vals.take(j as int).push(vals[j as int]));
                assert(vals.take(j + 1) =~= vals.take(j as int).push(vals[j as int]));
            };
        }
    }
    proof {
        assert forall|vals: Seq<Seq<int>>|
            (#[trigger] com1_list_decodable(vals, compress)) && vals.len() == count && start + 2
                * g1_enc_len(compress) * count <= bytes@.len() && bytes@.subrange(
                start as int,
                start as int + 2 * g1_enc_len(compress) * count,
            ) == com1_list_enc(vals, compress) implies c1_models(row@) == vals by {
            assert(vals.take(count as int) =~= vals);
        };
    }
    Some((row, pos))
}

/// The encodings of the rows from position `i` on.
pub open spec fn com2_rows_enc_from(rows: Seq<Seq<Seq<int>>>, i: int, compress: bool) -> Seq<u8>
    decreases rows.len() - i,
{
    if i < 0 || i >= rows.len() {
        Seq::empty()
    } else {
        u64_le(rows[i].len() as int) + com2_list_enc(rows[i], compress) + com2_rows_enc_from(
            rows,
            i + 1,
            compress,
        )
    }
}

proof fn lemma_com2_rows_enc_suffix(rows: Seq<Seq<Seq<int>>>, i: int, compress: bool)
    requires
        0 <= i <= rows.len(),
    ensures
        com2_rows_enc(rows, compress) == com2_rows_enc(rows.take(i), compress)
            + com2_rows_enc_from(rows, i, compress),
    decreases rows.len() - i,
{
    if i == rows.len() {
        assert(rows.take(i) =~= rows);
        assert(com2_rows_enc(rows, compress) =~= com2_rows_enc(rows.take(i), compress)
            + com2_rows_enc_from(rows, i, compress));
    } else {
        lemma_com2_rows_enc_suffix(rows, i + 1, compress);
        lemma_com2_rows_step(rows, compress, i);
        assert(com2_rows_enc(rows.take(i + 1), compress) + com2_rows_enc_from(
            rows,
            i + 1,
            compress,
        ) =~= com2_rows_enc(rows.take(i), compress) + com2_rows_enc_from(rows, i, compress));
    }
}

/// Whether a row sequence is a value a framed matrix over the second
/// commitment group can encode.
pub open spec fn com2_mat_decodable(rows: Seq<Seq<Seq<int>>>, compress: bool) -> bool {
    &&& 0 < rows.len() <= 0xffff_ffff
    &&& rows[0].len() <= 0xffff_ffff
    &&& forall|i: int| 0 <= i < rows.len() ==> (#[trigger] rows[i]).len() == rows[0].len()
    &&& forall|i: int| 0 <= i < rows.len() ==> com2_list_decodable(#[trigger] rows[i], compress)
}

/// The full hypothesis under which a framed matrix over the second commitment
/// group must parse: the buffer holds the encoding of `rows` at `start`.
pub open spec fn com2_mat_hyp(
    rows: Seq<Seq<Seq<int>>>,
    b: Seq<u8>,
    start: int,
    compress: bool,
) -> bool {
    &&& com2_mat_decodable(rows, compress)
    &&& 0 <= start
    &&& start + com2_mat_enc(rows, compress).len() <= b.len()
    &&& b.subrange(start, start + com2_mat_enc(rows, compress).len() as int) == com2_mat_enc(
        rows,
        compress,
    )
}

/// Read `count` pair encodings starting at `start`.
fn parse_com2_cells(bytes: &[u8], start: usize, count: usize, compress: bool) -> (r: Option<
    (Vec<Com2>, usize),
>)
    ensures
        r matches Some((row, end)) ==> start <= end <= bytes@.len() && row@.len() == count && end
            == start + 2 * g2_enc_len(compress) * count && bytes@.subrange(
            start as int,
            end as int,
        ) == com2_list_enc(c2_models(row@), compress) && com2_list_decodable(
            c2_models(row@),
            compress,
        ),
        forall|vals: Seq<Seq<int>>|
            (#[trigger] com2_list_decodable(vals, compress)) && vals.len() == count && start + 2
                * g2_enc_len(compress) * count <= bytes@.len() && bytes@.subrange(
                start as int,
                start as int + 2 * g2_enc_len(compress) * count,
            ) == com2_list_enc(vals, compress) ==> (r matches Some((row, end)) && c2_models(row@)
                == vals),
{
    let w = if compress {
        2 * 96
    } else {
        2 * 192
    };
    let mut row: Vec<Com2> = Vec::new();
    let mut pos = start;
    if start > bytes.len() {
        proof {
            assert forall|vals: Seq<Seq<int>>|
                (#[trigger] com2_list_decodable(vals, compress)) && vals.len() == count && start
                    + 2 * g2_enc_len(compress) * count <= bytes@.len() && bytes@.subrange(
                    start as int,
                    start as int + 2 * g2_enc_len(compress) * count,
                ) == com2_list_enc(vals, compress) implies false by {
            };
        }
        return None;
    }
    for j in 0..count
        invariant
            start <= pos <= bytes@.len(),
            w == 2 * g2_enc_len(compress),
            pos == start + w * j,
            row@.len() == j,
            bytes@.subrange(start as int, pos as int) == com2_list_enc(c2_models(row@), compress),
            com2_list_decodable(c2_models(row@), compress),
            forall|vals: Seq<Seq<int>>|
                (#[trigger] com2_list_decodable(vals, compress)) && vals.len() == count && start
                    + 2 * g2_enc_len(compress) * count <= bytes@.len() && bytes@.subrange(
                    start as int,
                    start as int + 2 * g2_enc_len(compress) * count,
                ) == com2_list_enc(vals, compress) ==> c2_models(row@) == vals.take(j as int),
    {
        proof {
            assert forall|vals: Seq<Seq<int>>|
                (#[trigger] com2_list_decodable(vals, compress)) && vals.len() == count && start
                    + 2 * g2_enc_len(compress) * count <= bytes@.len() && bytes@.subrange(
                    start as int,
                    start as int + 2 * g2_enc_len(compress) * count,
                ) == com2_list_enc(vals, compress) implies pos + w <= bytes@.len()
                && bytes@.subrange(pos as int, pos as int + w) == com2_enc(
                vals[j as int],
                compress,
            ) by {
                lemma_com2_list_len(vals, compress);
                lemma_com2_list_index(vals, compress, j as int);
                assert(0 <= j * w && j * w + w <= count * w && w * j == j * w && w * count == count
                    * w) by (nonlinear_arith)
                    requires
                        0 <= j < count,
                        w >= 0,
                ;
                assert(pos as int + w <= start + w * count);
                assert(bytes@.subrange(pos as int, pos as int + w) =~= com2_list_enc(
                    vals,
                    compress,
                ).subrange(j * w, j * w + w));
            };
        }
        if bytes.len() < w || pos > bytes.len() - w {
            return None;
        }
        let sl = slice_subrange(bytes, pos, pos + w);
        let parsed = Com2::deserialize(sl, compress);
        proof {
            assert forall|vals: Seq<Seq<int>>|
                (#[trigger] com2_list_decodable(vals, compress)) && vals.len() == count && start
                    + 2 * g2_enc_len(compress) * count <= bytes@.len() && bytes@.subrange(
                    start as int,
                    start as int + 2 * g2_enc_len(compress) * count,
                ) == com2_list_enc(vals, compress) implies (parsed matches Some(cv) && cv.model()
                == vals[j as int]) by {
                assert(com2_enc(vals[j as int], compress) == sl@);
            };
        }
        let cpt = match parsed {
            Some(cpt) => { cpt },
            None => { return None; },
        };
        let ghost oldms = c2_models(row@);
        row.push(cpt);
        pos = pos + w;
        proof {
            assert(w * (j + 1) == w * j + w) by (nonlinear_arith);
            let newms = c2_models(row@);
            assert(newms.drop_last() =~= oldms);
            assert(com2_list_enc(newms, compress) == com2_list_enc(oldms, compress) + com2_enc(
                cpt.model(),
                compress,
            ));
            assert(bytes@.subrange(start as int, pos as int) =~= bytes@.subrange(
                start as int,
                pos as int - w,
            ) + bytes@.subrange(pos as int - w, pos as int));
            assert(com2_list_decodable(newms, compress)) by {
                assert forall|q: int| 0 <= q < newms.len() implies (#[trigger] newms[q]).len()
                    == 2 && mwf(newms[q]) && g2_bytes(newms[q][0], compress).len() == g2_enc_len(
                    compress,
                ) && g2_bytes(newms[q][1], compress).len() == g2_enc_len(compress) by {
                    if q < oldms.len() {
                        assert(newms[q] == oldms[q]);
                    } else {
                        assert(newms[q] == cpt.model());
                    }
                };
            };
            assert forall|vals: Seq<Seq<int>>|
                (#[trigger] com2_list_decodable(vals, compress)) && vals.len() == count && start
                    + 2 * g2_enc_len(compress) * count <= bytes@.len() && bytes@.subrange(
                    start as int,
                    start as int + 2 * g2_enc_len(compress) * count,
                ) == com2_list_enc(vals, compress) implies newms == vals.take(j + 1) by {
                assert(cpt.model() == vals[j as int]);
                assert(newms =~= vals.take(j as int).push(vals[j as int]));
                assert(vals.take(j + 1) =~= vals.take(j as int).push(vals[j as int]));
            };
        }
    }
    proof {
        assert forall|vals: Seq<Seq<int>>|
            (#[trigger] com2_list_decodable(vals, compress)) && vals.len() == count && start + 2
                * g2_enc_len(compress) * count <= bytes@.len() && bytes@.subrange(
                start as int,
                start as int + 2 * g2_enc_len(compress) * count,
            ) == com2_list_enc(vals, compress) implies c2_models(row@) == vals by {
            assert(vals.take(count as int) =~= vals);
        };
    }
    Some((row, pos))
}

/// Read one framed matrix over the first commitment group starting at `start`;
/// on success the second component is the position one past its encoding.
/// Every buffer holding the encoding of a decodable row sequence at `start`
/// is accepted and restored exactly; a zero-row encoding is rejected, since
/// it does not determine the column count.
#[verifier::rlimit(100)]
pub fn parse_com1_matrix(bytes: &[u8], start: usize, compress: bool) -> (r: Option<
    (Matrix<Com1>, usize),
>)
    ensures
        r matches Some((m, end)) ==> start <= end <= bytes@.len() && bytes@.subrange(
            start as int,
            end as int,
        ) == com1_mat_enc(m.model_rows(), compress) && m.nrows() > 0,
        forall|rv: Seq<Seq<Seq<int>>>|
            (#[trigger] com1_mat_hyp(rv, bytes@, start as int, compress)) ==> (r matches Some(
                (m, end),
            ) && end == start + com1_mat_enc(rv, compress).len() && m.model_rows() == rv),
{
    let w = if compress {
        2 * 48
    } else {
        2 * 96
    };
    let parsed_rows = parse_u64(bytes, start);
    proof {
        assert forall|rv: Seq<Seq<Seq<int>>>| #[trigger]
            com1_mat_hyp(rv, bytes@, start as int, compress) implies start + 8 <= bytes@.len()
            && bytes@.subrange(start as int, start as int + 8) == u64_le(rv.len() as int) by {
            lemma_u64_le_len(rv.len() as int);
            assert(bytes@.subrange(start as int, start as int + 8) =~= com1_mat_enc(
                rv,
                compress,
            ).subrange(0, 8));
            assert(com1_mat_enc(rv, compress).subrange(0, 8) =~= u64_le(rv.len() as int));
        };
    }
    let (rows_n, mut pos) = match parsed_rows {
        Some(x) => { x },
        None => { return None; },
    };
    proof {
        assert forall|rv: Seq<Seq<Seq<int>>>| #[trigger]
            com1_mat_hyp(rv, bytes@, start as int, compress) implies rows_n as int
            == rv.len() by {
        };
    }
    if rows_n == 0 || rows_n > 0xffff_ffff {
        return None;
    }
    let rows = rows_n as usize;
    let mut vecs: Vec<Vec<Com1>> = Vec::new();
    let mut cols: usize = 0;
    let ghost mut rowvals: Seq<Seq<Seq<int>>> = Seq::empty();
    proof {
        assert(com1_rows_enc(rowvals, compress) =~= Seq::<u8>::empty());
        assert(bytes@.subrange(start as int, pos as int) =~= u64_le(rows as int)
            + com1_rows_enc(rowvals, compress));
    }
    for i in 0..rows
        invariant
            rows_n == rows as u64,
            rows_n <= 0xffff_ffff,
            start <= pos <= bytes@.len(),
            w == 2 * g1_enc_len(compress),
            vecs@.len() == i,
            rowvals.len() == i,
            forall|a: int| 0 <= a < i ==> (#[trigger] vecs@[a])@.len() == cols,
            forall|a: int|
                0 <= a < i ==> rowvals[a] == c1_models((#[trigger] vecs@[a])@),
            bytes@.subrange(start as int, pos as int) == u64_le(rows as int) + com1_rows_enc(
                rowvals,
                compress,
            ),
            forall|rv: Seq<Seq<Seq<int>>>|
                (#[trigger] com1_mat_hyp(rv, bytes@, start as int, compress)) ==> (rows as int
                    == rv.len() && rowvals == rv.take(i as int) && (i > 0 ==> cols as int
                    == rv[0].len())),
    {
        proof {
            assert forall|rv: Seq<Seq<Seq<int>>>| #[trigger]
                com1_mat_hyp(rv, bytes@, start as int, compress) implies pos + 8 + w
                * rv[0].len() <= bytes@.len() && bytes@.subrange(pos as int, pos as int + 8)
                == u64_le(rv[0].len() as int) && bytes@.subrange(
                pos as int + 8,
                pos as int + 8 + w * rv[0].len() as int,
            ) == com1_list_enc(rv[i as int], compress) by {
                lemma_u64_le_len(rv.len() as int);
                lemma_u64_le_len(rv[0].len() as int);
                lemma_com1_rows_enc_suffix(rv, i as int, compress);
                lemma_com1_list_len(rv[i as int], compress);
                assert(rv[i as int].len() == rv[0].len());
                assert(w * rv[0].len() as int == rv[0].len() as int * w) by (nonlinear_arith);
                assert(com1_list_enc(rv[i as int], compress).len() == w * rv[0].len() as int);
                let enc = com1_mat_enc(rv, compress);
                let head = (8 + com1_rows_enc(rv.take(i as int), compress).len()) as int;
                assert(rowvals == rv.take(i as int));
                assert(bytes@.subrange(start as int, pos as int).len() == pos - start);
                assert((u64_le(rows as int) + com1_rows_enc(rowvals, compress)).len() == 8
                    + com1_rows_enc(rv.take(i as int), compress).len()) by {
                    lemma_u64_le_len(rows as int);
                };
                assert(pos as int == start + head);
                assert(bytes@.subrange(start as int, start + enc.len()) == enc);
                assert(bytes@.subrange(pos as int, start + enc.len()) =~= enc.subrange(
                    head,
                    enc.len() as int,
                ));
                assert(enc.subrange(head, enc.len() as int) =~= com1_rows_enc_from(
                    rv,
                    i as int,
                    compress,
                ));
                let from = com1_rows_enc_from(rv, i as int, compress);
                assert(from == u64_le(rv[i as int].len() as int) + com1_list_enc(
                    rv[i as int],
                    compress,
                ) + com1_rows_enc_from(rv, i + 1, compress));
                assert(bytes@.subrange(pos as int, pos as int + 8) =~= from.subrange(0, 8));
                assert(from.subrange(0, 8) =~= u64_le(rv[0].len() as int));
                assert(bytes@.subrange(
                    pos as int + 8,
                    pos as int + 8 + w * rv[0].len() as int,
                ) =~= from.subrange(8, 8 + w * rv[0].len() as int));
                assert(from.subrange(8, 8 + w * rv[0].len() as int) =~= com1_list_enc(
                    rv[i as int],
                    compress,
                ));
            };
        }
        let parsed_cols = parse_u64(bytes, pos);
        let (cols_n, rpos) = match parsed_cols {
            Some(x) => { x },
            None => {
                proof {
                    assert forall|rv: Seq<Seq<Seq<int>>>| #[trigger]
                        com1_mat_hyp(rv, bytes@, start as int, compress) implies false by {
                        assert(pos + 8 <= bytes@.len());
                    };
                }
                return None;
            },
        };
        proof {
            assert forall|rv: Seq<Seq<Seq<int>>>| #[trigger]
                com1_mat_hyp(rv, bytes@, start as int, compress) implies cols_n as int
                == rv[0].len() by {
            };
        }
        if i == 0 {
            if cols_n > 0xffff_ffff {
                return None;
            }
            cols = cols_n as usize;
        } else {
            if cols_n != cols as u64 {
                return None;
            }
        }
        let parsed_row = parse_com1_cells(bytes, rpos, cols, compress);
        proof {
            assert forall|rv: Seq<Seq<Seq<int>>>| #[trigger]
                com1_mat_hyp(rv, bytes@, start as int, compress) implies (parsed_row matches Some(
                (row, _),
            ) && c1_models(row@) == rv[i as int]) by {
                assert(com1_list_decodable(rv[i as int], compress));
                assert(cols_n as int == rv[0].len());
                assert(rv[i as int].len() == cols);
                assert(rpos + 2 * g1_enc_len(compress) * cols <= bytes@.len());
                assert(bytes@.subrange(
                    rpos as int,
                    rpos as int + 2 * g1_enc_len(compress) * cols,
                ) == com1_list_enc(rv[i as int], compress));
            };
        }
        let (row, rend) = match parsed_row {
            Some(x) => { x },
            None => {
                proof {
                    assert forall|rv: Seq<Seq<Seq<int>>>| #[trigger]
                        com1_mat_hyp(rv, bytes@, start as int, compress) implies false by {
                    };
                }
                return None;
            },
        };
        let ghost newrow = c1_models(row@);
        vecs.push(row);
        proof {
            let oldrows = rowvals;
            rowvals = rowvals.push(newrow);
            assert(rowvals.drop_last() =~= oldrows);
            assert(rowvals.last() == newrow);
            assert(com1_rows_enc(rowvals, compress) == com1_rows_enc(oldrows, compress) + u64_le(
                newrow.len() as int,
            ) + com1_list_enc(newrow, compress));
            assert(newrow.len() == cols as int);
            assert(bytes@.subrange(start as int, rend as int) =~= bytes@.subrange(
                start as int,
                pos as int,
            ) + bytes@.subrange(pos as int, rpos as int) + bytes@.subrange(
                rpos as int,
                rend as int,
            ));
            assert(u64_le(rows as int) + com1_rows_enc(rowvals, compress) =~= u64_le(
                rows as int,
            ) + com1_rows_enc(oldrows, compress) + u64_le(cols as int) + com1_list_enc(
                newrow,
                compress,
            ));
            assert forall|rv: Seq<Seq<Seq<int>>>| #[trigger]
                com1_mat_hyp(rv, bytes@, start as int, compress) implies rowvals == rv.take(
                i + 1,
            ) by {
                assert(newrow == rv[i as int]);
                assert(rv.take(i + 1) =~= rv.take(i as int).push(rv[i as int]));
            };
        }
        pos = rend;
    }
    let m = Matrix::from_vecs(&vecs);
    proof {
        assert forall|i: int| 0 <= i < m.nrows() implies m.model_rows()[i] == rowvals[i] by {
            assert(rowvals[i] == c1_models(vecs@[i]@));
            assert(vecs@[i]@.len() == cols);
            assert forall|j: int| 0 <= j < m.ncols() implies m.model_rows()[i][j]
                == rowvals[i][j] by {
                assert(m.entry(i, j) == vecs@[i]@[j]);
            };
            assert(m.model_rows()[i] =~= rowvals[i]);
        };
        assert(m.model_rows() =~= rowvals);
        assert forall|rv: Seq<Seq<Seq<int>>>| #[trigger]
            com1_mat_hyp(rv, bytes@, start as int, compress) implies pos == start + com1_mat_enc(
            rv,
            compress,
        ).len() && m.model_rows() == rv by {
            lemma_u64_le_len(rv.len() as int);
            assert(rv.take(rows as int) =~= rv);
            lemma_com1_rows_enc_suffix(rv, rows as int, compress);
            assert(com1_rows_enc_from(rv, rows as int, compress) =~= Seq::<u8>::empty());
            assert(com1_rows_enc(rv, compress) + Seq::<u8>::empty() =~= com1_rows_enc(
                rv,
                compress,
            ));
            assert(com1_rows_enc(rowvals, compress) == com1_rows_enc(rv, compress));
            assert(bytes@.subrange(start as int, pos as int).len() == (u64_le(rows as int)
                + com1_rows_enc(rv, compress)).len());
        };
    }
    Some((m, pos))
}

/// The concatenated row encodings of a matrix over the second commitment group:
/// each row is length-framed.
pub open spec fn com2_rows_enc(rows: Seq<Seq<Seq<int>>>, compress: bool) -> Seq<u8>
    decreases rows.len(),
{
    if rows.len() == 0 {
        Seq::empty()
    } else {
        com2_rows_enc(rows.drop_last(), compress) + u64_le(rows.last().len() as int)
            + com2_list_enc(rows.last(), compress)
    }
}

/// A matrix over the second commitment group as its length-framed row-major
/// nested sequence.
pub open spec fn com2_mat_enc(rows: Seq<Seq<Seq<int>>>, compress: bool) -> Seq<u8> {
    u64_le(rows.len() as int) + com2_rows_enc(rows, compress)
}

proof fn lemma_com2_rows_step(rows: Seq<Seq<Seq<int>>>, compress: bool, k: int)
    requires
        0 <= k < rows.len(),
    ensures
        com2_rows_enc(rows.take(k + 1), compress) == com2_rows_enc(rows.take(k), compress)
            + u64_le(rows[k].len() as int) + com2_list_enc(rows[k], compress),
{
    assert(rows.take(k + 1).drop_last() =~= rows.take(k));
    assert(rows.take(k + 1).last() == rows[k]);
}

impl Matrix<Com2> {
    /// The canonical encoding: the length-framed row-major nested sequence
    /// of the entries.  A matrix with zero rows encodes, but its encoding
    /// does not record the column count and is therefore not decodable.
    pub fn serialize(&self, compress: bool) -> (r: Vec<u8>)
        ensures
            r@ == com2_mat_enc(self.model_rows(), compress),
    {
        let (rows, cols) = self.dim();
        let mut out = u64_to_le(rows as u64);
        proof {
            assert(self.model_rows().take(0) =~= Seq::<Seq<Seq<int>>>::empty());
            assert(out@ =~= u64_le(rows as int) + com2_rows_enc(
                self.model_rows().take(0),
                compress,
            ));
        }
        for i in 0..rows
            invariant
                rows as int == self.nrows(),
                cols as int == self.ncols(),
                out@ == u64_le(rows as int) + com2_rows_enc(
                    self.model_rows().take(i as int),
                    compress,
                ),
        {
            let ghost rowms = Seq::new(self.ncols() as nat, |j: int| self.cell(i as int, j));
            let mut rowb = u64_to_le(cols as u64);
            proof {
                assert(rowms.take(0) =~= Seq::<Seq<int>>::empty());
                assert(rowb@ =~= u64_le(cols as int) + com2_list_enc(rowms.take(0), compress));
            }
            for j in 0..cols
                invariant
                    rows as int == self.nrows(),
                    cols as int == self.ncols(),
                    i < rows,
                    rowms == Seq::new(self.ncols() as nat, |j: int| self.cell(i as int, j)),
                    rowb@ == u64_le(cols as int) + com2_list_enc(
                        rowms.take(j as int),
                        compress,
                    ),
            {
                let cell = self.get(i, j);
                let mut cb = cell.serialize(compress);
                rowb.append(&mut cb);
                proof {
                    lemma_com2_list_step(rowms, compress, j as int);
                    assert(rowms[j as int] == cell.model());
                }
            }
            out.append(&mut rowb);
            proof {
                assert(rowms.take(cols as int) =~= rowms);
                lemma_com2_rows_step(self.model_rows(), compress, i as int);
                assert(self.model_rows()[i as int] == rowms);
                assert(rowms.len() == cols as int);
            }
        }
        proof {
            assert(self.model_rows().take(rows as int) =~= self.model_rows());
        }
        out
    }

    /// Decode a canonical encoding of a non-empty rectangular matrix;
    /// anything else yields `None`.  Every encoding of a decodable row
    /// sequence is accepted and restored exactly.
    pub fn deserialize(bytes: &[u8], compress: bool) -> (r: Option<Matrix<Com2>>)
        ensures
            r matches Some(m) ==> bytes@ == com2_mat_enc(m.model_rows(), compress) && m.nrows()
                > 0,
            forall|rv: Seq<Seq<Seq<int>>>|
                (#[trigger] com2_mat_decodable(rv, compress)) && bytes@ == com2_mat_enc(
                    rv,
                    compress,
                ) ==> (r matches Some(m) && m.model_rows() == rv),
    {
        proof {
            assert forall|rv: Seq<Seq<Seq<int>>>|
                (#[trigger] com2_mat_decodable(rv, compress)) && bytes@ == com2_mat_enc(
                    rv,
                    compress,
                ) implies com2_mat_hyp(rv, bytes@, 0, compress) by {
                assert(bytes@.subrange(0, com2_mat_enc(rv, compress).len() as int)
                    =~= com2_mat_enc(rv, compress));
            };
        }
        match parse_com2_matrix(bytes, 0, compress) {
            Some((m, end)) => {
                if end == bytes.len() {
                    proof {
                        assert(bytes@.subrange(0, bytes@.len() as int) =~= bytes@);
                    }
                    Some(m)
                } else {
                    proof {
                        assert forall|rv: Seq<Seq<Seq<int>>>|
                            (#[trigger] com2_mat_decodable(rv, compress)) && bytes@
                                == com2_mat_enc(rv, compress) implies false by {
                            assert(end == 0 + com2_mat_enc(rv, compress).len());
                        };
                    }
                    None
                }
            },
            None => {
                None
            },
        }
    }
}

/// Read one framed matrix over the second commitment group starting at `start`;
/// on success the second component is the position one past its encoding.
/// Every buffer holding the encoding of a decodable row sequence at `start`
/// is accepted and restored exactly; a zero-row encoding is rejected, since
/// it does not determine the column count.
#[verifier::rlimit(100)]
pub fn parse_com2_matrix(bytes: &[u8], start: usize, compress: bool) -> (r: Option<
    (Matrix<Com2>, usize),
>)
    ensures
        r matches Some((m, end)) ==> start <= end <= bytes@.len() && bytes@.subrange(
            start as int,
            end as int,
        ) == com2_mat_enc(m.model_rows(), compress) && m.nrows() > 0,
        forall|rv: Seq<Seq<Seq<int>>>|
            (#[trigger] com2_mat_hyp(rv, bytes@, start as int, compress)) ==> (r matches Some(
                (m, end),
            ) && end == start + com2_mat_enc(rv, compress).len() && m.model_rows() == rv),
{
    let w = if compress {
        2 * 96
    } else {
        2 * 192
    };
    let parsed_rows = parse_u64(bytes, start);
    proof {
        assert forall|rv: Seq<Seq<Seq<int>>>| #[trigger]
            com2_mat_hyp(rv, bytes@, start as int, compress) implies start + 8 <= bytes@.len()
            && bytes@.subrange(start as int, start as int + 8) == u64_le(rv.len() as int) by {
            lemma_u64_le_len(rv.len() as int);
            assert(bytes@.subrange(start as int, start as int + 8) =~= com2_mat_enc(
                rv,
                compress,
            ).subrange(0, 8));
            assert(com2_mat_enc(rv, compress).subrange(0, 8) =~= u64_le(rv.len() as int));
        };
    }
    let (rows_n, mut pos) = match parsed_rows {
        Some(x) => { x },
        None => { return None; },
    };
    proof {
        assert forall|rv: Seq<Seq<Seq<int>>>| #[trigger]
            com2_mat_hyp(rv, bytes@, start as int, compress) implies rows_n as int
            == rv.len() by {
        };
    }
    if rows_n == 0 || rows_n > 0xffff_ffff {
        return None;
    }
    let rows = rows_n as usize;
    let mut vecs: Vec<Vec<Com2>> = Vec::new();
    let mut cols: usize = 0;
    let ghost mut rowvals: Seq<Seq<Seq<int>>> = Seq::empty();
    proof {
        assert(com2_rows_enc(rowvals, compress) =~= Seq::<u8>::empty());
        assert(bytes@.subrange(start as int, pos as int) =~= u64_le(rows as int)
            + com2_rows_enc(rowvals, compress));
    }
    for i in 0..rows
        invariant
            rows_n == rows as u64,
            rows_n <= 0xffff_ffff,
            start <= pos <= bytes@.len(),
            w == 2 * g2_enc_len(compress),
            vecs@.len() == i,
            rowvals.len() == i,
            forall|a: int| 0 <= a < i ==> (#[trigger] vecs@[a])@.len() == cols,
            forall|a: int|
                0 <= a < i ==> rowvals[a] == c2_models((#[trigger] vecs@[a])@),
            bytes@.subrange(start as int, pos as int) == u64_le(rows as int) + com2_rows_enc(
                rowvals,
                compress,
            ),
            forall|rv: Seq<Seq<Seq<int>>>|
                (#[trigger] com2_mat_hyp(rv, bytes@, start as int, compress)) ==> (rows as int
                    == rv.len() && rowvals == rv.take(i as int) && (i > 0 ==> cols as int
                    == rv[0].len())),
    {
        proof {
            assert forall|rv: Seq<Seq<Seq<int>>>| #[trigger]
                com2_mat_hyp(rv, bytes@, start as int, compress) implies pos + 8 + w
                * rv[0].len() <= bytes@.len() && bytes@.subrange(pos as int, pos as int + 8)
                == u64_le(rv[0].len() as int) && bytes@.subrange(
                pos as int + 8,
                pos as int + 8 + w * rv[0].len() as int,
            ) == com2_list_enc(rv[i as int], compress) by {
                lemma_u64_le_len(rv.len() as int);
                lemma_u64_le_len(rv[0].len() as int);
                lemma_com2_rows_enc_suffix(rv, i as int, compress);
                lemma_com2_list_len(rv[i as int], compress);
                assert(rv[i as int].len() == rv[0].len());
                assert(w * rv[0].len() as int == rv[0].len() as int * w) by (nonlinear_arith);
                assert(com2_list_enc(rv[i as int], compress).len() == w * rv[0].len() as int);
                let enc = com2_mat_enc(rv, compress);
                let head = (8 + com2_rows_enc(rv.take(i as int), compress).len()) as int;
                assert(rowvals == rv.take(i as int));
                assert(bytes@.subrange(start as int, pos as int).len() == pos - start);
                assert((u64_le(rows as int) + com2_rows_enc(rowvals, compress)).len() == 8
                    + com2_rows_enc(rv.take(i as int), compress).len()) by {
                    lemma_u64_le_len(rows as int);
                };
                assert(pos as int == start + head);
                assert(bytes@.subrange(start as int, start + enc.len()) == enc);
                assert(bytes@.subrange(pos as int, start + enc.len()) =~= enc.subrange(
                    head,
                    enc.len() as int,
                ));
                assert(enc.subrange(head, enc.len() as int) =~= com2_rows_enc_from(
                    rv,
                    i as int,
                    compress,
                ));
                let from = com2_rows_enc_from(rv, i as int, compress);
                assert(from == u64_le(rv[i as int].len() as int) + com2_list_enc(
                    rv[i as int],
                    compress,
                ) + com2_rows_enc_from(rv, i + 1, compress));
                assert(bytes@.subrange(pos as int, pos as int + 8) =~= from.subrange(0, 8));
                assert(from.subrange(0, 8) =~= u64_le(rv[0].len() as int));
                assert(bytes@.subrange(
                    pos as int + 8,
                    pos as int + 8 + w * rv[0].len() as int,
                ) =~= from.subrange(8, 8 + w * rv[0].len() as int));
                assert(from.subrange(8, 8 + w * rv[0].len() as int) =~= com2_list_enc(
                    rv[i as int],
                    compress,
                ));
            };
        }
        let parsed_cols = parse_u64(bytes, pos);
        let (cols_n, rpos) = match parsed_cols {
            Some(x) => { x },
            None => {
                proof {
                    assert forall|rv: Seq<Seq<Seq<int>>>| #[trigger]
                        com2_mat_hyp(rv, bytes@, start as int, compress) implies false by {
                        assert(pos + 8 <= bytes@.len());
                    };
                }
                return None;
            },
        };
        proof {
            assert forall|rv: Seq<Seq<Seq<int>>>| #[trigger]
                com2_mat_hyp(rv, bytes@, start as int, compress) implies cols_n as int
                == rv[0].len() by {
            };
        }
        if i == 0 {
            if cols_n > 0xffff_ffff {
                return None;
            }
            cols = cols_n as usize;
        } else {
            if cols_n != cols as u64 {
                return None;
            }
        }
        let parsed_row = parse_com2_cells(bytes, rpos, cols, compress);
        proof {
            assert forall|rv: Seq<Seq<Seq<int>>>| #[trigger]
                com2_mat_hyp(rv, bytes@, start as int, compress) implies (parsed_row matches Some(
                (row, _),
            ) && c2_models(row@) == rv[i as int]) by {
                assert(com2_list_decodable(rv[i as int], compress));
                assert(cols_n as int == rv[0].len());
                assert(rv[i as int].len() == cols);
                assert(rpos + 2 * g2_enc_len(compress) * cols <= bytes@.len());
                assert(bytes@.subrange(
                    rpos as int,
                    rpos as int + 2 * g2_enc_len(compress) * cols,
                ) == com2_list_enc(rv[i as int], compress));
            };
        }
        let (row, rend) = match parsed_row {
            Some(x) => { x },
            None => {
                proof {
                    assert forall|rv: Seq<Seq<Seq<int>>>| #[trigger]
                        com2_mat_hyp(rv, bytes@, start as int, compress) implies false by {
                    };
                }
                return None;
            },
        };
        let ghost newrow = c2_models(row@);
        vecs.push(row);
        proof {
            let oldrows = rowvals;
            rowvals = rowvals.push(newrow);
            assert(rowvals.drop_last() =~= oldrows);
            assert(rowvals.last() == newrow);
            assert(com2_rows_enc(rowvals, compress) == com2_rows_enc(oldrows, compress) + u64_le(
                newrow.len() as int,
            ) + com2_list_enc(newrow, compress));
            assert(newrow.len() == cols as int);
            assert(bytes@.subrange(start as int, rend as int) =~= bytes@.subrange(
                start as int,
                pos as int,
            ) + bytes@.subrange(pos as int, rpos as int) + bytes@.subrange(
                rpos as int,
                rend as int,
            ));
            assert(u64_le(rows as int) + com2_rows_enc(rowvals, compress) =~= u64_le(
                rows as int,
            ) + com2_rows_enc(oldrows, compress) + u64_le(cols as int) + com2_list_enc(
                newrow,
                compress,
            ));
            assert forall|rv: Seq<Seq<Seq<int>>>| #[trigger]
                com2_mat_hyp(rv, bytes@, start as int, compress) implies rowvals == rv.take(
                i + 1,
            ) by {
                assert(newrow == rv[i as int]);
                assert(rv.take(i + 1) =~= rv.take(i as int).push(rv[i as int]));
            };
        }
        pos = rend;
    }
    let m = Matrix::from_vecs(&vecs);
    proof {
        assert forall|i: int| 0 <= i < m.nrows() implies m.model_rows()[i] == rowvals[i] by {
            assert(rowvals[i] == c2_models(vecs@[i]@));
            assert(vecs@[i]@.len() == cols);
            assert forall|j: int| 0 <= j < m.ncols() implies m.model_rows()[i][j]
                == rowvals[i][j] by {
                assert(m.entry(i, j) == vecs@[i]@[j]);
            };
            assert(m.model_rows()[i] =~= rowvals[i]);
        };
        assert(m.model_rows() =~= rowvals);
        assert forall|rv: Seq<Seq<Seq<int>>>| #[trigger]
            com2_mat_hyp(rv, bytes@, start as int, compress) implies pos == start + com2_mat_enc(
            rv,
            compress,
        ).len() && m.model_rows() == rv by {
            lemma_u64_le_len(rv.len() as int);
            assert(rv.take(rows as int) =~= rv);
            lemma_com2_rows_enc_suffix(rv, rows as int, compress);
            assert(com2_rows_enc_from(rv, rows as int, compress) =~= Seq::<u8>::empty());
            assert(com2_rows_enc(rv, compress) + Seq::<u8>::empty() =~= com2_rows_enc(
                rv,
                compress,
            ));
            assert(com2_rows_enc(rowvals, compress) == com2_rows_enc(rv, compress));
            assert(bytes@.subrange(start as int, pos as int).len() == (u64_le(rows as int)
                + com2_rows_enc(rv, compress)).len());
        };
    }
    Some((m, pos))
}

/// The encoding of a proof: the framed matrix over the second commitment
/// group, then the framed matrix over the first.
pub open spec fn proof_enc(
    pi_rows: Seq<Seq<Seq<int>>>,
    theta_rows: Seq<Seq<Seq<int>>>,
    compress: bool,
) -> Seq<u8> {
    com2_mat_enc(pi_rows, compress) + com1_mat_enc(theta_rows, compress)
}

impl EquProof {
    /// The canonical encoding: both proof matrices in declared order.
    pub fn serialize(&self, compress: bool) -> (r: Vec<u8>)
        ensures
            r@ == proof_enc(self.pi.model_rows(), self.theta.model_rows(), compress),
    {
        let mut out = self.pi.serialize(compress);
        let mut tb = self.theta.serialize(compress);
        out.append(&mut tb);
        out
    }

    /// Decode a canonical encoding; anything else yields `None`.  Every
    /// buffer holding the encodings of two decodable proof matrices is
    /// accepted and restored exactly.
    pub fn deserialize(bytes: &[u8], compress: bool) -> (r: Option<EquProof>)
        ensures
            r matches Some(v) ==> bytes@ == proof_enc(
                v.pi.model_rows(),
                v.theta.model_rows(),
                compress,
            ),
            forall|pr: Seq<Seq<Seq<int>>>, tr: Seq<Seq<Seq<int>>>|
                com2_mat_decodable(pr, compress) && com1_mat_decodable(tr, compress) && bytes@
                    == (#[trigger] proof_enc(pr, tr, compress)) ==> (r matches Some(v)
                    && v.pi.model_rows() == pr && v.theta.model_rows() == tr),
    {
        proof {
            assert forall|pr: Seq<Seq<Seq<int>>>, tr: Seq<Seq<Seq<int>>>|
                com2_mat_decodable(pr, compress) && com1_mat_decodable(tr, compress) && bytes@
                    == (#[trigger] proof_enc(pr, tr, compress)) implies com2_mat_hyp(
                pr,
                bytes@,
                0,
                compress,
            ) by {
                assert(bytes@.subrange(0, com2_mat_enc(pr, compress).len() as int)
                    =~= com2_mat_enc(pr, compress));
            };
        }
        let parsed_pi = parse_com2_matrix(bytes, 0, compress);
        let (pi, mid) = match parsed_pi {
            Some(x) => { x },
            None => { return None; },
        };
        proof {
            assert forall|pr: Seq<Seq<Seq<int>>>, tr: Seq<Seq<Seq<int>>>|
                com2_mat_decodable(pr, compress) && com1_mat_decodable(tr, compress) && bytes@
                    == (#[trigger] proof_enc(pr, tr, compress)) implies com1_mat_hyp(
                tr,
                bytes@,
                mid as int,
                compress,
            ) && mid as int == com2_mat_enc(pr, compress).len() by {
                assert(mid as int == 0 + com2_mat_enc(pr, compress).len());
                assert(bytes@.subrange(
                    mid as int,
                    mid as int + com1_mat_enc(tr, compress).len() as int,
                ) =~= com1_mat_enc(tr, compress));
            };
        }
        let parsed_theta = parse_com1_matrix(bytes, mid, compress);
        let (theta, end) = match parsed_theta {
            Some(x) => { x },
            None => { return None; },
        };
        if end != bytes.len() {
            proof {
                assert forall|pr: Seq<Seq<Seq<int>>>, tr: Seq<Seq<Seq<int>>>|
                    com2_mat_decodable(pr, compress) && com1_mat_decodable(tr, compress) && bytes@
                        == (#[trigger] proof_enc(pr, tr, compress)) implies false by {
                    assert(end == mid + com1_mat_enc(tr, compress).len());
                };
            }
            return None;
        }
        let v = EquProof { pi, theta };
        proof {
            assert(bytes@.subrange(0, bytes@.len() as int) =~= bytes@);
            assert(bytes@ =~= bytes@.subrange(0, mid as int) + bytes@.subrange(
                mid as int,
                end as int,
            ));
        }
        Some(v)
    }
}

} // verus!
