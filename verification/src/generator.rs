//! The common reference string: two generators and the two commitment-base
//! vectors `u` (of [`Com1`]) and `v` (of [`Com2`]).  It is created once per
//! proving session and read-only afterwards.

use crate::adapter::fr_val;
use crate::adapter::g1_log;
use crate::adapter::g2_log;
use crate::adapter::G1Affine;
use crate::adapter::G2Affine;
use crate::adapter::RandSource;
use crate::adapter::Scalar;
use crate::com::Com1;
use crate::com::Com2;
use crate::data_structures::mscale;
use crate::data_structures::mwf;
use crate::data_structures::Element;
use vstd::prelude::*;

verus! {

/// Common reference string of the SXDH instantiation.
pub struct CRS {
    pub g1_gen: G1Affine,
    pub g2_gen: G2Affine,
    pub u: Vec<Com1>,
    pub v: Vec<Com2>,
}

impl CRS {
    /// Both base vectors have two entries, all with reduced logarithms.
    pub open spec fn wf(self) -> bool {
        &&& self.u@.len() == 2
        &&& self.v@.len() == 2
        &&& mwf(self.u@[0].model())
        &&& mwf(self.u@[1].model())
        &&& mwf(self.v@[0].model())
        &&& mwf(self.v@[1].model())
    }

    /// Sample a reference string.  The first base entry of each side is built
    /// over the side's generator, and the second entry is the first one under
    /// some scalar: the structure on which the SXDH hardness assumption
    /// rests.
    pub fn generate_crs(rng: &mut RandSource) -> (r: CRS)
        ensures
            r.wf(),
            r.u@[0].model()[0] == g1_log(r.g1_gen),
            r.v@[0].model()[0] == g2_log(r.g2_gen),
            exists|t: int| r.u@[1].model() == mscale(r.u@[0].model(), t),
            exists|t: int| r.v@[1].model() == mscale(r.v@[0].model(), t),
    {
        let p1 = G1Affine::rand(rng);
        let a1 = Scalar::rand(rng);
        let t1 = Scalar::rand(rng);
        let p2 = G2Affine::rand(rng);
        let a2 = Scalar::rand(rng);
        let t2 = Scalar::rand(rng);

        let u0 = Com1::new(p1, p1.mul(&a1));
        let u1 = u0.scalar_mul(&t1);
        let v0 = Com2::new(p2, p2.mul(&a2));
        let v1 = v0.scalar_mul(&t2);

        let u = vec![u0, u1];
        let v = vec![v0, v1];
        let r = CRS { g1_gen: p1, g2_gen: p2, u, v };
        proof {
            assert(r.u@[1].model() == mscale(r.u@[0].model(), fr_val(t1)));
            assert(r.v@[1].model() == mscale(r.v@[0].model(), fr_val(t2)));
            assert forall|i: int| 0 <= i < 2 implies 0 <= #[trigger] r.u@[0].model()[i]
                < crate::adapter::fr_order() by {
                vstd::arithmetic::div_mod::lemma_mod_bound(
                    g1_log(p1) * fr_val(a1),
                    crate::adapter::fr_order(),
                );
            };
            assert forall|i: int| 0 <= i < 2 implies 0 <= #[trigger] r.v@[0].model()[i]
                < crate::adapter::fr_order() by {
                vstd::arithmetic::div_mod::lemma_mod_bound(
                    g2_log(p2) * fr_val(a2),
                    crate::adapter::fr_order(),
                );
            };
            assert forall|i: int| 0 <= i < 2 implies 0 <= #[trigger] r.u@[1].model()[i]
                < crate::adapter::fr_order() by {
                vstd::arithmetic::div_mod::lemma_mod_bound(
                    r.u@[0].model()[i] * fr_val(t1),
                    crate::adapter::fr_order(),
                );
            };
            assert forall|i: int| 0 <= i < 2 implies 0 <= #[trigger] r.v@[1].model()[i]
                < crate::adapter::fr_order() by {
                vstd::arithmetic::div_mod::lemma_mod_bound(
                    r.v@[0].model()[i] * fr_val(t2),
                    crate::adapter::fr_order(),
                );
            };
        }
        r
    }
}

} // verus!
