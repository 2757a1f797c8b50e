//! The ATMS verifier gate: the roster's public keys are bound to a public
//! commitment, each present signature is verified by the Schnorr gate and
//! counted, and the count is constrained equal to the public threshold.
use vstd::prelude::*;
use crate::field::{Fe, modulus};
use crate::curve::scalar_modulus;
use crate::rescue::{RescueParameters, sponge_hash_spec, sbox_inverts};
use crate::region::{RegionCtx, AssignedValue, lemma_extended_val, lemma_extended_trans, lemma_satisfied_prefix};
use crate::main_gate::MainGate;
use crate::ecc_chip::AssignedEccPoint;
use crate::schnorr::{SchnorrVerifierGate, AssignedSchnorrSignature, gate_eq, gate_defined};

verus! {

/// Number of present signatures among the first `n` slots.
pub open spec fn count_present(sigs: Seq<Option<AssignedSchnorrSignature>>, n: int) -> nat
    decreases n,
{
    if n <= 0 {
        0
    } else {
        count_present(sigs, n - 1) + if sigs[n - 1] is Some { 1nat } else { 0nat }
    }
}

/// The x-coordinates of the roster's keys, as held in the region.
pub open spec fn roster_xs(pks: Seq<AssignedEccPoint>, ctx: &RegionCtx) -> Seq<int> {
    Seq::new(pks.len(), |i: int| ctx.val(pks[i].x))
}

/// The cells of the signatures and keys belong to the region, and each
/// present response is below `r`.
pub open spec fn slots_in_region(sigs: Seq<Option<AssignedSchnorrSignature>>, pks: Seq<AssignedEccPoint>, ctx: &RegionCtx) -> bool {
    &&& sigs.len() == pks.len()
    &&& forall|i: int| 0 <= i < pks.len() ==> (#[trigger] pks[i]).in_region(ctx)
    &&& forall|i: int| 0 <= i < sigs.len() ==> match #[trigger] sigs[i] {
        Some(s) => s.0.in_region(ctx) && s.1.0 < ctx.cells.len() && ctx.val(s.1.0) < scalar_modulus(),
        None => true,
    }
}

/// Every present signature satisfies the Schnorr gate's equation for its
/// key and the message, among the first `n` slots.
pub open spec fn present_verify<P: RescueParameters>(params: &P, sigs: Seq<Option<AssignedSchnorrSignature>>, pks: Seq<AssignedEccPoint>, msg: AssignedValue, ctx: &RegionCtx, n: int) -> bool {
    forall|i: int| 0 <= i < n ==> match #[trigger] sigs[i] {
        Some(s) => gate_eq(params, ctx.val(msg), pks[i].pv(ctx), s.0.pv(ctx), ctx.val(s.1.0)),
        None => true,
    }
}

/// Every present signature among the first `n` slots meets the Schnorr
/// gate's equation, with every point addition of its gate defined.
pub open spec fn present_complete<P: RescueParameters>(params: &P, sigs: Seq<Option<AssignedSchnorrSignature>>, pks: Seq<AssignedEccPoint>, msg: AssignedValue, ctx: &RegionCtx, n: int) -> bool {
    forall|i: int| 0 <= i < n ==> match #[trigger] sigs[i] {
        Some(s) => gate_defined(params, ctx.val(msg), pks[i].pv(ctx), s.0.pv(ctx), ctx.val(s.1.0))
            && gate_eq(params, ctx.val(msg), pks[i].pv(ctx), s.0.pv(ctx), ctx.val(s.1.0)),
        None => true,
    }
}

/// The ATMS verifier gate.
#[derive(Debug)]
pub struct AtmsVerifierGate {
    pub schnorr_gate: SchnorrVerifierGate,
}

proof fn lemma_keep_slots(sigs: Seq<Option<AssignedSchnorrSignature>>, pks: Seq<AssignedEccPoint>, c1: &RegionCtx, c2: &RegionCtx)
    requires
        slots_in_region(sigs, pks, c1),
        c1.extended_by(c2),
    ensures
        slots_in_region(sigs, pks, c2),
        roster_xs(pks, c2) == roster_xs(pks, c1),
        forall|i: int| 0 <= i < pks.len() ==> #[trigger] pks[i].pv(c2) == pks[i].pv(c1),
        forall|i: int| 0 <= i < sigs.len() && sigs[i] is Some ==> (#[trigger] sigs[i]).unwrap().0.pv(c2) == sigs[i].unwrap().0.pv(c1)
            && c2.val(sigs[i].unwrap().1.0) == c1.val(sigs[i].unwrap().1.0),
{
    assert forall|i: int| 0 <= i < pks.len() implies (#[trigger] pks[i]).in_region(c2) && pks[i].pv(c2) == pks[i].pv(c1) by {
        lemma_extended_val(c1, c2, pks[i].x);
        lemma_extended_val(c1, c2, pks[i].y);
    }
    assert forall|i: int| 0 <= i < sigs.len() && sigs[i] is Some implies (#[trigger] sigs[i]).unwrap().0.in_region(c2)
        && sigs[i].unwrap().1.0 < c2.cells.len()
        && sigs[i].unwrap().0.pv(c2) == sigs[i].unwrap().0.pv(c1)
        && c2.val(sigs[i].unwrap().1.0) == c1.val(sigs[i].unwrap().1.0) by {
        let s = sigs[i].unwrap();
        lemma_extended_val(c1, c2, s.0.x);
        lemma_extended_val(c1, c2, s.0.y);
        lemma_extended_val(c1, c2, s.1.0);
    }
    assert(roster_xs(pks, c2) =~= roster_xs(pks, c1));
}

impl AtmsVerifierGate {
    pub open spec fn wf(&self) -> bool {
        self.schnorr_gate.wf()
    }

    pub fn new(main_gate: MainGate) -> (r: AtmsVerifierGate)
        ensures
            r.wf(),
    {
        AtmsVerifierGate { schnorr_gate: SchnorrVerifierGate::new(main_gate) }
    }

    /// The ATMS verifier: hashes the x-coordinates of the roster and
    /// constrains the hash equal to `commited_pks`; verifies the signature
    /// of every slot that holds one against the slot's key and counts it;
    /// constrains the count equal to `threshold`. Where the region is
    /// satisfied, the commitment is the roster's hash, the threshold is the
    /// number of present signatures, and each of them meets the Schnorr
    /// gate's equation. Conversely, where all of this holds (with every point
    /// addition defined), a satisfied region stays satisfied.
    pub fn verify<P: RescueParameters>(
        &self,
        ctx: &mut RegionCtx,
        params: &P,
        signatures: &Vec<Option<AssignedSchnorrSignature>>,
        pks: &Vec<AssignedEccPoint>,
        commited_pks: AssignedValue,
        msg: AssignedValue,
        threshold: AssignedValue,
    )
        requires
            self.wf(),
            old(ctx).wf(),
            params.params_wf(),
            pks.len() < usize::MAX - 2,
            slots_in_region(signatures@, pks@, old(ctx)),
            commited_pks < old(ctx).cells.len(),
            msg < old(ctx).cells.len(),
            threshold < old(ctx).cells.len(),
        ensures
            final(ctx).wf(),
            old(ctx).extended_by(final(ctx)),
            final(ctx).satisfied() ==> old(ctx).satisfied(),
            final(ctx).satisfied() ==> old(ctx).val(commited_pks) == sponge_hash_spec(params, roster_xs(pks@, old(ctx)), 0),
            final(ctx).satisfied() ==> old(ctx).val(threshold) == count_present(signatures@, signatures.len() as int),
            final(ctx).satisfied() ==> present_verify(params, signatures@, pks@, msg, old(ctx), signatures.len() as int),
            old(ctx).satisfied()
                && old(ctx).val(commited_pks) == sponge_hash_spec(params, roster_xs(pks@, old(ctx)), 0)
                && old(ctx).val(threshold) == count_present(signatures@, signatures.len() as int)
                && present_complete(params, signatures@, pks@, msg, old(ctx), signatures.len() as int)
                ==> final(ctx).satisfied(),
    {
        let ghost c0 = *ctx;
        proof {
            params.lemma_sbox_inverts();
        }
        let ghost ok = c0.satisfied() && sbox_inverts(params.spec_a_inv())
            && c0.val(commited_pks) == sponge_hash_spec(params, roster_xs(pks@, &c0), 0)
            && c0.val(threshold) == count_present(signatures@, signatures.len() as int)
            && present_complete(params, signatures@, pks@, msg, &c0, signatures.len() as int);
        let main_gate = self.schnorr_gate.ecc_gate.main_gate;
        let mut flattened_pks: Vec<AssignedValue> = Vec::new();
        let mut k: usize = 0;
        while k < pks.len()
            invariant
                k <= pks.len(),
                flattened_pks.len() == k,
                forall|i: int| 0 <= i < k ==> #[trigger] flattened_pks@[i] == pks@[i].x,
            decreases pks.len() - k,
        {
            flattened_pks.push(pks[k].x);
            k = k + 1;
        }
        proof {
            assert forall|i: int| 0 <= i < flattened_pks.len() implies #[trigger] flattened_pks@[i] < c0.cells.len() by {
                assert(pks@[i].in_region(&c0));
            }
        }
        let hashed_pks = self.schnorr_gate.rescue_hash_gate.hash(ctx, params, &flattened_pks);
        proof {
            assert(Seq::new(flattened_pks.len() as nat, |i: int| c0.val(flattened_pks@[i])) =~= roster_xs(pks@, &c0));
            lemma_extended_val(&c0, ctx, commited_pks);
        }
        let ghost c1 = *ctx;
        main_gate.assert_equal(ctx, hashed_pks, commited_pks);
        let ghost c2 = *ctx;
        let mut counter = main_gate.assign_constant(ctx, Fe::zero());
        proof {
            lemma_extended_trans(&c0, &c1, &c2);
            lemma_extended_trans(&c0, &c2, ctx);
            lemma_keep_slots(signatures@, pks@, &c0, ctx);
            lemma_extended_val(&c0, ctx, msg);
            lemma_extended_val(&c0, ctx, threshold);
            crate::field::lemma_modulus_bounds();
        }
        let n = signatures.len();
        let mut i: usize = 0;
        while i < n
            invariant
                self.wf(),
                ctx.wf(),
                c0.wf(),
                c0.extended_by(ctx),
                c2.extended_by(ctx),
                c2.wf(),
                params.params_wf(),
                n == signatures.len(),
                n == pks.len(),
                n < usize::MAX - 2,
                1 < modulus(),
                usize::MAX < modulus(),
                i <= n,
                slots_in_region(signatures@, pks@, &c0),
                slots_in_region(signatures@, pks@, ctx),
                forall|j: int| 0 <= j < pks.len() ==> #[trigger] pks@[j].pv(ctx) == pks@[j].pv(&c0),
                forall|j: int| 0 <= j < signatures.len() && signatures@[j] is Some ==> (#[trigger] signatures@[j]).unwrap().0.pv(ctx) == signatures@[j].unwrap().0.pv(&c0)
                    && ctx.val(signatures@[j].unwrap().1.0) == c0.val(signatures@[j].unwrap().1.0),
                msg < c0.cells.len(),
                ctx.val(msg) == c0.val(msg),
                counter < ctx.cells.len(),
                ctx.val(counter) == count_present(signatures@, i as int),
                count_present(signatures@, i as int) <= i,
                ctx.satisfied() ==> c2.satisfied(),
                ctx.satisfied() ==> present_verify(params, signatures@, pks@, msg, &c0, i as int),
                ok == (c0.satisfied() && sbox_inverts(params.spec_a_inv())
                    && c0.val(commited_pks) == sponge_hash_spec(params, roster_xs(pks@, &c0), 0)
                    && c0.val(threshold) == count_present(signatures@, signatures.len() as int)
                    && present_complete(params, signatures@, pks@, msg, &c0, signatures.len() as int)),
                ok ==> ctx.satisfied(),
            decreases n - i,
        {
            let ghost ca = *ctx;
            match &signatures[i] {
                Some(signature) => {
                    proof {
                        if ok {
                            assert(present_complete(params, signatures@, pks@, msg, &c0, signatures.len() as int));
                            assert(match signatures@[i as int] {
                                Some(s) => gate_defined(params, c0.val(msg), pks@[i as int].pv(&c0), s.0.pv(&c0), c0.val(s.1.0))
                                    && gate_eq(params, c0.val(msg), pks@[i as int].pv(&c0), s.0.pv(&c0), c0.val(s.1.0)),
                                None => true,
                            });
                        }
                    }
                    self.schnorr_gate.verify(ctx, params, signature, &pks[i], msg);
                    let ghost cb = *ctx;
                    proof {
                        lemma_extended_val(&ca, &cb, counter);
                    }
                    counter = main_gate.add_constant(ctx, counter, Fe::one());
                    proof {
                        vstd::arithmetic::div_mod::lemma_small_mod((count_present(signatures@, i as int) + 1) as nat, modulus() as nat);
                        lemma_extended_trans(&ca, &cb, ctx);
                        if ctx.satisfied() {
                            lemma_satisfied_prefix(&cb, ctx);
                            lemma_satisfied_prefix(&ca, &cb);
                        }
                    }
                },
                None => {},
            }
            proof {
                lemma_extended_trans(&c0, &ca, ctx);
                lemma_extended_trans(&c2, &ca, ctx);
                lemma_keep_slots(signatures@, pks@, &ca, ctx);
                lemma_extended_val(&ca, ctx, msg);
                if ctx.satisfied() {
                    lemma_satisfied_prefix(&ca, ctx);
                    assert forall|j: int| 0 <= j < i + 1 implies match #[trigger] signatures@[j] {
                        Some(s) => gate_eq(params, c0.val(msg), pks@[j].pv(&c0), s.0.pv(&c0), c0.val(s.1.0)),
                        None => true,
                    } by {
                        if j < i {
                            assert(present_verify(params, signatures@, pks@, msg, &c0, i as int));
                        }
                    }
                }
            }
            i = i + 1;
        }
        let ghost c3 = *ctx;
        proof {
            lemma_extended_trans(&c0, &c2, ctx);
        }
        main_gate.assert_equal(ctx, counter, threshold);
        proof {
            lemma_extended_val(&c0, &c3, threshold);
            lemma_extended_trans(&c0, &c3, ctx);
            if ctx.satisfied() {
                lemma_satisfied_prefix(&c2, ctx);
                lemma_satisfied_prefix(&c0, ctx);
                lemma_satisfied_prefix(&c1, &c2);
            }
        }
    }
}

} // verus!
