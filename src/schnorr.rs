//! Schnorr signatures over the prime-order subgroup of the curve, with the
//! Rescue sponge as the challenge hash: key generation, signing and
//! verification outside the circuit, and a gate that verifies a signature
//! inside it.
use vstd::prelude::*;
use crate::field::{Fe, fe_eq};
use crate::curve::{
    Point, Scalar, SCALAR_NUM_BITS, edwards_add, ladder, scalar_modulus, generator, generator_spec, add_defined,
    native_add, native_mul, scalar_add, scalar_mul, scalar_from_base, scalar_random,
};
use crate::rescue::{RescueParameters, RescueSponge, sponge_hash_spec, fes_val, sbox_inverts};
use crate::region::{RegionCtx, AssignedValue, lemma_extended_val, lemma_extended_trans, lemma_satisfied_prefix};
use crate::main_gate::MainGate;
use crate::ecc_chip::{EccChip, AssignedEccPoint, ScalarVar, fixed_acc, nat_bits, witness_coords, N_WINDOWS, fixed_base_table, table_of, fixed_defined, ladder_defined, normalized};
use crate::rescue_gate::RescueCrhfGate;

verus! {

/// A signature: the announcement `R` and the response `s`.
pub type SchnorrSig = (Point, Scalar);

/// A signature held in cells.
pub type AssignedSchnorrSignature = (AssignedEccPoint, ScalarVar);

/// The challenge `Rescue(R.x, pk.x, msg)`.
pub open spec fn challenge_spec<P: RescueParameters>(params: &P, r_x: int, pk_x: int, msg: int) -> int {
    sponge_hash_spec(params, seq![r_x, pk_x, msg], 0)
}

/// The equation that verification checks outside the circuit,
/// `[s] G = R + [c mod r] pk`.
pub open spec fn verify_eq<P: RescueParameters>(params: &P, msg: int, pk: (int, int), r: (int, int), s: int) -> bool {
    let c = challenge_spec(params, r.0, pk.0, msg) % scalar_modulus();
    ladder(generator_spec(), s as nat, SCALAR_NUM_BITS as nat) == edwards_add(r, ladder(pk, c as nat, SCALAR_NUM_BITS as nat))
}

/// The equation that the verifier gate constrains, on the values of its
/// cells: `[s] G`, by windows, equals `R + [c] pk`, by double-and-add, the
/// points taken normalized (the identity `(0, 0)` as `(0, 1)`).
pub open spec fn gate_eq<P: RescueParameters>(params: &P, msg: int, pk: (int, int), r: (int, int), s: int) -> bool {
    let c = challenge_spec(params, r.0, pk.0, msg);
    fixed_acc(generator_spec(), nat_bits(s as nat, SCALAR_NUM_BITS as nat), N_WINDOWS as nat)
        == edwards_add(normalized(r), normalized(ladder(normalized(pk), c as nat, crate::field::NUM_BITS as nat)))
}

/// Every point addition that the verifier gate lays has non-zero
/// denominators: those of `[s] G` by windows, of `[c] pk` by double-and-add,
/// and of `R + [c] pk`.
pub open spec fn gate_defined<P: RescueParameters>(params: &P, msg: int, pk: (int, int), r: (int, int), s: int) -> bool {
    let c = challenge_spec(params, r.0, pk.0, msg);
    &&& fixed_defined(generator_spec(), nat_bits(s as nat, SCALAR_NUM_BITS as nat))
    &&& ladder_defined(normalized(pk), nat_bits(c as nat, crate::field::NUM_BITS as nat))
    &&& add_defined(normalized(r), normalized(ladder(normalized(pk), c as nat, crate::field::NUM_BITS as nat)))
}

/// Failure of signature verification.
#[derive(Clone, Copy, Debug, PartialEq, Eq)]
pub enum SchnorrError {
    InvalidSignature,
}

/// Schnorr signatures outside the circuit.
#[derive(Debug)]
pub struct Schnorr;

impl Schnorr {
    /// A key pair: a random secret scalar `sk` and the public key `[sk] G`.
    pub fn keygen() -> (r: (Scalar, Point))
        ensures
            r.0.wf(),
            r.1.on_curve(),
            r.1.pv() == ladder(generator_spec(), r.0.val() as nat, SCALAR_NUM_BITS as nat),
    {
        let sk = scalar_random();
        let pk = native_mul(generator(), sk);
        (sk, pk)
    }

    /// The challenge `Rescue(R.x, pk.x, msg)` reduced into the scalars.
    fn challenge<P: RescueParameters>(params: &P, r: &Point, pk: &Point, msg: Fe) -> (c: Scalar)
        requires
            params.params_wf(),
            r.wf(),
            pk.wf(),
            msg.wf(),
        ensures
            c.wf(),
            c.val() == challenge_spec(params, r.x.val(), pk.x.val(), msg.val()) % scalar_modulus(),
    {
        let inputs = vec![r.x, pk.x, msg];
        let h = RescueSponge::hash(params, &inputs, None);
        proof {
            assert(fes_val(inputs@) =~= seq![r.x.val(), pk.x.val(), msg.val()]);
        }
        scalar_from_base(h)
    }

    /// Signs `msg` with the nonce `k`: `R = [k] G`, `s = k + c sk` with the
    /// challenge `c = Rescue(R.x, pk.x, msg)` reduced modulo `r`.
    pub fn sign_with_nonce<P: RescueParameters>(params: &P, key_pair: (Scalar, Point), msg: Fe, k: Scalar) -> (r: SchnorrSig)
        requires
            params.params_wf(),
            key_pair.0.wf(),
            key_pair.1.on_curve(),
            msg.wf(),
            k.wf(),
        ensures
            r.0.on_curve(),
            r.1.wf(),
            signed_with(params, key_pair, msg, k, r),
    {
        let announcement = native_mul(generator(), k);
        let c = Self::challenge(params, &announcement, &key_pair.1, msg);
        let response = scalar_add(k, scalar_mul(c, key_pair.0));
        (announcement, response)
    }

    /// Signs `msg` with a fresh random nonce.
    pub fn sign<P: RescueParameters>(params: &P, key_pair: (Scalar, Point), msg: Fe) -> (r: SchnorrSig)
        requires
            params.params_wf(),
            key_pair.0.wf(),
            key_pair.1.on_curve(),
            msg.wf(),
        ensures
            r.0.on_curve(),
            r.1.wf(),
            exists|k: Scalar| #[trigger] k.wf() && signed_with(params, key_pair, msg, k, r),
    {
        let k = scalar_random();
        Self::sign_with_nonce(params, key_pair, msg, k)
    }

    /// Verifies a signature: `[s] G = R + [c] pk`.
    pub fn verify<P: RescueParameters>(params: &P, msg: Fe, pk: Point, sig: SchnorrSig) -> (r: Result<(), SchnorrError>)
        requires
            params.params_wf(),
            msg.wf(),
            pk.on_curve(),
            sig.0.on_curve(),
            sig.1.wf(),
        ensures
            r is Ok <==> verify_eq(params, msg.val(), pk.pv(), sig.0.pv(), sig.1.val()),
    {
        let c = Self::challenge(params, &sig.0, &pk, msg);
        let lhs = native_mul(generator(), sig.1);
        let rhs = native_add(sig.0, native_mul(pk, c));
        if fe_eq(lhs.x, rhs.x) && fe_eq(lhs.y, rhs.y) {
            Ok(())
        } else {
            Err(SchnorrError::InvalidSignature)
        }
    }
}

/// `sig` is the signature of `msg` under `key_pair` with the nonce `k`.
pub open spec fn signed_with<P: RescueParameters>(params: &P, key_pair: (Scalar, Point), msg: Fe, k: Scalar, sig: SchnorrSig) -> bool {
    &&& sig.0.pv() == ladder(generator_spec(), k.val() as nat, SCALAR_NUM_BITS as nat)
    &&& sig.1.val() == (k.val() + (challenge_spec(params, sig.0.x.val(), key_pair.1.x.val(), msg.val()) % scalar_modulus())
        * key_pair.0.val() % scalar_modulus()) % scalar_modulus()
}

/// The Schnorr verifier gate: the Rescue gate for the challenge and the
/// ECC chip for the group equation, with the generator's fixed-base table
/// computed once.
#[derive(Debug)]
pub struct SchnorrVerifierGate {
    pub rescue_hash_gate: RescueCrhfGate,
    pub ecc_gate: EccChip,
    pub generator_table: Vec<[Point; 3]>,
}

impl SchnorrVerifierGate {
    /// The table holds the generator's multiples.
    pub open spec fn wf(&self) -> bool {
        table_of(self.generator_table@, generator_spec())
    }

    pub fn new(main_gate: MainGate) -> (r: SchnorrVerifierGate)
        ensures
            r.wf(),
    {
        let g = generator();
        SchnorrVerifierGate {
            rescue_hash_gate: RescueCrhfGate::new(main_gate),
            ecc_gate: EccChip::new(main_gate),
            generator_table: fixed_base_table(&g),
        }
    }

    /// Assigns a signature: the response as a scalar cell, the announcement
    /// as a witnessed point.
    pub fn assign_sig(&self, ctx: &mut RegionCtx, signature: &SchnorrSig) -> (r: AssignedSchnorrSignature)
        requires
            old(ctx).wf(),
            signature.0.on_curve(),
            signature.1.wf(),
        ensures
            final(ctx).wf(),
            old(ctx).extended_by(final(ctx)),
            r.0.in_region(final(ctx)),
            r.1.0 < final(ctx).cells.len(),
            r.0.pv(final(ctx)) == witness_coords(signature.0.pv()),
            final(ctx).val(r.1.0) == signature.1.val(),
            old(ctx).satisfied() ==> final(ctx).satisfied(),
    {
        let ghost c0 = *ctx;
        let s = self.ecc_gate.witness_scalar_var(ctx, &signature.1);
        let ghost c1 = *ctx;
        let a = self.ecc_gate.witness_point(ctx, &signature.0);
        proof {
            lemma_extended_val(&c1, ctx, s.0);
            lemma_extended_trans(&c0, &c1, ctx);
        }
        (a, s)
    }

    /// Constrains `signature` to verify for `pk` and `msg`: the challenge is
    /// recomputed with the Rescue gate, `[s] G` by fixed-base multiplication,
    /// `R + [c] pk` by variable-base multiplication and addition, and the two
    /// points are constrained equal. Where the region is satisfied, the
    /// equation holds on the values of the cells; conversely, where the
    /// equation holds and every point addition is defined, a satisfied region
    /// stays satisfied.
    #[verifier::rlimit(50)]
    pub fn verify<P: RescueParameters>(&self, ctx: &mut RegionCtx, params: &P, signature: &AssignedSchnorrSignature, pk: &AssignedEccPoint, msg: AssignedValue)
        requires
            self.wf(),
            old(ctx).wf(),
            params.params_wf(),
            signature.0.in_region(old(ctx)),
            signature.1.0 < old(ctx).cells.len(),
            old(ctx).val(signature.1.0) < scalar_modulus(),
            pk.in_region(old(ctx)),
            msg < old(ctx).cells.len(),
        ensures
            final(ctx).wf(),
            old(ctx).extended_by(final(ctx)),
            final(ctx).satisfied() ==> old(ctx).satisfied(),
            final(ctx).satisfied() ==> gate_eq(params, old(ctx).val(msg), pk.pv(old(ctx)), signature.0.pv(old(ctx)), old(ctx).val(signature.1.0)),
            old(ctx).satisfied()
                && gate_defined(params, old(ctx).val(msg), pk.pv(old(ctx)), signature.0.pv(old(ctx)), old(ctx).val(signature.1.0))
                && gate_eq(params, old(ctx).val(msg), pk.pv(old(ctx)), signature.0.pv(old(ctx)), old(ctx).val(signature.1.0))
                ==> final(ctx).satisfied(),
    {
        let ghost c0 = *ctx;
        proof {
            params.lemma_sbox_inverts();
        }
        let inputs = vec![signature.0.x, pk.x, msg];
        let challenge = self.rescue_hash_gate.hash(ctx, params, &inputs);
        proof {
            assert(Seq::new(3, |i: int| c0.val(inputs@[i])) =~= seq![c0.val(signature.0.x), c0.val(pk.x), c0.val(msg)]);
        }
        let ghost c1 = *ctx;
        proof {
            lemma_extended_val(&c0, &c1, signature.1.0);
        }
        let lhs = self.ecc_gate.fixed_mul_with_table(ctx, &signature.1, &self.generator_table, Ghost(generator_spec()));
        let ghost c2 = *ctx;
        proof {
            lemma_extended_trans(&c0, &c1, &c2);
            lemma_extended_val(&c1, &c2, challenge);
            lemma_extended_val(&c0, &c2, pk.x);
            lemma_extended_val(&c0, &c2, pk.y);
        }
        let rhs_1 = self.ecc_gate.mul(ctx, &ScalarVar(challenge), pk);
        let ghost c3 = *ctx;
        proof {
            lemma_extended_trans(&c0, &c2, &c3);
            lemma_extended_val(&c0, &c3, signature.0.x);
            lemma_extended_val(&c0, &c3, signature.0.y);
        }
        let rhs = self.ecc_gate.add(ctx, &signature.0, &rhs_1);
        let ghost c4 = *ctx;
        proof {
            lemma_extended_trans(&c0, &c3, &c4);
            lemma_extended_trans(&c2, &c3, &c4);
            lemma_extended_val(&c2, &c4, lhs.x);
            lemma_extended_val(&c2, &c4, lhs.y);
        }
        self.ecc_gate.constrain_equal(ctx, &lhs, &rhs);
        proof {
            lemma_extended_trans(&c0, &c4, ctx);
            if ctx.satisfied() {
                lemma_satisfied_prefix(&c0, ctx);
            }
        }
    }
}

} // verus!
