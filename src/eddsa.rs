//! EdDSA over the prime-order subgroup of the curve, the variant whose
//! challenge hashes `R.x`, `pk.x` and a wide SHA-512 digest of the message.
//! This is a scheme of its own, distinct from the Schnorr signatures whose
//! challenge is the Rescue sponge. The challenge hash of the three elements
//! is computed by the caller; everything around it is here.
use vstd::prelude::*;
use crate::field::{Fe, bytes_val, modulus, fe_eq};
use crate::curve::{
    Point, Scalar, SCALAR_NUM_BITS, edwards_add, ladder, scalar_modulus, generator, generator_spec,
    native_add, native_mul, scalar_add, scalar_mul, scalar_from_base,
};

verus! {

/// The SHA-512 digest of a byte string.
pub uninterp spec fn sha512_of(m: Seq<u8>) -> Seq<u8>;

/// Relies on `sha2::Sha512::digest`: the 64-byte SHA-512 digest of the message.
#[verifier::external_body]
fn sha512(m: &Vec<u8>) -> (r: [u8; 64])
    ensures
        r@ == sha512_of(m@),
{
    let mut r = [0u8; 64];
    r.copy_from_slice(&<sha2::Sha512 as sha2::Digest>::digest(m));
    r
}

/// Relies on `bls12_381::Scalar::from_bytes_wide`: the 64 little-endian
/// bytes reduced modulo `p`.
#[verifier::external_body]
fn fe_from_bytes_wide(b: [u8; 64]) -> (r: Fe)
    ensures
        r.wf(),
        r.val() == (bytes_val(b@) as int) % modulus(),
{
    Fe { bytes: bls12_381::Scalar::from_bytes_wide(&b).to_bytes() }
}

/// The message as a field element: its SHA-512 digest reduced modulo `p`.
pub fn bytes_to_bls_scalar(msg: &Vec<u8>) -> (r: Fe)
    ensures
        r.wf(),
        r.val() == (bytes_val(sha512_of(msg@)) as int) % modulus(),
{
    fe_from_bytes_wide(sha512(msg))
}

/// A field element as a scalar: its 32 bytes, widened with zeros and
/// reduced modulo `r`.
pub fn jubjub_scalar_from_bls(h: Fe) -> (r: Scalar)
    requires
        h.wf(),
    ensures
        r.wf(),
        r.val() == h.val() % scalar_modulus(),
{
    scalar_from_base(h)
}

/// The three elements that the challenge hashes: `R.x`, `pk.x` and the
/// message's digest.
pub fn challenge_inputs(r: &Point, pub_key: &Point, msg: &Vec<u8>) -> (c: Vec<Fe>)
    requires
        r.wf(),
        pub_key.wf(),
    ensures
        c.len() == 3,
        c@[0] == r.x,
        c@[1] == pub_key.x,
        c@[2].wf(),
        c@[2].val() == (bytes_val(sha512_of(msg@)) as int) % modulus(),
{
    vec![r.x, pub_key.x, bytes_to_bls_scalar(msg)]
}

/// The public key `[prv_key] G` of a private key.
pub fn derive_public_key(prv_key: Scalar) -> (r: Point)
    requires
        prv_key.wf(),
    ensures
        r.on_curve(),
        r.pv() == ladder(generator_spec(), prv_key.val() as nat, SCALAR_NUM_BITS as nat),
{
    native_mul(generator(), prv_key)
}

/// The announcement `R = [nonce] G` and the public key `[prv_key] G` of a
/// signature under way.
pub fn announce(nonce: Scalar, prv_key: Scalar) -> (r: (Point, Point))
    requires
        nonce.wf(),
        prv_key.wf(),
    ensures
        r.0.on_curve(),
        r.1.on_curve(),
        r.0.pv() == ladder(generator_spec(), nonce.val() as nat, SCALAR_NUM_BITS as nat),
        r.1.pv() == ladder(generator_spec(), prv_key.val() as nat, SCALAR_NUM_BITS as nat),
{
    (derive_public_key(nonce), derive_public_key(prv_key))
}

/// The response `s = nonce + h prv_key` for the challenge hash `h`, reduced
/// into the scalars.
pub fn respond(nonce: Scalar, prv_key: Scalar, h: Fe) -> (s: Scalar)
    requires
        nonce.wf(),
        prv_key.wf(),
        h.wf(),
    ensures
        s.wf(),
        s.val() == (nonce.val() + ((h.val() % scalar_modulus()) * prv_key.val()) % scalar_modulus()) % scalar_modulus(),
{
    let hs = jubjub_scalar_from_bls(h);
    scalar_add(nonce, scalar_mul(hs, prv_key))
}

/// Verifies a signature `(R, s)` for the challenge hash `h`:
/// `[s] G = R + [h mod r] pk`.
pub fn verify_with_hash(sig: (Point, Scalar), pub_key: Point, h: Fe) -> (r: Result<(), ()>)
    requires
        sig.0.on_curve(),
        sig.1.wf(),
        pub_key.on_curve(),
        h.wf(),
    ensures
        r is Ok <==> ladder(generator_spec(), sig.1.val() as nat, SCALAR_NUM_BITS as nat)
            == edwards_add(sig.0.pv(), ladder(pub_key.pv(), (h.val() % scalar_modulus()) as nat, SCALAR_NUM_BITS as nat)),
{
    let hs = jubjub_scalar_from_bls(h);
    let p1 = native_mul(generator(), sig.1);
    let p2 = native_add(sig.0, native_mul(pub_key, hs));
    if fe_eq(p1.x, p2.x) && fe_eq(p1.y, p2.y) {
        Ok(())
    } else {
        Err(())
    }
}

} // verus!
