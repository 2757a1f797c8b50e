//! The entry point for an ATMS proof over a roster of public keys and their
//! signatures. Proof generation proper is not performed here: the entry
//! point checks that the inputs pair up.
use vstd::prelude::*;
use crate::field::Fe;
use crate::curve::{Point, Scalar};

verus! {

/// An EdDSA public key: a point of the prime-order subgroup.
#[derive(Clone, Copy, Debug)]
pub struct EdDsaPk(pub Point);

/// An EdDSA signature: a point of the subgroup and a scalar.
#[derive(Clone, Copy, Debug)]
pub struct EdDsaSig(pub Point, pub Scalar);

/// A commitment to the roster of public keys: one field element.
#[derive(Clone, Copy, Debug)]
pub struct MtCommitment(pub Fe);

/// A proof.
pub type PlonkProof = ();

/// Creates a proof for an ATMS statement from the roster's keys, their
/// signatures and the roster's commitment. It succeeds exactly when there
/// is one signature per key.
pub fn prove(pks: &[EdDsaPk], sigs: &[EdDsaSig], _avk: &MtCommitment) -> (r: Result<PlonkProof, ()>)
    ensures
        r is Ok <==> pks@.len() == sigs@.len(),
{
    if pks.len() == sigs.len() {
        Ok(())
    } else {
        Err(())
    }
}

} // verus!
