//! Verification of Ad-hoc Threshold Multi-Signatures (ATMS) as an
//! arithmetic circuit over the BLS12-381 scalar field.
//!
//! The circuit is a region of assigned cells with constraints laid on them:
//! a universal five-column main gate, the complete-addition gate of the
//! embedded twisted Edwards curve JubJub, the on-curve-or-identity gate, and
//! copy constraints. On top of it stand the ECC chip (point addition,
//! variable- and fixed-base scalar multiplication), the Rescue permutation
//! and sponge, the Schnorr verifier gate and the ATMS verifier gate. The same
//! primitives exist outside the circuit, and the values the circuit computes
//! are proved equal to them.
use vstd::prelude::*;

pub mod field;
pub mod rescue;
pub mod curve;
pub mod region;
pub mod main_gate;
pub mod ecc_chip;
pub mod rescue_gate;
pub mod schnorr;
pub mod atms;
pub mod atms_proof;
pub mod eddsa;

verus! {


} // verus!
