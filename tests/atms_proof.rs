use atms_snark::atms_proof::{prove, EdDsaPk, EdDsaSig, MtCommitment};
use atms_snark::curve::{Point, Scalar};
use atms_snark::field::Fe;

#[test]
fn proof_it_works() {
    let pks = [EdDsaPk(Point::identity()); 4];
    let sigs = [EdDsaSig(Point::identity(), Scalar::from_u64(0)); 4];
    let avk = MtCommitment(Fe::one());

    assert!(prove(&pks, &sigs, &avk).is_ok());
}

#[test]
fn lib_it_works() {
    let pks = [EdDsaPk(Point::identity()); 4];
    let sigs = [EdDsaSig(Point::identity(), Scalar::from_u64(0)); 4];
    let avk = MtCommitment(Fe::one());

    assert!(prove(&pks, &sigs, &avk).is_ok());
}

#[test]
fn prove_rejects_unpaired_inputs() {
    let pks = [EdDsaPk(Point::identity()); 4];
    let sigs = [EdDsaSig(Point::identity(), Scalar::from_u64(0)); 3];
    let avk = MtCommitment(Fe::one());

    assert!(prove(&pks, &sigs, &avk).is_err());
}
