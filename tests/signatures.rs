use atms_snark::atms::AtmsVerifierGate;
use atms_snark::curve::{Point, Scalar};
use atms_snark::ecc_chip::AssignedEccPoint;
use atms_snark::field::Fe;
use atms_snark::main_gate::MainGate;
use atms_snark::region::RegionCtx;
use atms_snark::rescue::{RescueConstants, RescueSponge};
use atms_snark::schnorr::{AssignedSchnorrSignature, Schnorr, SchnorrError, SchnorrSig, SchnorrVerifierGate};
use ff::Field;
use group::{Curve, Group};
use jubjub::{AffinePoint, ExtendedPoint, Fr};
use rand::seq::IteratorRandom;
use rand_chacha::ChaCha8Rng;
use rand_core::SeedableRng;

fn fe(n: u64) -> Fe {
    Fe::from_u64(n)
}

fn params() -> RescueConstants {
    let mut mds = [[fe(0); 4]; 4];
    for i in 0..4 {
        for j in 0..4 {
            mds[i][j] = fe((i + 2 * j + 3) as u64);
        }
    }
    let rc = (0..25u64).map(|k| [fe(7 * k + 1), fe(7 * k + 2), fe(7 * k + 3), fe(7 * k + 4)]).collect();
    let ki = (0..25u64).map(|k| [fe(11 * k + 5), fe(11 * k + 8), fe(11 * k + 11), fe(11 * k + 14)]).collect();
    RescueConstants {
        a_inv: [0x33333332cccccccd, 0x217f0e679998f199, 0xe14a56699d73f002, 0x2e5f0fbadd72321c],
        mds,
        round_constants: rc,
        key_injection: ki,
    }
}

fn random_fe(rng: &mut ChaCha8Rng) -> Fe {
    Fe { bytes: bls12_381::Scalar::random(rng).to_bytes() }
}

fn pt(p: &AffinePoint) -> Point {
    Point { x: Fe { bytes: p.get_u().to_bytes() }, y: Fe { bytes: p.get_v().to_bytes() } }
}

fn random_point(rng: &mut ChaCha8Rng) -> Point {
    pt(&ExtendedPoint::random(rng).to_affine())
}

fn add_one(s: &Scalar) -> Scalar {
    let v = Fr::from_bytes(&s.bytes).unwrap() + Fr::one();
    Scalar { bytes: v.to_bytes() }
}

fn flip_bit(f: &Fe) -> Fe {
    let mut b = f.bytes;
    b[0] ^= 1;
    Fe::from_bytes(b).unwrap()
}

#[test]
fn schnorr_primitive() {
    let p = params();
    let mut rng = ChaCha8Rng::from_seed([0u8; 32]);
    let msg = random_fe(&mut rng);

    let (sk, pk) = Schnorr::keygen();
    let sig = Schnorr::sign(&p, (sk, pk), msg);

    assert!(Schnorr::verify(&p, msg, pk, sig).is_ok());

    let fake_msg = random_fe(&mut rng);
    assert!(Schnorr::verify(&p, fake_msg, pk, sig).is_err());

    let fake_pk = random_point(&mut rng);
    assert!(Schnorr::verify(&p, msg, fake_pk, sig).is_err());
}

#[test]
fn schnorr_native_rejects_tampering() {
    let p = params();
    let mut rng = ChaCha8Rng::from_seed([5u8; 32]);
    let msg = random_fe(&mut rng);
    let (sk, pk) = Schnorr::keygen();
    let sig = Schnorr::sign(&p, (sk, pk), msg);
    assert_eq!(Schnorr::verify(&p, msg, pk, sig), Ok(()));
    for byte in [0usize, 7, 31] {
        let mut b = msg.bytes;
        b[byte] ^= 0x10;
        let tampered = Fe::from_bytes(b).unwrap();
        assert_eq!(Schnorr::verify(&p, tampered, pk, sig), Err(SchnorrError::InvalidSignature));
    }
    let (_, other_pk) = Schnorr::keygen();
    assert!(Schnorr::verify(&p, msg, other_pk, sig).is_err());
    assert!(Schnorr::verify(&p, msg, pk, (sig.0, add_one(&sig.1))).is_err());
}

#[test]
fn schnorr_sign_with_nonce_is_deterministic() {
    let p = params();
    let (sk, pk) = Schnorr::keygen();
    let k = Scalar::from_u64(12345);
    let a = Schnorr::sign_with_nonce(&p, (sk, pk), fe(9), k);
    let b = Schnorr::sign_with_nonce(&p, (sk, pk), fe(9), k);
    assert_eq!((a.0.x, a.0.y, a.1.bytes), (b.0.x, b.0.y, b.1.bytes));
    assert!(Schnorr::verify(&p, fe(9), pk, a).is_ok());
}

/// Builds the Schnorr verifier circuit; the key's coordinates and the
/// message are tied to public values.
fn schnorr_circuit(p: &RescueConstants, sig: &SchnorrSig, pk: &Point, msg: Fe, pi: (Fe, Fe, Fe)) -> bool {
    let gate = SchnorrVerifierGate::new(MainGate::new());
    let mg = MainGate::new();
    let mut ctx = RegionCtx::new();
    let assigned_sig = gate.assign_sig(&mut ctx, sig);
    let assigned_msg = mg.assign_value(&mut ctx, msg);
    let assigned_pk = gate.ecc_gate.witness_point(&mut ctx, pk);
    gate.verify(&mut ctx, p, &assigned_sig, &assigned_pk, assigned_msg);
    let x = mg.assign_value(&mut ctx, pi.0);
    let y = mg.assign_value(&mut ctx, pi.1);
    let m = mg.assign_value(&mut ctx, pi.2);
    mg.assert_equal(&mut ctx, assigned_pk.x, x);
    mg.assert_equal(&mut ctx, assigned_pk.y, y);
    mg.assert_equal(&mut ctx, assigned_msg, m);
    ctx.is_satisfied()
}

#[test]
fn schnorr_signature() {
    let p = params();
    let mut rng = ChaCha8Rng::from_seed([0u8; 32]);
    let (sk, pk) = Schnorr::keygen();
    let msg = random_fe(&mut rng);

    let signature = Schnorr::sign(&p, (sk, pk), msg);

    assert!(schnorr_circuit(&p, &signature, &pk, msg, (pk.x, pk.y, msg)));

    // a different message as public input
    let msg_fake = random_fe(&mut rng);
    assert!(!schnorr_circuit(&p, &signature, &pk, msg, (pk.x, pk.y, msg_fake)));

    // a different key as public input
    let pk_fake = random_point(&mut rng);
    assert!(!schnorr_circuit(&p, &signature, &pk, msg, (pk_fake.x, pk_fake.y, msg)));
}

#[test]
fn schnorr_gate_rejects_tampered_witness() {
    let p = params();
    let mut rng = ChaCha8Rng::from_seed([6u8; 32]);
    let (sk, pk) = Schnorr::keygen();
    let msg = random_fe(&mut rng);
    let sig = Schnorr::sign(&p, (sk, pk), msg);
    assert!(schnorr_circuit(&p, &sig, &pk, msg, (pk.x, pk.y, msg)));
    let flipped = flip_bit(&msg);
    assert!(!schnorr_circuit(&p, &sig, &pk, flipped, (pk.x, pk.y, flipped)));
    let (_, other) = Schnorr::keygen();
    assert!(!schnorr_circuit(&p, &sig, &other, msg, (other.x, other.y, msg)));
    let perturbed = (sig.0, add_one(&sig.1));
    assert!(!schnorr_circuit(&p, &perturbed, &pk, msg, (pk.x, pk.y, msg)));
}

/// Builds the ATMS verifier circuit with the commitment, message and
/// threshold tied to public values.
fn atms_circuit(p: &RescueConstants, signatures: &[Option<SchnorrSig>], pks: &[Point], pks_comm: Fe, msg: Fe, threshold: Fe) -> bool {
    let atms_gate = AtmsVerifierGate::new(MainGate::new());
    let mg = MainGate::new();
    let mut ctx = RegionCtx::new();
    let assigned_sigs: Vec<Option<AssignedSchnorrSignature>> = signatures
        .iter()
        .map(|s| s.as_ref().map(|sig| atms_gate.schnorr_gate.assign_sig(&mut ctx, sig)))
        .collect();
    let assigned_pks: Vec<AssignedEccPoint> = pks.iter().map(|pk| atms_gate.schnorr_gate.ecc_gate.witness_point(&mut ctx, pk)).collect();
    let pi_cells = mg.assign_values_slice(&mut ctx, &vec![pks_comm, msg, threshold]);
    atms_gate.verify(&mut ctx, p, &assigned_sigs, &assigned_pks, pi_cells[0], pi_cells[1], pi_cells[2]);
    ctx.is_satisfied()
}

fn roster(n: usize) -> Vec<(Scalar, Point)> {
    (0..n).map(|_| Schnorr::keygen()).collect()
}

fn commitment(p: &RescueConstants, keys: &[(Scalar, Point)]) -> Fe {
    let xs: Vec<Fe> = keys.iter().map(|(_, pk)| pk.x).collect();
    RescueSponge::hash(p, &xs, None)
}

#[test]
fn atms_signature() {
    const NUM_PARTIES: usize = 102;
    const THRESHOLD: usize = 72;

    let p = params();
    let mut rng = ChaCha8Rng::from_seed([0u8; 32]);
    let msg = random_fe(&mut rng);

    let keypairs = roster(NUM_PARTIES);
    let pks: Vec<Point> = keypairs.iter().map(|(_, pk)| *pk).collect();
    let pks_comm = commitment(&p, &keypairs);

    let signing_parties = (0..NUM_PARTIES).choose_multiple(&mut rng, THRESHOLD);
    let signatures: Vec<Option<SchnorrSig>> = (0..NUM_PARTIES)
        .map(|index| {
            if signing_parties.contains(&index) {
                Some(Schnorr::sign(&p, keypairs[index], msg))
            } else {
                None
            }
        })
        .collect();

    assert!(atms_circuit(&p, &signatures, &pks, pks_comm, msg, fe(THRESHOLD as u64)));
}

#[test]
fn atms_roster_of_four() {
    let p = params();
    let mut rng = ChaCha8Rng::from_seed([7u8; 32]);
    let msg = random_fe(&mut rng);
    let keypairs = roster(4);
    let pks: Vec<Point> = keypairs.iter().map(|(_, pk)| *pk).collect();
    let comm = commitment(&p, &keypairs);
    let sign = |i: usize| Schnorr::sign(&p, keypairs[i], msg);

    // signatures at 0, 1, 2 and none at 3: threshold 3 is met exactly
    let three = vec![Some(sign(0)), Some(sign(1)), Some(sign(2)), None];
    assert!(atms_circuit(&p, &three, &pks, comm, msg, fe(3)));
    // the count must equal the threshold, not exceed it
    assert!(!atms_circuit(&p, &three, &pks, comm, msg, fe(2)));

    // only two signatures present, threshold still 3
    let two = vec![Some(sign(0)), None, Some(sign(2)), None];
    assert!(!atms_circuit(&p, &two, &pks, comm, msg, fe(3)));

    // an invalid signature at a present slot
    let bad = sign(1);
    let injected = vec![Some(sign(0)), Some((bad.0, add_one(&bad.1))), Some(sign(2)), None];
    assert!(!atms_circuit(&p, &injected, &pks, comm, msg, fe(3)));

    // a commitment to another roster
    let mut other = pks.clone();
    other.swap(0, 1);
    assert!(!atms_circuit(&p, &three, &other, comm, msg, fe(3)));
}
