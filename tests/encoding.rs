use atms_snark::curve::{decode_point, encode_point, Point, Scalar};
use atms_snark::eddsa::{derive_public_key, announce, bytes_to_bls_scalar, challenge_inputs, jubjub_scalar_from_bls, respond, verify_with_hash};
use atms_snark::field::Fe;
use group::{Curve, Group};
use jubjub::{AffinePoint, ExtendedPoint, SubgroupPoint};
use rand_chacha::ChaCha8Rng;
use rand_core::SeedableRng;
use sha2::Digest;

fn pt(p: &AffinePoint) -> Point {
    Point { x: Fe { bytes: p.get_u().to_bytes() }, y: Fe { bytes: p.get_v().to_bytes() } }
}

#[test]
fn public_key_round_trip() {
    let mut rng = ChaCha8Rng::from_seed([9u8; 32]);
    for _ in 0..8 {
        let p = ExtendedPoint::from(SubgroupPoint::random(&mut rng)).to_affine();
        let bytes = encode_point(&pt(&p));
        assert_eq!(bytes, p.to_bytes());
        let back = decode_point(bytes).unwrap();
        assert_eq!((back.x, back.y), (pt(&p).x, pt(&p).y));
    }
    let g = derive_public_key(Scalar::from_u64(1));
    let back = decode_point(encode_point(&g)).unwrap();
    assert_eq!((back.x, back.y), (g.x, g.y));
    let id = Point::identity();
    let back = decode_point(encode_point(&id)).unwrap();
    assert_eq!((back.x, back.y), (Fe::zero(), Fe::one()));
}

#[test]
fn decoding_invalid_bytes_fails() {
    // y at or above the modulus
    assert!(decode_point([0xff; 32]).is_none());
    // y = 2 is the y of no point of the curve
    let mut b = [0u8; 32];
    b[0] = 2;
    assert!(decode_point(b).is_none());
    // x = 0 with the sign bit set is not canonical
    let mut b = [0u8; 32];
    b[0] = 1;
    b[31] = 0x80;
    assert!(decode_point(b).is_none());
}

#[test]
fn decoding_refuses_points_outside_the_subgroup() {
    // (0, -1) is a point of the curve of order two
    let minus_one = bls12_381::Scalar::zero() - bls12_381::Scalar::one();
    let p = AffinePoint::from_raw_unchecked(bls12_381::Scalar::zero(), minus_one);
    let bytes = p.to_bytes();
    assert!(bool::from(AffinePoint::from_bytes(bytes).is_some()));
    assert!(decode_point(bytes).is_none());
    // a random point of the curve is almost never in the subgroup
    let mut rng = ChaCha8Rng::from_seed([11u8; 32]);
    let q = ExtendedPoint::random(&mut rng);
    if !bool::from(q.is_torsion_free()) {
        assert!(decode_point(q.to_affine().to_bytes()).is_none());
    }
}

#[test]
fn field_and_scalar_encodings() {
    let mut b = [0u8; 32];
    b[0] = 42;
    assert_eq!(Fe::from_bytes(b).unwrap(), Fe::from_u64(42));
    assert!(Fe::from_bytes([0xff; 32]).is_none());
    assert_eq!(Fe::from_u64(7).to_bytes()[0], 7);
    assert!(Scalar::from_bytes([0xff; 32]).is_none());
    assert_eq!(Scalar::from_bytes(b).unwrap().to_bytes(), b);
    assert_eq!(Scalar::from_u64(42).to_bytes(), b);
}

#[test]
fn message_digest_is_wide_sha512() {
    let msg = "Alice has a cat".as_bytes().to_vec();
    let digest = sha2::Sha512::digest(&msg);
    let mut wide = [0u8; 64];
    wide.copy_from_slice(&digest);
    let expected = bls12_381::Scalar::from_bytes_wide(&wide).to_bytes();
    assert_eq!(bytes_to_bls_scalar(&msg).to_bytes(), expected);
    assert_ne!(bytes_to_bls_scalar(&msg), bytes_to_bls_scalar(&"Bob has a cat".as_bytes().to_vec()));
}

#[test]
fn private_key_is_read_by_wide_reduction() {
    let mut wide = [0u8; 64];
    for (i, b) in wide.iter_mut().enumerate() {
        *b = (i as u8).wrapping_mul(37).wrapping_add(11);
    }
    let expected = jubjub::Fr::from_bytes_wide(&wide).to_bytes();
    assert_eq!(Scalar::from_bytes_wide(wide).to_bytes(), expected);
    assert_ne!(&Scalar::from_bytes_wide(wide).to_bytes()[..], &wide[..32]);
}

#[test]
fn base_element_reduces_into_scalars() {
    let h = Fe::from_bytes([0x70; 32]).unwrap();
    let mut wide = [0u8; 64];
    wide[..32].copy_from_slice(&h.to_bytes());
    let expected = jubjub::Fr::from_bytes_wide(&wide).to_bytes();
    let got = jubjub_scalar_from_bls(h).to_bytes();
    assert_eq!(got, expected);
    assert_ne!(got, h.to_bytes());
}

#[test]
fn eddsa_with_challenge_hash() {
    let msg = "Alice has a cat".as_bytes().to_vec();
    let prv = Scalar::from_u64(987654321);
    let nonce = Scalar::from_u64(123456789);
    let (r, pk) = announce(nonce, prv);
    let inputs = challenge_inputs(&r, &pk, &msg);
    assert_eq!(inputs.len(), 3);
    assert_eq!(inputs[2], bytes_to_bls_scalar(&msg));
    // any element may stand for the challenge hash of the three inputs
    let h = Fe::from_bytes([0x33; 32]).unwrap();
    let s = respond(nonce, prv, h);
    assert!(verify_with_hash((r, s), pk, h).is_ok());
    let other_h = Fe::from_u64(5);
    assert!(verify_with_hash((r, s), pk, other_h).is_err());
    let (_, other_pk) = announce(nonce, Scalar::from_u64(5));
    assert!(verify_with_hash((r, s), other_pk, h).is_err());
}
