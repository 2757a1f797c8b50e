use atms_snark::curve::{Point, Scalar};
use atms_snark::eddsa::derive_public_key;
use atms_snark::ecc_chip::{AssignedEccPoint, EccChip, MulConfig};
use atms_snark::field::Fe;
use atms_snark::main_gate::MainGate;
use atms_snark::region::RegionCtx;
use ff::Field;
use group::{Curve, Group};
use jubjub::{AffinePoint, ExtendedPoint, Fr, SubgroupPoint};
use rand_chacha::ChaCha8Rng;
use rand_core::SeedableRng;

fn pt(p: &AffinePoint) -> Point {
    Point { x: Fe { bytes: p.get_u().to_bytes() }, y: Fe { bytes: p.get_v().to_bytes() } }
}

fn sc(s: &Fr) -> Scalar {
    Scalar { bytes: s.to_bytes() }
}

fn chip() -> EccChip {
    EccChip::new(MainGate::new())
}

/// Ties the cells of `p` to public values, as an instance column would.
fn constrain_instance(ctx: &mut RegionCtx, p: &AssignedEccPoint, x: Fe, y: Fe) {
    let mg = MainGate::new();
    let xc = mg.assign_value(ctx, x);
    let yc = mg.assign_value(ctx, y);
    mg.assert_equal(ctx, p.x, xc);
    mg.assert_equal(ctx, p.y, yc);
}

fn value_of(ctx: &RegionCtx, p: &AssignedEccPoint) -> (Fe, Fe) {
    (ctx.value(p.x), ctx.value(p.y))
}

fn add_circuit(a: &AffinePoint, b: &AffinePoint) -> (RegionCtx, AssignedEccPoint) {
    let chip = chip();
    let mut ctx = RegionCtx::new();
    let pa = chip.witness_point(&mut ctx, &pt(a));
    let pb = chip.witness_point(&mut ctx, &pt(b));
    let r = chip.add(&mut ctx, &pa, &pb);
    (ctx, r)
}

fn add_satisfied_with(a: &AffinePoint, b: &AffinePoint, pi: &AffinePoint) -> bool {
    let (mut ctx, r) = add_circuit(a, b);
    let p = pt(pi);
    constrain_instance(&mut ctx, &r, p.x, p.y);
    ctx.is_satisfied()
}

#[test]
fn test_ec_addition() {
    let mut rng = ChaCha8Rng::from_seed([0u8; 32]);
    let lhs = ExtendedPoint::random(&mut rng);
    let rhs = ExtendedPoint::random(&mut rng);
    let res = lhs + rhs;

    assert!(add_satisfied_with(&lhs.to_affine(), &rhs.to_affine(), &res.to_affine()));

    let random_result = ExtendedPoint::random(&mut rng);
    assert!(!add_satisfied_with(&lhs.to_affine(), &rhs.to_affine(), &random_result.to_affine()));

    // Addition with equal points
    let res = lhs + lhs;
    assert!(add_satisfied_with(&lhs.to_affine(), &lhs.to_affine(), &res.to_affine()));

    // Addition with zero
    let zero = ExtendedPoint::identity();
    assert!(add_satisfied_with(&zero.to_affine(), &lhs.to_affine(), &lhs.to_affine()));
}

#[test]
fn addition_is_commutative_and_associative() {
    let mut rng = ChaCha8Rng::from_seed([1u8; 32]);
    let p = ExtendedPoint::random(&mut rng).to_affine();
    let q = ExtendedPoint::random(&mut rng).to_affine();
    let s = ExtendedPoint::random(&mut rng).to_affine();
    let chip = chip();
    let mut ctx = RegionCtx::new();
    let cp = chip.witness_point(&mut ctx, &pt(&p));
    let cq = chip.witness_point(&mut ctx, &pt(&q));
    let cs = chip.witness_point(&mut ctx, &pt(&s));
    let pq = chip.add(&mut ctx, &cp, &cq);
    let qp = chip.add(&mut ctx, &cq, &cp);
    assert_eq!(value_of(&ctx, &pq), value_of(&ctx, &qp));
    let pq_s = chip.add(&mut ctx, &pq, &cs);
    let qs = chip.add(&mut ctx, &cq, &cs);
    let p_qs = chip.add(&mut ctx, &cp, &qs);
    assert_eq!(value_of(&ctx, &pq_s), value_of(&ctx, &p_qs));
    let native = pt(&(ExtendedPoint::from(p) + ExtendedPoint::from(q) + ExtendedPoint::from(s)).to_affine());
    assert_eq!(value_of(&ctx, &pq_s), (native.x, native.y));
    assert!(ctx.is_satisfied());
}

#[test]
fn doubling_and_identity_match_native() {
    let mut rng = ChaCha8Rng::from_seed([2u8; 32]);
    let p = ExtendedPoint::random(&mut rng);
    let chip = chip();
    let mg = MainGate::new();
    let mut ctx = RegionCtx::new();
    let cp = chip.witness_point(&mut ctx, &pt(&p.to_affine()));
    let dbl = chip.add(&mut ctx, &cp, &cp);
    let native = pt(&p.double().to_affine());
    assert_eq!(value_of(&ctx, &dbl), (native.x, native.y));
    let id = AssignedEccPoint { x: mg.assign_constant(&mut ctx, Fe::zero()), y: mg.assign_constant(&mut ctx, Fe::one()) };
    let r1 = chip.add(&mut ctx, &id, &cp);
    let r2 = chip.add(&mut ctx, &cp, &id);
    let own = pt(&p.to_affine());
    assert_eq!(value_of(&ctx, &r1), (own.x, own.y));
    assert_eq!(value_of(&ctx, &r2), (own.x, own.y));
    assert!(ctx.is_satisfied());
}

#[test]
fn witness_point_writes_identity_as_zero_pair() {
    let chip = chip();
    let mut ctx = RegionCtx::new();
    let id = chip.witness_point(&mut ctx, &Point::identity());
    assert_eq!(value_of(&ctx, &id), (Fe::zero(), Fe::zero()));
    assert!(id.is_identity(&ctx));
    assert!(ctx.is_satisfied());
    let back = id.point(&ctx);
    assert_eq!((back.x, back.y), (Fe::zero(), Fe::one()));
}

#[test]
fn point_off_the_curve_is_unsatisfiable() {
    let chip = chip();
    let mut ctx = RegionCtx::new();
    let p = chip.witness_point(&mut ctx, &derive_public_key(Scalar::from_u64(1)));
    assert!(ctx.is_satisfied());
    ctx.cells[p.y] = Fe::from_u64(7);
    assert!(!ctx.is_satisfied());
}

fn mul_circuit(point: &AffinePoint, scalar: &Fr) -> (RegionCtx, AssignedEccPoint) {
    let chip = chip();
    let mut ctx = RegionCtx::new();
    let s = chip.witness_scalar_var(&mut ctx, &sc(scalar));
    let p = chip.witness_point(&mut ctx, &pt(point));
    let r = chip.mul(&mut ctx, &s, &p);
    (ctx, r)
}

fn mul_satisfied_with(point: &AffinePoint, scalar: &Fr, x: Fe, y: Fe) -> bool {
    let (mut ctx, r) = mul_circuit(point, scalar);
    constrain_instance(&mut ctx, &r, x, y);
    ctx.is_satisfied()
}

#[test]
fn test_ec_mul() {
    let mut rng = ChaCha8Rng::from_seed([0u8; 32]);
    let point = ExtendedPoint::random(&mut rng);
    let scalar = Fr::random(&mut rng);
    let res = pt(&(point * scalar).to_affine());

    assert!(mul_satisfied_with(&point.to_affine(), &scalar, res.x, res.y));

    let random_result = pt(&ExtendedPoint::random(&mut rng).to_affine());
    assert!(!mul_satisfied_with(&point.to_affine(), &scalar, random_result.x, random_result.y));

    // mult by one
    let own = pt(&point.to_affine());
    assert!(mul_satisfied_with(&point.to_affine(), &Fr::one(), own.x, own.y));

    // mult by zero
    assert!(mul_satisfied_with(&point.to_affine(), &Fr::zero(), Fe::zero(), Fe::one()));
}

#[test]
fn mul_by_largest_scalar_matches_native() {
    let mut rng = ChaCha8Rng::from_seed([3u8; 32]);
    let point = ExtendedPoint::random(&mut rng);
    let scalar = Fr::zero() - Fr::one();
    let res = pt(&(point * scalar).to_affine());
    let (ctx, r) = mul_circuit(&point.to_affine(), &scalar);
    assert_eq!(value_of(&ctx, &r), (res.x, res.y));
    assert!(ctx.is_satisfied());
}

fn fixed_circuit(scalar: &Fr) -> (RegionCtx, AssignedEccPoint) {
    let chip = chip();
    let mut ctx = RegionCtx::new();
    let s = chip.witness_scalar_var(&mut ctx, &sc(scalar));
    let g = pt(&ExtendedPoint::from(SubgroupPoint::generator()).to_affine());
    let r = chip.fixed_mul(&mut ctx, &s, &g);
    (ctx, r)
}

fn fixed_satisfied_with(scalar: &Fr, x: Fe, y: Fe) -> bool {
    let (mut ctx, r) = fixed_circuit(scalar);
    constrain_instance(&mut ctx, &r, x, y);
    ctx.is_satisfied()
}

#[test]
fn test_ec_fixed_mul() {
    let mut rng = ChaCha8Rng::from_seed([0u8; 32]);
    let point = ExtendedPoint::from(SubgroupPoint::generator());
    let scalar = Fr::random(&mut rng);
    let res = pt(&(point * scalar).to_affine());

    assert!(fixed_satisfied_with(&scalar, res.x, res.y));

    let random_result = pt(&ExtendedPoint::random(&mut rng).to_affine());
    assert!(!fixed_satisfied_with(&scalar, random_result.x, random_result.y));

    // mult by one
    let own = pt(&point.to_affine());
    assert!(fixed_satisfied_with(&Fr::one(), own.x, own.y));

    // mult by zero
    assert!(fixed_satisfied_with(&Fr::zero(), Fe::zero(), Fe::one()));
}

#[test]
fn fixed_mul_by_largest_scalar_matches_native() {
    let scalar = Fr::zero() - Fr::one();
    let point = ExtendedPoint::from(SubgroupPoint::generator());
    let res = pt(&(point * scalar).to_affine());
    let (ctx, r) = fixed_circuit(&scalar);
    assert_eq!(value_of(&ctx, &r), (res.x, res.y));
    assert!(ctx.is_satisfied());
}

#[test]
fn generator_is_jubjub_subgroup_generator() {
    let g = derive_public_key(Scalar::from_u64(1));
    let expected = pt(&ExtendedPoint::from(SubgroupPoint::generator()).to_affine());
    assert_eq!((g.x, g.y), (expected.x, expected.y));
    assert_ne!(g.y, Fe::one());
}

#[test]
fn mul_config_columns() {
    let c = MulConfig { x_p: 0, y_p: 1, a: 2, x_r: 3, y_r: 4 };
    assert_eq!(c.advice_columns(), vec![0, 1, 2]);
    assert_eq!(c.output_columns(), vec![3, 4]);
    let shared = MulConfig { x_p: 5, y_p: 5, a: 6, x_r: 7, y_r: 7 };
    assert_eq!(shared.advice_columns(), vec![5, 6]);
    assert_eq!(shared.output_columns(), vec![7]);
}

#[test]
fn adding_a_witnessed_identity_gives_the_point() {
    let mut rng = ChaCha8Rng::from_seed([4u8; 32]);
    let p = ExtendedPoint::random(&mut rng).to_affine();
    let chip = chip();
    let mut ctx = RegionCtx::new();
    let id = chip.witness_point(&mut ctx, &pt(&AffinePoint::identity()));
    assert_eq!(value_of(&ctx, &id), (Fe::zero(), Fe::zero()));
    let cp = chip.witness_point(&mut ctx, &pt(&p));
    let r1 = chip.add(&mut ctx, &id, &cp);
    let r2 = chip.add(&mut ctx, &cp, &id);
    let own = pt(&p);
    assert_eq!(value_of(&ctx, &r1), (own.x, own.y));
    assert_eq!(value_of(&ctx, &r2), (own.x, own.y));
    // identity plus identity is the neutral element (0, 1)
    let r3 = chip.add(&mut ctx, &id, &id);
    assert_eq!(value_of(&ctx, &r3), (Fe::zero(), Fe::one()));
    assert!(ctx.is_satisfied());
}

#[test]
fn mul_of_a_witnessed_identity_is_neutral() {
    let mut rng = ChaCha8Rng::from_seed([8u8; 32]);
    let scalar = Fr::random(&mut rng);
    let (ctx, r) = mul_circuit(&AffinePoint::identity(), &scalar);
    assert_eq!(value_of(&ctx, &r), (Fe::zero(), Fe::one()));
    assert!(ctx.is_satisfied());
}

#[test]
fn normalize_maps_zero_pair_to_neutral_and_keeps_points() {
    let mut rng = ChaCha8Rng::from_seed([10u8; 32]);
    let p = pt(&ExtendedPoint::random(&mut rng).to_affine());
    let chip = chip();
    let mut ctx = RegionCtx::new();
    let id = chip.witness_point(&mut ctx, &Point::identity());
    let cp = chip.witness_point(&mut ctx, &p);
    let n1 = chip.normalize(&mut ctx, &id);
    let n2 = chip.normalize(&mut ctx, &cp);
    assert_eq!(value_of(&ctx, &n1), (Fe::zero(), Fe::one()));
    assert_eq!(value_of(&ctx, &n2), (p.x, p.y));
    assert!(ctx.is_satisfied());
    ctx.cells[n1.y] = Fe::zero();
    assert!(!ctx.is_satisfied());
}
