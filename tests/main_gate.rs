use atms_snark::field::Fe;
use atms_snark::main_gate::{ColumnTags, MainGate, MainGateColumn};
use atms_snark::region::{Gate, MainGateCoeffs, RegionCtx};

#[test]
fn column_tags() {
    assert_eq!(MainGateColumn::first(), MainGateColumn::A);
    assert_eq!(MainGateColumn::next(), MainGateColumn::E);
    assert_eq!(MainGateColumn::last_term_index(), 0);
    assert_eq!(MainGateColumn::D.index(), 3);
}

#[test]
fn to_bits_decomposes_and_constrains() {
    let mg = MainGate::new();
    let mut ctx = RegionCtx::new();
    let a = mg.assign_value(&mut ctx, Fe::from_u64(0b1011_0110));
    let bits = mg.to_bits(&mut ctx, a, 8);
    let got: Vec<Fe> = bits.iter().map(|&b| ctx.value(b)).collect();
    let expected: Vec<Fe> = [0u64, 1, 1, 0, 1, 1, 0, 1].iter().map(|&b| Fe::from_u64(b)).collect();
    assert_eq!(got, expected);
    assert!(ctx.is_satisfied());
    // a bit that is not a bit breaks the booleanity row
    ctx.cells[bits[0]] = Fe::from_u64(2);
    assert!(!ctx.is_satisfied());
}

#[test]
fn to_bits_of_zero_and_of_the_largest_value() {
    let mg = MainGate::new();
    let mut ctx = RegionCtx::new();
    let z = mg.assign_value(&mut ctx, Fe::zero());
    let bits = mg.to_bits(&mut ctx, z, 1);
    assert_eq!(ctx.value(bits[0]), Fe::zero());
    let m = mg.assign_value(&mut ctx, Fe::from_u64(u64::MAX));
    let bits = mg.to_bits(&mut ctx, m, 64);
    assert!(bits.iter().all(|&b| ctx.value(b) == Fe::one()));
    assert!(ctx.is_satisfied());
}

#[test]
fn constants_and_equalities() {
    let mg = MainGate::new();
    let mut ctx = RegionCtx::new();
    let k = mg.assign_constant(&mut ctx, Fe::from_u64(5));
    let s = mg.add_constant(&mut ctx, k, Fe::from_u64(3));
    assert_eq!(ctx.value(s), Fe::from_u64(8));
    let one = mg.assign_constant(&mut ctx, Fe::one());
    mg.assert_one(&mut ctx, one);
    mg.assert_bit(&mut ctx, one);
    assert!(ctx.is_satisfied());
    let e = mg.assign_value(&mut ctx, Fe::from_u64(8));
    mg.assert_equal(&mut ctx, s, e);
    assert!(ctx.is_satisfied());
    mg.assert_one(&mut ctx, s);
    assert!(!ctx.is_satisfied());
}

#[test]
fn main_gate_row_with_fifth_power() {
    // a^5 - e = 0 with a = 3, e = 243
    let mut ctx = RegionCtx::new();
    let mg = MainGate::new();
    let a = mg.assign_value(&mut ctx, Fe::from_u64(3));
    let e = mg.assign_value(&mut ctx, Fe::from_u64(243));
    let mut q = MainGateCoeffs::zero();
    q.q_h1 = Fe::one();
    q.se = atms_snark::main_gate::minus_one();
    mg.apply(&mut ctx, q, a, a, a, a, e, e);
    assert!(ctx.is_satisfied());
    ctx.enable(Gate::Equal { l: a, r: e });
    assert!(!ctx.is_satisfied());
}

#[test]
fn select_picks_by_the_bit() {
    let mg = MainGate::new();
    let mut ctx = RegionCtx::new();
    let a = mg.assign_value(&mut ctx, Fe::from_u64(11));
    let b = mg.assign_value(&mut ctx, Fe::from_u64(22));
    let one = mg.assign_constant(&mut ctx, Fe::one());
    let zero = mg.assign_constant(&mut ctx, Fe::zero());
    let s1 = mg.select(&mut ctx, a, b, one);
    let s0 = mg.select(&mut ctx, a, b, zero);
    assert_eq!(ctx.value(s1), Fe::from_u64(11));
    assert_eq!(ctx.value(s0), Fe::from_u64(22));
    assert!(ctx.is_satisfied());
    ctx.cells[s1] = Fe::from_u64(22);
    assert!(!ctx.is_satisfied());
}

#[test]
fn assert_zero_holds_only_on_zero() {
    let mg = MainGate::new();
    let mut ctx = RegionCtx::new();
    let z = mg.assign_value(&mut ctx, Fe::zero());
    mg.assert_zero(&mut ctx, z);
    assert!(ctx.is_satisfied());
    let n = mg.assign_value(&mut ctx, Fe::from_u64(3));
    mg.assert_zero(&mut ctx, n);
    assert!(!ctx.is_satisfied());
}
