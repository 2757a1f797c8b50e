use atms_snark::field::Fe;
use atms_snark::main_gate::MainGate;
use atms_snark::region::RegionCtx;
use atms_snark::rescue::{
    PseudoRandomPermutation, RescueBlockCipher, RescueConstants, RescuePRP, RescueParameters, RescueSponge, RescueState,
};
use atms_snark::rescue_gate::RescueCrhfGate;

fn fe(n: u64) -> Fe {
    Fe::from_u64(n)
}

fn fe_hex(h: &str) -> Fe {
    let h = h.trim_start_matches("0x");
    let padded = format!("{:0>64}", h);
    let mut b = [0u8; 32];
    for i in 0..32 {
        b[31 - i] = u8::from_str_radix(&padded[2 * i..2 * i + 2], 16).unwrap();
    }
    Fe::from_bytes(b).unwrap()
}

/// A parameter set for the tests: the inverse exponent of the BLS12-381
/// scalar field, a small matrix and small constants.
fn params() -> RescueConstants {
    let mut mds = [[fe(0); 4]; 4];
    for i in 0..4 {
        for j in 0..4 {
            mds[i][j] = fe((i + 2 * j + 3) as u64);
        }
    }
    let rc = (0..25u64).map(|k| [fe(7 * k + 1), fe(7 * k + 2), fe(7 * k + 3), fe(7 * k + 4)]).collect();
    let ki = (0..25u64).map(|k| [fe(11 * k + 5), fe(11 * k + 8), fe(11 * k + 11), fe(11 * k + 14)]).collect();
    RescueConstants {
        a_inv: [0x33333332cccccccd, 0x217f0e679998f199, 0xe14a56699d73f002, 0x2e5f0fbadd72321c],
        mds,
        round_constants: rc,
        key_injection: ki,
    }
}

fn state(v: [u64; 4]) -> RescueState {
    [fe(v[0]), fe(v[1]), fe(v[2]), fe(v[3])]
}

fn state_hex(v: [&str; 4]) -> RescueState {
    [fe_hex(v[0]), fe_hex(v[1]), fe_hex(v[2]), fe_hex(v[3])]
}

#[test]
fn rescue_fixed_key_known_answer() {
    let p = params();
    let prp = RescuePRP::new(&p, None);
    let out = prp.permute(&state([1, 2, 3, 4]));
    let expected = state_hex([
        "0x45fcbd2d30782ac47c0deaf3a079c2da3597686669d669f7c73c47cfeae7d134",
        "0x428f74eaecc8a76b3f2b9516d73b133e0c8a2d13d64c75e43a430d94a0820e05",
        "0x3f222ca8a919241202493f3a0dfc63a1e37cf1c142c281d0ad49d359561c4ad6",
        "0x3bb4e4666569a0b8c566e95d44bdb405ba6fb66eaf388dbd2050991e0bb687a7",
    ]);
    assert_eq!(out, expected);
}

#[test]
fn rescue_keyed_known_answer() {
    let p = params();
    let prp = RescuePRP::new(&p, Some(state([5, 6, 7, 8])));
    let out = prp.permute(&state([1, 2, 3, 4]));
    let expected = state_hex([
        "0x63cbb985811e446790ee8237655ebcea7407b4259827d3b56d58bf49f80d93c9",
        "0x157ef3c45db8c5f7c001a533f1bbf8f172061c7d7e95a9c04aa51b6219e07c77",
        "0x3b1fd55663f0c4d0224ea03887bb0cfdc3c228d86501dbca27f177793bb36526",
        "0x60c0b6e86a28c3a8849b9b3d1dba210a157e35334b6e0dd4053dd3905d864dd5",
    ]);
    assert_eq!(out, expected);
}

#[test]
fn rescue_parameters_accessors() {
    let p = params();
    assert_eq!(p.round_constants_state(3), state([22, 23, 24, 25]));
    assert_eq!(p.key_injection_state(2), state([27, 30, 33, 36]));
    assert_eq!(p.mds()[1][2], fe(8));
    assert_eq!(p.a_inv()[0], 0x33333332cccccccd);
}

#[test]
fn sponge_known_answers() {
    let p = params();
    let h = RescueSponge::hash(&p, &vec![fe(10), fe(20), fe(30)], None);
    assert_eq!(h, fe_hex("0x73a29c39d8cf22e815a6f0ff3c5d11e5bd17e554a14870d6e08c66d6bfc2249"));
    let h = RescueSponge::hash(&p, &vec![fe(1), fe(2), fe(3), fe(4), fe(5)], Some(fe(9)));
    assert_eq!(h, fe_hex("0x6218dd08c904f10e1208c5415588ef621cae46ee50fe8f05352704e5d165fd70"));
    let h = RescueSponge::hash(&p, &vec![], None);
    assert_eq!(h, fe(0));
}

#[test]
fn sponge_depends_on_order() {
    let p = params();
    let a = RescueSponge::hash(&p, &vec![fe(1), fe(2), fe(3)], None);
    let b = RescueSponge::hash(&p, &vec![fe(2), fe(1), fe(3)], None);
    assert_ne!(a, b);
}

#[test]
fn cipher_known_answer_and_round_trip() {
    let p = params();
    let key = state([5, 6, 7, 8]);
    let msg = vec![state([1, 2, 3, 4]), state([5, 6, 7, 8])];
    let ct = RescueBlockCipher::encrypt(&p, msg.clone(), key);
    assert_eq!(
        ct[0],
        state_hex([
            "0x599736ab3a4cc91cbe898b532671b9be80727b438d8dec9023b3710a50d38400",
            "0x5f2c6a6999635600864178aaf8d5f089b51fa19099f9f9347836f07291c75458",
            "0x64c19e27f879e2e44df96602cb3a2754e9ccc7dda66605d8ccba6fdad2bb24b0",
            "0x6a56d1e657906fc815b1535a9d9e5e201e79ee2ab2d2127d213def4313aef508",
        ])
    );
    assert_eq!(
        ct[1],
        state_hex([
            "0x6ad273798628e77f035f5df4d7d0650552862384630755728ca5cde257901958",
            "0x1ed618c9dd056ae853b0b1d9a7a22bce596bcbb7e8e96e7cde64e34a50fcae2e",
            "0x46c7656d5d7f6b99d73bddc68115ca9cb40f17ee6ec9e3863023f8b14a694305",
            "0x6eb8b210ddf96c4b5ac709b35a89696b0eb26424f4aa588f81e30e1843d5d7dc",
        ])
    );
    let back = RescueBlockCipher::decrypt(&p, ct, key);
    assert_eq!(back, msg);
}

#[test]
fn cipher_round_trip_random_key() {
    let p = params();
    let key = RescueBlockCipher::keygen();
    let msg = vec![state([9, 8, 7, 6]), state([0, 0, 0, 0]), state([1, 1, 1, 1])];
    let ct = RescueBlockCipher::encrypt(&p, msg.clone(), key);
    assert_ne!(ct, msg);
    assert_eq!(RescueBlockCipher::decrypt(&p, ct, key), msg);
}

#[test]
fn rescue_gate_matches_native_permutation() {
    let p = params();
    let gate = RescueCrhfGate::new(MainGate::new());
    let mut ctx = RegionCtx::new();
    let mg = MainGate::new();
    let cells = [
        mg.assign_value(&mut ctx, fe(1)),
        mg.assign_value(&mut ctx, fe(2)),
        mg.assign_value(&mut ctx, fe(3)),
        mg.assign_value(&mut ctx, fe(4)),
    ];
    let out = gate.permute(&mut ctx, &p, &cells);
    let native = RescuePRP::new(&p, None).permute(&state([1, 2, 3, 4]));
    for j in 0..4 {
        assert_eq!(ctx.value(out[j]), native[j]);
    }
    assert!(ctx.is_satisfied());
}

#[test]
fn rescue_gate_tampered_cell_is_unsatisfiable() {
    let p = params();
    let gate = RescueCrhfGate::new(MainGate::new());
    let mut ctx = RegionCtx::new();
    let mg = MainGate::new();
    let cells = [
        mg.assign_value(&mut ctx, fe(1)),
        mg.assign_value(&mut ctx, fe(2)),
        mg.assign_value(&mut ctx, fe(3)),
        mg.assign_value(&mut ctx, fe(4)),
    ];
    let out = gate.permute(&mut ctx, &p, &cells);
    assert!(ctx.is_satisfied());
    ctx.cells[out[0] - 5] = fe(12345);
    assert!(!ctx.is_satisfied());
}

#[test]
fn sponge_gate_matches_native_sponge() {
    let p = params();
    let gate = RescueCrhfGate::new(MainGate::new());
    let mg = MainGate::new();
    let mut ctx = RegionCtx::new();
    let vals = vec![fe(1), fe(2), fe(3), fe(4), fe(5)];
    let cells = mg.assign_values_slice(&mut ctx, &vals);
    let h = gate.hash(&mut ctx, &p, &cells);
    assert_eq!(ctx.value(h), RescueSponge::hash(&p, &vals, None));
    assert!(ctx.is_satisfied());
}
