//! The Rescue permutation and sponge inside the circuit, laid out on rows of
//! the main gate: an S-box `y = x^5` is the row `x^5 - y = 0`, the inverse
//! S-box `y = x^(1/5)` is the row `y^5 - x = 0`, and an affine MDS row
//! `y_i = sum_j m_ij x_j + c_i` is one linear row over the four state cells.
use vstd::prelude::*;
use crate::field::{Fe, limbs_val, fadd, fmul, fpow};
use crate::rescue::{
    RescueParameters, RescueState, N_ROUNDS, state_wf, sv, matrix_wf, mv, perm_state, round_constants_seq,
    sponge_state, sponge_block, sponge_blocks, sponge_hash_spec, fixed_permute_spec, add_spec, state_add,
    linear_op, sbox, linear_spec, inner_product_spec, sbox_inverts,
};
use crate::region::{
    RegionCtx, MainGateCoeffs, AssignedValue, lemma_extended_val, lemma_extended_trans, lemma_main_gate_pow_row,
    lemma_main_gate_linear_row,
};
use crate::main_gate::{MainGate, minus_one};

verus! {

/// Four cells holding a Rescue state.
pub type AssignedState = [AssignedValue; 4];

pub open spec fn state_in_region(s: AssignedState, ctx: &RegionCtx) -> bool {
    forall|j: int| 0 <= j < 4 ==> #[trigger] s[j] < ctx.cells.len()
}

/// The values the four cells hold.
pub open spec fn state_vals(s: AssignedState, ctx: &RegionCtx) -> Seq<int> {
    Seq::new(4, |j: int| ctx.val(s[j]))
}

/// The in-circuit Rescue permutation and sponge, with the fixed-key round
/// constants.
#[derive(Clone, Copy, Debug)]
pub struct RescueCrhfGate {
    pub main_gate: MainGate,
}

proof fn lemma_keep_state(c1: &RegionCtx, c2: &RegionCtx, s: AssignedState)
    requires
        c1.extended_by(c2),
        state_in_region(s, c1),
    ensures
        state_in_region(s, c2),
        state_vals(s, c2) == state_vals(s, c1),
{
    assert forall|j: int| 0 <= j < 4 implies #[trigger] s[j] < c2.cells.len() && c2.val(s[j]) == c1.val(s[j]) by {
        lemma_extended_val(c1, c2, s[j]);
    }
    assert(state_vals(s, c2) =~= state_vals(s, c1));
}

impl RescueCrhfGate {
    pub fn new(main_gate: MainGate) -> (r: RescueCrhfGate) {
        RescueCrhfGate { main_gate }
    }

    /// Assigns the four values of `st` and returns their cells.
    fn assign_state(&self, ctx: &mut RegionCtx, st: &RescueState) -> (r: AssignedState)
        requires
            old(ctx).wf(),
            state_wf(*st),
        ensures
            final(ctx).wf(),
            old(ctx).extended_by(final(ctx)),
            state_in_region(r, final(ctx)),
            state_vals(r, final(ctx)) == sv(*st),
            final(ctx).cells.len() == old(ctx).cells.len() + 4,
            forall|j: int| 0 <= j < 4 ==> #[trigger] r[j] >= old(ctx).cells.len(),
            final(ctx).gates@ == old(ctx).gates@,
            old(ctx).satisfied() ==> final(ctx).satisfied(),
    {
        let ghost c0 = *ctx;
        let c_0 = ctx.assign_advice(st[0]);
        let c_1 = ctx.assign_advice(st[1]);
        let c_2 = ctx.assign_advice(st[2]);
        let c_3 = ctx.assign_advice(st[3]);
        let r = [c_0, c_1, c_2, c_3];
        proof {
            assert(state_vals(r, ctx) =~= sv(*st));
            assert(c0.cells@ =~= ctx.cells@.subrange(0, c0.cells.len() as int));
        }
        r
    }

    /// The values of the cells of `s`.
    fn read_state(&self, ctx: &RegionCtx, s: &AssignedState) -> (r: RescueState)
        requires
            ctx.wf(),
            state_in_region(*s, ctx),
        ensures
            state_wf(r),
            sv(r) == state_vals(*s, ctx),
    {
        let r = [ctx.value(s[0]), ctx.value(s[1]), ctx.value(s[2]), ctx.value(s[3])];
        proof {
            assert(sv(r) =~= state_vals(*s, ctx));
        }
        r
    }

    /// S-box rows: `out_j^5 - in_j = 0` for the inverse S-box (`inverse`),
    /// `in_j^5 - out_j = 0` for the fifth power.
    fn sbox_rows(&self, ctx: &mut RegionCtx, inp: &AssignedState, out: &AssignedState, inverse: bool)
        requires
            old(ctx).wf(),
            state_in_region(*inp, old(ctx)),
            state_in_region(*out, old(ctx)),
        ensures
            final(ctx).wf(),
            old(ctx).extended_by(final(ctx)),
            final(ctx).cells@ == old(ctx).cells@,
            old(ctx).satisfied() && (forall|j: int| 0 <= j < 4 ==> (if inverse {
                fpow(#[trigger] old(ctx).val(out[j]), 5) == old(ctx).val(inp[j])
            } else {
                old(ctx).val(out[j]) == fpow(old(ctx).val(inp[j]), 5)
            })) ==> final(ctx).satisfied(),
    {
        let m1 = minus_one();
        let ghost rows_hold = old(ctx).satisfied() && (forall|j: int| 0 <= j < 4 ==> (if inverse {
            fpow(#[trigger] old(ctx).val(out[j]), 5) == old(ctx).val(inp[j])
        } else {
            old(ctx).val(out[j]) == fpow(old(ctx).val(inp[j]), 5)
        }));
        let mut j: usize = 0;
        while j < 4
            invariant
                ctx.wf(),
                old(ctx).extended_by(ctx),
                ctx.cells@ == old(ctx).cells@,
                state_in_region(*inp, old(ctx)),
                state_in_region(*out, old(ctx)),
                m1.wf(),
                m1.val() == crate::field::modulus() - 1,
                j <= 4,
                rows_hold == (old(ctx).satisfied() && (forall|k: int| 0 <= k < 4 ==> (if inverse {
                    fpow(#[trigger] old(ctx).val(out[k]), 5) == old(ctx).val(inp[k])
                } else {
                    old(ctx).val(out[k]) == fpow(old(ctx).val(inp[k]), 5)
                }))),
                rows_hold ==> ctx.satisfied(),
            decreases 4 - j,
        {
            let mut q = MainGateCoeffs::zero();
            q.q_h1 = Fe::one();
            q.se = m1;
            let ghost c1 = *ctx;
            proof {
                let (x, y) = (ctx.val(inp[j as int]), ctx.val(out[j as int]));
                if rows_hold {
                    if inverse {
                        assert(fpow(old(ctx).val(out[j as int]), 5) == old(ctx).val(inp[j as int]));
                    } else {
                        assert(old(ctx).val(out[j as int]) == fpow(old(ctx).val(inp[j as int]), 5));
                    }
                }
                if inverse {
                    lemma_main_gate_pow_row(q, y, x);
                    crate::field::lemma_field_basics(x);
                    assert(fadd(fmul(crate::field::modulus() - 1, x), x) == fadd(x, fmul(crate::field::modulus() - 1, x)));
                } else {
                    lemma_main_gate_pow_row(q, x, y);
                    crate::field::lemma_field_basics(y);
                    assert(fadd(fmul(crate::field::modulus() - 1, y), y) == fadd(y, fmul(crate::field::modulus() - 1, y)));
                }
            }
            if inverse {
                self.main_gate.apply(ctx, q, out[j], out[j], out[j], out[j], inp[j], inp[j]);
            } else {
                self.main_gate.apply(ctx, q, inp[j], inp[j], inp[j], inp[j], out[j], out[j]);
            }
            proof {
                lemma_extended_trans(old(ctx), &c1, ctx);
            }
            j = j + 1;
        }
    }

    /// Affine rows `out_i = sum_j m_ij in_j + c_i`.
    fn linear_rows(&self, ctx: &mut RegionCtx, m: &[[Fe; 4]; 4], c: &RescueState, inp: &AssignedState, out: &AssignedState)
        requires
            old(ctx).wf(),
            matrix_wf(*m),
            state_wf(*c),
            state_in_region(*inp, old(ctx)),
            state_in_region(*out, old(ctx)),
        ensures
            final(ctx).wf(),
            old(ctx).extended_by(final(ctx)),
            final(ctx).cells@ == old(ctx).cells@,
            old(ctx).satisfied() && state_vals(*out, old(ctx)) == linear_spec(mv(*m), state_vals(*inp, old(ctx)), sv(*c))
                ==> final(ctx).satisfied(),
    {
        let m1 = minus_one();
        let ghost rows_hold = old(ctx).satisfied() && state_vals(*out, old(ctx)) == linear_spec(mv(*m), state_vals(*inp, old(ctx)), sv(*c));
        let mut i: usize = 0;
        while i < 4
            invariant
                ctx.wf(),
                old(ctx).extended_by(ctx),
                ctx.cells@ == old(ctx).cells@,
                state_in_region(*inp, old(ctx)),
                state_in_region(*out, old(ctx)),
                matrix_wf(*m),
                state_wf(*c),
                m1.wf(),
                m1.val() == crate::field::modulus() - 1,
                i <= 4,
                rows_hold == (old(ctx).satisfied() && state_vals(*out, old(ctx)) == linear_spec(mv(*m), state_vals(*inp, old(ctx)), sv(*c))),
                rows_hold ==> ctx.satisfied(),
            decreases 4 - i,
        {
            let mut q = MainGateCoeffs::zero();
            q.sa = m[i][0];
            q.sb = m[i][1];
            q.sc = m[i][2];
            q.sd = m[i][3];
            q.s_constant = c[i];
            q.se = m1;
            proof {
                assert(state_wf(m[i as int]));
                let xs = state_vals(*inp, ctx);
                let row = sv(m[i as int]);
                let e = ctx.val(out[i as int]);
                lemma_main_gate_linear_row(q, xs[0], xs[1], xs[2], xs[3], e);
                if rows_hold {
                    reveal_with_fuel(inner_product_spec, 5);
                    let ip = inner_product_spec(row, xs, 4);
                    assert(state_vals(*out, old(ctx))[i as int] == linear_spec(mv(*m), state_vals(*inp, old(ctx)), sv(*c))[i as int]);
                    crate::field::lemma_modulus_bounds();
                    let mm = crate::field::modulus();
                    vstd::arithmetic::div_mod::lemma_mod_bound(row[0] * xs[0], mm);
                    crate::field::lemma_field_basics(fmul(row[0], xs[0]));
                    assert(inner_product_spec(row, xs, 1) == fmul(row[0], xs[0]));
                    vstd::arithmetic::div_mod::lemma_mod_bound(inner_product_spec(row, xs, 3) + fmul(row[3], xs[3]), mm);
                    assert(mv(*m)[i as int] == row);
                    assert(q.sa.val() == row[0] && q.sb.val() == row[1] && q.sc.val() == row[2] && q.sd.val() == row[3]);
                    assert(linear_spec(mv(*m), xs, sv(*c))[i as int] == fadd(ip, c[i as int].val()));
                    crate::field::lemma_affine_row_zero(ip, c[i as int].val());
                }
            }
            let ghost c1 = *ctx;
            self.main_gate.apply(ctx, q, inp[0], inp[1], inp[2], inp[3], out[i], out[i]);
            proof {
                lemma_extended_trans(old(ctx), &c1, ctx);
            }
            i = i + 1;
        }
    }

    /// The fixed-key Rescue permutation of the state held in `inp`: the
    /// output cells hold the same values as the permutation outside the
    /// circuit.
    #[verifier::rlimit(100)]
    pub fn permute<P: RescueParameters>(&self, ctx: &mut RegionCtx, params: &P, inp: &AssignedState) -> (r: AssignedState)
        requires
            old(ctx).wf(),
            params.params_wf(),
            state_in_region(*inp, old(ctx)),
        ensures
            final(ctx).wf(),
            old(ctx).extended_by(final(ctx)),
            state_in_region(r, final(ctx)),
            state_vals(r, final(ctx)) == fixed_permute_spec(params, state_vals(*inp, old(ctx))),
            old(ctx).satisfied() ==> final(ctx).satisfied(),
    {
        let ghost c0 = *ctx;
        proof {
            params.lemma_sbox_inverts();
        }
        let ghost ok = c0.satisfied() && sbox_inverts(params.spec_a_inv());
        let ghost v = round_constants_seq(params);
        let ghost mm = params.spec_mds();
        let ghost a = params.spec_a_inv();
        let ghost x0 = state_vals(*inp, &c0);
        let mds = params.mds();
        let a_inv = params.a_inv();
        let five: [u64; 4] = [5, 0, 0, 0];
        proof {
            assert(limbs_val(five@) == 5);
        }
        // initial round-constant addition
        let st_in = self.read_state(ctx, inp);
        let rc0 = params.round_constants_state(0);
        let mut st = state_add(&st_in, &rc0);
        let mut cells: AssignedState = [0, 0, 0, 0];
        let mut j: usize = 0;
        while j < 4
            invariant
                ctx.wf(),
                c0.extended_by(ctx),
                state_in_region(*inp, &c0),
                state_wf(st_in),
                state_wf(rc0),
                state_wf(st),
                sv(st_in) == x0,
                x0 == state_vals(*inp, &c0),
                sv(st) == add_spec(sv(st_in), sv(rc0)),
                j <= 4,
                forall|k: int| 0 <= k < j ==> #[trigger] cells[k] < ctx.cells.len() && ctx.val(cells[k]) == st[k].val(),
                ok == (c0.satisfied() && sbox_inverts(params.spec_a_inv())),
                ok ==> ctx.satisfied(),
            decreases 4 - j,
        {
            let ghost c1 = *ctx;
            proof {
                lemma_extended_val(&c0, &c1, inp[j as int]);
            }
            let cj = self.main_gate.add_constant(ctx, inp[j], rc0[j]);
            proof {
                assert forall|k: int| 0 <= k < j implies #[trigger] cells[k] < ctx.cells.len() && ctx.val(cells[k]) == st[k].val() by {
                    lemma_extended_val(&c1, ctx, cells[k]);
                }
                lemma_extended_trans(&c0, &c1, ctx);
                assert(st[j as int].val() == sv(st)[j as int]);
            }
            cells[j] = cj;
            j = j + 1;
        }
        proof {
            assert(state_vals(cells, ctx) =~= sv(st));
            assert(sv(rc0) == v[0]);
            assert(sv(st) == perm_state(x0, v, mm, a, 0));
        }
        let mut r: usize = 0;
        while r < N_ROUNDS
            invariant
                ctx.wf(),
                c0.extended_by(ctx),
                params.params_wf(),
                v == round_constants_seq(params),
                mm == params.spec_mds(),
                a == params.spec_a_inv(),
                limbs_val(a_inv@) == a,
                limbs_val(five@) == 5,
                matrix_wf(mds),
                mv(mds) == mm,
                r <= N_ROUNDS,
                state_wf(st),
                state_in_region(cells, ctx),
                state_vals(cells, ctx) == sv(st),
                sv(st) == perm_state(x0, v, mm, a, (2 * r) as nat),
                ok == (c0.satisfied() && sbox_inverts(a)),
                ok ==> ctx.satisfied(),
            decreases N_ROUNDS - r,
        {
            let ghost c1 = *ctx;
            let ghost st0 = st;
            // inverse S-box, then the affine layer
            sbox(&mut st, a_inv);
            let y = self.assign_state(ctx, &st);
            proof {
                lemma_keep_state(&c1, ctx, cells);
                if ok {
                    assert forall|j: int| 0 <= j < 4 implies fpow(#[trigger] ctx.val(y[j]), 5) == ctx.val(cells[j]) by {
                        assert(ctx.val(y[j]) == state_vals(y, ctx)[j]);
                        assert(ctx.val(cells[j]) == state_vals(cells, ctx)[j]);
                        assert(st0[j].wf());
                        assert(sv(st0)[j] == st0[j].val());
                        assert(fpow(fpow(st0[j].val(), a), 5) == st0[j].val());
                    }
                }
            }
            let ghost c2 = *ctx;
            self.sbox_rows(ctx, &cells, &y, true);
            let k1 = params.round_constants_state(2 * r + 1);
            linear_op(&mut st, &mds, &k1);
            let z = self.assign_state(ctx, &st);
            proof { lemma_keep_state(&c2, ctx, y); }
            self.linear_rows(ctx, &mds, &k1, &y, &z);
            proof {
                assert(sv(k1) == v[2 * r + 1]);
                assert((2 * r + 1) as nat % 2 == 1);
                assert(sv(st) == perm_state(x0, v, mm, a, (2 * r + 1) as nat));
            }
            let ghost c3 = *ctx;
            let ghost st1 = st;
            // fifth-power S-box, then the affine layer
            sbox(&mut st, five);
            let y2 = self.assign_state(ctx, &st);
            proof {
                lemma_keep_state(&c3, ctx, z);
                assert forall|j: int| 0 <= j < 4 implies #[trigger] ctx.val(y2[j]) == fpow(ctx.val(z[j]), 5) by {
                    assert(ctx.val(y2[j]) == state_vals(y2, ctx)[j]);
                    assert(ctx.val(z[j]) == state_vals(z, ctx)[j]);
                }
            }
            let ghost c4 = *ctx;
            self.sbox_rows(ctx, &z, &y2, false);
            let k2 = params.round_constants_state(2 * r + 2);
            linear_op(&mut st, &mds, &k2);
            let z2 = self.assign_state(ctx, &st);
            proof { lemma_keep_state(&c4, ctx, y2); }
            self.linear_rows(ctx, &mds, &k2, &y2, &z2);
            proof {
                assert(sv(k2) == v[2 * r + 2]);
                assert((2 * r + 2) as nat % 2 == 0);
                assert(sv(st) == perm_state(x0, v, mm, a, (2 * r + 2) as nat));
                lemma_extended_trans(&c0, &c1, &c2);
                lemma_extended_trans(&c0, &c2, &c3);
                lemma_extended_trans(&c0, &c3, &c4);
                lemma_extended_trans(&c0, &c4, ctx);
            }
            cells = z2;
            r = r + 1;
        }
        cells
    }

    /// The sponge hash of the values held in `inputs`, with no domain tag:
    /// the output cell holds the same value as the sponge outside the circuit.
    pub fn hash<P: RescueParameters>(&self, ctx: &mut RegionCtx, params: &P, inputs: &Vec<AssignedValue>) -> (r: AssignedValue)
        requires
            old(ctx).wf(),
            params.params_wf(),
            inputs.len() < usize::MAX - 2,
            forall|i: int| 0 <= i < inputs.len() ==> #[trigger] inputs@[i] < old(ctx).cells.len(),
        ensures
            final(ctx).wf(),
            old(ctx).extended_by(final(ctx)),
            r < final(ctx).cells.len(),
            final(ctx).val(r) == sponge_hash_spec(params, Seq::new(inputs.len() as nat, |i: int| old(ctx).val(inputs@[i])), 0),
            old(ctx).satisfied() ==> final(ctx).satisfied(),
    {
        let ghost c0 = *ctx;
        proof {
            params.lemma_sbox_inverts();
        }
        let ghost ok = c0.satisfied() && sbox_inverts(params.spec_a_inv());
        let ghost iv = Seq::new(inputs.len() as nat, |i: int| c0.val(inputs@[i]));
        let z = Fe::zero();
        let zc = self.main_gate.assign_constant(ctx, z);
        let mut state: AssignedState = [zc, zc, zc, zc];
        proof {
            assert(state_vals(state, ctx) =~= sponge_state(params, iv, 0, 0));
        }
        let n = inputs.len();
        let nblocks = n / 3 + if n % 3 == 0 { 0 } else { 1 };
        let mut j: usize = 0;
        while j < nblocks
            invariant
                ctx.wf(),
                c0.extended_by(ctx),
                params.params_wf(),
                nblocks == sponge_blocks(n as int),
                n == inputs.len(),
                n < usize::MAX - 2,
                forall|i: int| 0 <= i < inputs.len() ==> #[trigger] inputs@[i] < c0.cells.len(),
                iv == Seq::new(inputs.len() as nat, |i: int| c0.val(inputs@[i])),
                state_in_region(state, ctx),
                state_vals(state, ctx) == sponge_state(params, iv, 0, j as nat),
                j <= nblocks,
                ok == (c0.satisfied() && sbox_inverts(params.spec_a_inv())),
                ok ==> ctx.satisfied(),
            decreases nblocks - j,
        {
            let ghost c1 = *ctx;
            proof {
                assert(3 * j <= n) by (nonlinear_arith)
                    requires j < nblocks, nblocks == (n + 2) / 3;
            }
            let mut absorbed: AssignedState = state;
            let mut i: usize = 0;
            while i < 3
                invariant
                    ctx.wf(),
                    c1.extended_by(ctx),
                    c0.extended_by(&c1),
                    j < nblocks,
                    3 * j <= n,
                    n < usize::MAX - 2,
                    n == inputs.len(),
                    forall|k: int| 0 <= k < inputs.len() ==> #[trigger] inputs@[k] < c0.cells.len(),
                    iv == Seq::new(inputs.len() as nat, |k: int| c0.val(inputs@[k])),
                    state_in_region(state, &c1),
                    state_in_region(absorbed, ctx),
                    absorbed[3] == state[3],
                    ok ==> c1.satisfied(),
                    c1.satisfied() ==> ctx.satisfied(),
                    forall|k: int| 0 <= k < 4 ==> #[trigger] ctx.val(absorbed[k]) == (if k < i {
                        add_spec(state_vals(state, &c1), sponge_block(iv, j as int))[k]
                    } else {
                        c1.val(state[k])
                    }),
                    i <= 3,
                decreases 3 - i,
            {
                let ghost c2 = *ctx;
                proof {
                    lemma_extended_val(&c1, &c2, state[i as int]);
                }
                if 3 * j + i < n {
                    proof {
                        lemma_extended_trans(&c0, &c1, &c2);
                        lemma_extended_val(&c0, &c2, inputs@[3 * j + i]);
                    }
                    let s = self.add_cells(ctx, state[i], inputs[3 * j + i]);
                    absorbed[i] = s;
                } else {
                    proof {
                        crate::field::lemma_field_basics(c1.val(state[i as int]));
                    }
                }
                proof {
                    assert forall|k: int| 0 <= k < 4 implies #[trigger] absorbed[k] < ctx.cells.len() && ctx.val(absorbed[k]) == (if k < i + 1 {
                        add_spec(state_vals(state, &c1), sponge_block(iv, j as int))[k]
                    } else {
                        c1.val(state[k])
                    }) by {
                        if k != i {
                            lemma_extended_val(&c2, ctx, absorbed[k]);
                        }
                    }
                    lemma_extended_trans(&c1, &c2, ctx);
                }
                i = i + 1;
            }
            proof {
                lemma_extended_val(&c1, ctx, state[3]);
                crate::field::lemma_field_basics(c1.val(state[3]));
                assert(state_vals(absorbed, ctx) =~= add_spec(state_vals(state, &c1), sponge_block(iv, j as int)));
            }
            let ghost c3 = *ctx;
            state = self.permute(ctx, params, &absorbed);
            proof {
                lemma_extended_trans(&c0, &c1, &c3);
                lemma_extended_trans(&c0, &c3, ctx);
            }
            j = j + 1;
        }
        state[0]
    }

    /// Assigns `a + b` and constrains it: `a + b - e = 0`.
    fn add_cells(&self, ctx: &mut RegionCtx, a: AssignedValue, b: AssignedValue) -> (r: AssignedValue)
        requires
            old(ctx).wf(),
            a < old(ctx).cells.len(),
            b < old(ctx).cells.len(),
        ensures
            final(ctx).wf(),
            old(ctx).extended_by(final(ctx)),
            r < final(ctx).cells.len(),
            final(ctx).val(r) == crate::field::fadd(old(ctx).val(a), old(ctx).val(b)),
            old(ctx).satisfied() ==> final(ctx).satisfied(),
    {
        let av = ctx.value(a);
        let bv = ctx.value(b);
        let ev = crate::field::fe_add(av, bv);
        let e = ctx.assign_advice(ev);
        let mut q = MainGateCoeffs::zero();
        q.sa = Fe::one();
        q.sb = Fe::one();
        q.se = minus_one();
        proof {
            let (x, y, z) = (av.val(), bv.val(), ev.val());
            crate::field::lemma_field_basics(x);
            crate::field::lemma_field_basics(y);
            crate::field::lemma_field_basics(z);
            crate::field::lemma_field_basics(0);
            crate::field::lemma_modulus_bounds();
            vstd::arithmetic::div_mod::lemma_mod_bound(x * y, crate::field::modulus());
            crate::field::lemma_field_basics(fmul(x, y));
            crate::region::lemma_main_gate_sparse(q, x, y, x, x, z, z);
            let t = fadd(z, fmul(crate::field::modulus() - 1, z));
            vstd::arithmetic::div_mod::lemma_mod_bound(z + fmul(crate::field::modulus() - 1, z), crate::field::modulus());
            crate::field::lemma_field_basics(t);
        }
        let ghost c1 = *ctx;
        self.main_gate.apply(ctx, q, a, b, a, a, e, e);
        proof {
            lemma_extended_val(&c1, ctx, e);
        }
        e
    }
}

} // verus!
