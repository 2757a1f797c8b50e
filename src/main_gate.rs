//! The main gate: a five-column PLONK-style arithmetic gate. Every
//! instruction below chooses the row's coefficients so that the universal
//! identity reduces to the relation it needs.
use vstd::prelude::*;
use vstd::arithmetic::power2::pow2;
use crate::field::{Fe, fadd, fsub, fmul, modulus, bits_val, fe_add, fe_sub, fe_mul, fe_eq, fe_to_bits, lemma_field_basics, lemma_fadd_mod, lemma_fmul_mod};
use crate::region::{RegionCtx, Gate, MainGateCoeffs, AssignedValue, AssignedCondition, lemma_main_gate_sparse, main_gate_value, gate_holds, main_row, coeff_vals};

verus! {

/// Helper to find the columns of the main gate that gadgets use often.
pub trait ColumnTags: Sized {
    /// The column that accumulates into the next row.
    fn next() -> Self;

    /// The first column.
    fn first() -> Self;

    /// Index of the column where the last term of a linear combination goes.
    fn last_term_index() -> usize;
}

/// The advice columns of the main gate.
#[derive(Clone, Copy, Debug, PartialEq, Eq)]
pub enum MainGateColumn {
    A,
    B,
    C,
    D,
    E,
}

impl MainGateColumn {
    /// Position of the column in the row.
    pub open spec fn spec_index(self) -> usize {
        match self {
            MainGateColumn::A => 0,
            MainGateColumn::B => 1,
            MainGateColumn::C => 2,
            MainGateColumn::D => 3,
            MainGateColumn::E => 4,
        }
    }

    /// Position of the column in the row.
    pub fn index(&self) -> (r: usize)
        ensures
            r == self.spec_index(),
    {
        match self {
            MainGateColumn::A => 0,
            MainGateColumn::B => 1,
            MainGateColumn::C => 2,
            MainGateColumn::D => 3,
            MainGateColumn::E => 4,
        }
    }
}

impl ColumnTags for MainGateColumn {
    fn first() -> (r: Self)
        ensures
            r == MainGateColumn::A,
    {
        MainGateColumn::A
    }

    fn next() -> (r: Self)
        ensures
            r == MainGateColumn::E,
    {
        MainGateColumn::E
    }

    fn last_term_index() -> (r: usize)
        ensures
            r == 0,
    {
        Self::first().index()
    }
}

/// The instructions of the main gate.
#[derive(Clone, Copy, Debug)]
pub struct MainGate;

/// The field element `p - 1`, that is `-1`.
pub fn minus_one() -> (r: Fe)
    ensures
        r.wf(),
        r.val() == modulus() - 1,
        r.val() == fsub(0, 1),
{
    proof {
        crate::field::lemma_modulus_bounds();
        let m = modulus();
        vstd::arithmetic::div_mod::lemma_mod_add_multiples_vanish(-1, m);
        vstd::arithmetic::div_mod::lemma_small_mod((m - 1) as nat, m as nat);
    }
    fe_sub(Fe::zero(), Fe::one())
}

impl MainGate {
    pub fn new() -> (r: MainGate) {
        MainGate
    }

    /// Assigns `v` to a fresh cell, with no constraint on it.
    pub fn assign_value(&self, ctx: &mut RegionCtx, v: Fe) -> (r: AssignedValue)
        requires
            old(ctx).wf(),
            v.wf(),
        ensures
            final(ctx).wf(),
            old(ctx).extended_by(final(ctx)),
            r == old(ctx).cells.len(),
            final(ctx).cells@ == old(ctx).cells@.push(v),
            final(ctx).gates@ == old(ctx).gates@,
            old(ctx).satisfied() ==> final(ctx).satisfied(),
    {
        ctx.assign_advice(v)
    }

    /// Assigns each value to a fresh cell.
    pub fn assign_values_slice(&self, ctx: &mut RegionCtx, vs: &Vec<Fe>) -> (r: Vec<AssignedValue>)
        requires
            old(ctx).wf(),
            forall|i: int| 0 <= i < vs.len() ==> (#[trigger] vs@[i]).wf(),
        ensures
            final(ctx).wf(),
            old(ctx).extended_by(final(ctx)),
            final(ctx).gates@ == old(ctx).gates@,
            r.len() == vs.len(),
            forall|i: int| 0 <= i < r.len() ==> #[trigger] r@[i] < final(ctx).cells.len()
                && final(ctx).cells@[r@[i] as int] == vs@[i],
            old(ctx).satisfied() ==> final(ctx).satisfied(),
    {
        let mut r: Vec<AssignedValue> = Vec::new();
        let mut i: usize = 0;
        while i < vs.len()
            invariant
                ctx.wf(),
                old(ctx).extended_by(ctx),
                ctx.gates@ == old(ctx).gates@,
                forall|j: int| 0 <= j < vs.len() ==> (#[trigger] vs@[j]).wf(),
                i <= vs.len(),
                r.len() == i,
                forall|j: int| 0 <= j < i ==> #[trigger] r@[j] < ctx.cells.len() && ctx.cells@[r@[j] as int] == vs@[j],
                old(ctx).satisfied() ==> ctx.satisfied(),
            decreases vs.len() - i,
        {
            let c = ctx.assign_advice(vs[i]);
            r.push(c);
            i = i + 1;
        }
        r
    }

    /// Lays one row of the main gate.
    pub fn apply(&self, ctx: &mut RegionCtx, q: MainGateCoeffs, a: AssignedValue, b: AssignedValue, c: AssignedValue, d: AssignedValue, e: AssignedValue, e_next: AssignedValue)
        requires
            old(ctx).wf(),
            q.wf(),
            a < old(ctx).cells.len() && b < old(ctx).cells.len() && c < old(ctx).cells.len(),
            d < old(ctx).cells.len() && e < old(ctx).cells.len() && e_next < old(ctx).cells.len(),
        ensures
            final(ctx).wf(),
            old(ctx).extended_by(final(ctx)),
            final(ctx).cells@ == old(ctx).cells@,
            final(ctx).gates@ == old(ctx).gates@.push(Gate::Main { q, a, b, c, d, e, e_next }),
            final(ctx).satisfied() <==> (old(ctx).satisfied() && gate_holds(Gate::Main { q, a, b, c, d, e, e_next }, old(ctx).cells@)),
    {
        ctx.enable(Gate::Main { q, a, b, c, d, e, e_next });
    }

    /// Assigns the constant `k` and constrains the cell to hold it: `a - k = 0`.
    pub fn assign_constant(&self, ctx: &mut RegionCtx, k: Fe) -> (r: AssignedValue)
        requires
            old(ctx).wf(),
            k.wf(),
        ensures
            final(ctx).wf(),
            old(ctx).extended_by(final(ctx)),
            r == old(ctx).cells.len(),
            r < final(ctx).cells.len(),
            final(ctx).val(r) == k.val(),
            final(ctx).cells.len() == old(ctx).cells.len() + 1,
            final(ctx).gates.len() == old(ctx).gates.len() + 1,
            main_row(final(ctx).gates@.last(), seq![r, r, r, r, r, r], seq![1, 0, 0, 0, 0, 0, 0, 0, fsub(0, k.val()), 0, 0, 0, 0]),
            old(ctx).satisfied() ==> final(ctx).satisfied(),
    {
        let c = ctx.assign_advice(k);
        let mut q = MainGateCoeffs::zero();
        q.sa = Fe::one();
        q.s_constant = fe_sub(Fe::zero(), k);
        proof {
            let kv = k.val();
            lemma_field_basics(kv);
            lemma_field_basics(fmul(kv, kv));
            lemma_field_basics(0);
            lemma_main_gate_sparse(q, kv, kv, kv, kv, kv, kv);
        }
        self.apply(ctx, q, c, c, c, c, c, c);
        c
    }

    /// Constrains two cells to hold the same value.
    pub fn assert_equal(&self, ctx: &mut RegionCtx, a: AssignedValue, b: AssignedValue)
        requires
            old(ctx).wf(),
            a < old(ctx).cells.len(),
            b < old(ctx).cells.len(),
        ensures
            final(ctx).wf(),
            old(ctx).extended_by(final(ctx)),
            final(ctx).cells@ == old(ctx).cells@,
            final(ctx).gates@ == old(ctx).gates@.push(Gate::Equal { l: a, r: b }),
            final(ctx).satisfied() <==> (old(ctx).satisfied() && old(ctx).val(a) == old(ctx).val(b)),
    {
        ctx.constrain_equal(a, b);
    }

    /// Constrains a cell to hold one: `a - 1 = 0`.
    pub fn assert_one(&self, ctx: &mut RegionCtx, a: AssignedValue)
        requires
            old(ctx).wf(),
            a < old(ctx).cells.len(),
        ensures
            final(ctx).wf(),
            old(ctx).extended_by(final(ctx)),
            final(ctx).cells@ == old(ctx).cells@,
            final(ctx).gates.len() == old(ctx).gates.len() + 1,
            final(ctx).gates@.drop_last() == old(ctx).gates@,
            main_row(final(ctx).gates@.last(), seq![a, a, a, a, a, a], seq![1, 0, 0, 0, 0, 0, 0, 0, modulus() - 1, 0, 0, 0, 0]),
            final(ctx).satisfied() <==> (old(ctx).satisfied() && old(ctx).val(a) == 1),
    {
        let mut q = MainGateCoeffs::zero();
        q.sa = Fe::one();
        q.s_constant = minus_one();
        proof {
            let av = ctx.val(a);
            let m = modulus();
            lemma_field_basics(av);
            lemma_field_basics(fmul(av, av));
            lemma_field_basics(0);
            lemma_main_gate_sparse(q, av, av, av, av, av, av);
            vstd::arithmetic::div_mod::lemma_small_mod(av as nat, m as nat);
            vstd::arithmetic::div_mod::lemma_mod_bound(av * av, m);
            lemma_field_basics(fmul(av, av));
            assert(main_gate_value(q, av, av, av, av, av, av) == fadd(av, m - 1));
            if av == 1 {
                vstd::arithmetic::div_mod::lemma_mod_self_0(m);
                assert(fadd(av, m - 1) == 0);
            } else if av == 0 {
                vstd::arithmetic::div_mod::lemma_small_mod((m - 1) as nat, m as nat);
                assert(fadd(av, m - 1) != 0);
            } else {
                vstd::arithmetic::div_mod::lemma_small_mod((av - 1) as nat, m as nat);
                vstd::arithmetic::div_mod::lemma_mod_add_multiples_vanish(av - 1, m);
                assert(m + (av - 1) == av + (m - 1));
                assert(fadd(av, m - 1) != 0);
            }
            assert((main_gate_value(q, av, av, av, av, av, av) == 0) == (av == 1));
        }
        self.apply(ctx, q, a, a, a, a, a, a);
    }

    /// Constrains a cell to hold zero: `a = 0`.
    pub fn assert_zero(&self, ctx: &mut RegionCtx, a: AssignedValue)
        requires
            old(ctx).wf(),
            a < old(ctx).cells.len(),
        ensures
            final(ctx).wf(),
            old(ctx).extended_by(final(ctx)),
            final(ctx).cells@ == old(ctx).cells@,
            final(ctx).gates.len() == old(ctx).gates.len() + 1,
            final(ctx).gates@.drop_last() == old(ctx).gates@,
            main_row(final(ctx).gates@.last(), seq![a, a, a, a, a, a], seq![1, 0, 0, 0, 0, 0, 0, 0, 0, 0, 0, 0, 0]),
            final(ctx).satisfied() <==> (old(ctx).satisfied() && old(ctx).val(a) == 0),
    {
        let mut q = MainGateCoeffs::zero();
        q.sa = Fe::one();
        proof {
            let av = ctx.val(a);
            lemma_field_basics(av);
            lemma_field_basics(0);
            vstd::arithmetic::div_mod::lemma_mod_bound(av * av, modulus());
            lemma_field_basics(fmul(av, av));
            lemma_main_gate_sparse(q, av, av, av, av, av, av);
        }
        self.apply(ctx, q, a, a, a, a, a, a);
    }

    /// Assigns `cond ? a : b` for a bit `cond`, constrained by the row
    /// `cond a - cond b + b - e = 0`.
    pub fn select(&self, ctx: &mut RegionCtx, a: AssignedValue, b: AssignedValue, cond: AssignedCondition) -> (r: AssignedValue)
        requires
            old(ctx).wf(),
            a < old(ctx).cells.len(),
            b < old(ctx).cells.len(),
            cond < old(ctx).cells.len(),
            old(ctx).val(cond) == 0 || old(ctx).val(cond) == 1,
        ensures
            final(ctx).wf(),
            old(ctx).extended_by(final(ctx)),
            r < final(ctx).cells.len(),
            final(ctx).gates@.drop_last() == old(ctx).gates@,
            main_row(final(ctx).gates@.last(), seq![cond, a, cond, b, r, r], seq![0, 0, 0, 1, modulus() - 1, 0, 1, modulus() - 1, 0, 0, 0, 0, 0]),
            final(ctx).val(r) == (if old(ctx).val(cond) == 1 { old(ctx).val(a) } else { old(ctx).val(b) }),
            old(ctx).satisfied() ==> final(ctx).satisfied(),
    {
        let av = ctx.value(a);
        let bv = ctx.value(b);
        let cv = ctx.value(cond);
        let ev = if fe_eq(cv, Fe::one()) { av } else { bv };
        let e = ctx.assign_advice(ev);
        let m1 = minus_one();
        let mut q = MainGateCoeffs::zero();
        q.s_mul_ab = Fe::one();
        q.s_mul_cd = m1;
        q.sd = Fe::one();
        q.se = m1;
        proof {
            lemma_select_row(q, cv.val(), av.val(), bv.val(), ev.val());
        }
        self.apply(ctx, q, cond, a, cond, b, e, e);
        e
    }

    /// Constrains a cell to hold a bit: `a * a - a = 0`.
    pub fn assert_bit(&self, ctx: &mut RegionCtx, a: AssignedCondition)
        requires
            old(ctx).wf(),
            a < old(ctx).cells.len(),
        ensures
            final(ctx).wf(),
            old(ctx).extended_by(final(ctx)),
            final(ctx).cells@ == old(ctx).cells@,
            final(ctx).gates.len() == old(ctx).gates.len() + 1,
            final(ctx).gates@.drop_last() == old(ctx).gates@,
            main_row(final(ctx).gates@.last(), seq![a, a, a, a, a, a], seq![modulus() - 1, 0, 0, 0, 0, 0, 1, 0, 0, 0, 0, 0, 0]),
            final(ctx).satisfied() <==> (old(ctx).satisfied() && fmul(old(ctx).val(a), old(ctx).val(a)) == old(ctx).val(a)),
            old(ctx).satisfied() && (old(ctx).val(a) == 0 || old(ctx).val(a) == 1) ==> final(ctx).satisfied(),
    {
        let mut q = MainGateCoeffs::zero();
        q.sa = minus_one();
        q.s_mul_ab = Fe::one();
        proof {
            let av = ctx.val(a);
            let m = modulus();
            crate::field::lemma_modulus_bounds();
            lemma_field_basics(av);
            vstd::arithmetic::div_mod::lemma_mod_bound(av * av, m);
            lemma_field_basics(fmul(av, av));
            lemma_field_basics(0);
            lemma_main_gate_sparse(q, av, av, av, av, av, av);
            let y = fmul(m - 1, av);
            vstd::arithmetic::div_mod::lemma_mod_bound((m - 1) * av, m);
            lemma_field_basics(y);
            lemma_neg_add_zero(av, fmul(av, av));
            assert(fadd(y, 0) == y);
            assert(fmul(1, fmul(av, av)) == fmul(av, av));
            assert(fmul(0, av) == 0);
            vstd::arithmetic::div_mod::lemma_mod_bound(y + fmul(av, av), m);
            lemma_field_basics(fadd(y, fmul(av, av)));
            assert(main_gate_value(q, av, av, av, av, av, av) == fadd(y, fmul(av, av)));
            if av == 0 || av == 1 {
                assert(fmul(av, av) == av) by {
                    vstd::arithmetic::div_mod::lemma_small_mod(av as nat, m as nat);
                }
            }
        }
        self.apply(ctx, q, a, a, a, a, a, a);
    }

    /// Assigns `a + k` and constrains it: `a + k - e = 0`.
    pub fn add_constant(&self, ctx: &mut RegionCtx, a: AssignedValue, k: Fe) -> (r: AssignedValue)
        requires
            old(ctx).wf(),
            a < old(ctx).cells.len(),
            k.wf(),
        ensures
            final(ctx).wf(),
            old(ctx).extended_by(final(ctx)),
            r < final(ctx).cells.len(),
            final(ctx).gates@.drop_last() == old(ctx).gates@,
            main_row(final(ctx).gates@.last(), seq![a, a, a, a, r, r], seq![1, 0, 0, 0, modulus() - 1, 0, 0, 0, k.val(), 0, 0, 0, 0]),
            final(ctx).val(r) == fadd(old(ctx).val(a), k.val()),
            old(ctx).satisfied() ==> final(ctx).satisfied(),
    {
        let av = ctx.value(a);
        let e = ctx.assign_advice(fe_add(av, k));
        let mut q = MainGateCoeffs::zero();
        q.sa = Fe::one();
        q.se = minus_one();
        q.s_constant = k;
        proof {
            let x = av.val();
            let kv = k.val();
            let ev = fadd(x, kv);
            let m = modulus();
            lemma_field_basics(x);
            lemma_field_basics(ev);
            lemma_field_basics(0);
            vstd::arithmetic::div_mod::lemma_mod_bound(x * x, m);
            lemma_field_basics(fmul(x, x));
            lemma_main_gate_sparse(q, x, x, x, x, ev, ev);
            let ne = fmul(m - 1, ev);
            vstd::arithmetic::div_mod::lemma_mod_bound(x + ne, m);
            lemma_field_basics(fadd(x, ne));
            assert(main_gate_value(q, x, x, x, x, ev, ev) == fadd(fadd(x, ne), kv));
            vstd::arithmetic::div_mod::lemma_add_mod_noop_right(x, (m - 1) * ev, m);
            assert(fadd(x, ne) == (x + (m - 1) * ev) % m);
            lemma_fadd_mod(x + (m - 1) * ev, kv);
            assert(fadd(fadd(x, ne), kv) == (x + (m - 1) * ev + kv) % m);
            let t = (x + kv) / m;
            vstd::arithmetic::div_mod::lemma_fundamental_div_mod(x + kv, m);
            assert(x + kv == m * t + ev);
            assert(x + (m - 1) * ev + kv == (t + ev) * m) by (nonlinear_arith)
                requires x + kv == m * t + ev;
            vstd::arithmetic::div_mod::lemma_mod_multiples_basic(t + ev, m);
        }
        self.apply(ctx, q, a, a, a, a, e, e);
        e
    }

    /// Decomposes a cell into `n` bit cells, least significant first: each is
    /// constrained to be a bit, and the sum of the bits weighted by powers of
    /// two is accumulated row by row and constrained equal to the cell.
    #[verifier::rlimit(50)]
    pub fn to_bits(&self, ctx: &mut RegionCtx, a: AssignedValue, n: usize) -> (r: Vec<AssignedCondition>)
        requires
            old(ctx).wf(),
            a < old(ctx).cells.len(),
            1 <= n <= 255,
            old(ctx).val(a) < pow2(n as nat),
        ensures
            final(ctx).wf(),
            old(ctx).extended_by(final(ctx)),
            r.len() == n,
            forall|i: int| 0 <= i < n ==> #[trigger] r@[i] < final(ctx).cells.len()
                && (final(ctx).val(r@[i]) == 0 || final(ctx).val(r@[i]) == 1),
            bits_val(Seq::new(n as nat, |i: int| final(ctx).val(r@[i]) == 1)) == old(ctx).val(a),
            old(ctx).satisfied() ==> final(ctx).satisfied(),
            final(ctx).cells.len() == old(ctx).cells.len() + 1 + 2 * n,
            final(ctx).gates.len() == old(ctx).gates.len() + 2 + 2 * n,
            forall|j: int| 0 <= j < n ==> #[trigger] r@[j] == old(ctx).cells.len() + 1 + 2 * j,
            to_bits_rows(final(ctx).gates@, old(ctx).gates.len() as int, old(ctx).cells.len() as int, a, n as int),
    {
        let ghost c0 = *ctx;
        let ghost m = modulus();
        proof {
            crate::field::lemma_modulus_bounds();
        }
        let av = ctx.value(a);
        let bits = fe_to_bits(av, n);
        let zero = Fe::zero();
        let one = Fe::one();
        let m1 = minus_one();
        let mut acc = self.assign_constant(ctx, zero);
        let ghost acc0 = acc;
        proof {
            assert(fsub(0, 0) == 0) by {
                vstd::arithmetic::div_mod::lemma_small_mod(0, m as nat);
            }
            assert(ctx.gates@[c0.gates.len() as int] == ctx.gates@.last());
        }
        let mut pw = one;
        let mut r: Vec<AssignedCondition> = Vec::new();
        let mut i: usize = 0;
        proof {
            assert(bits@.subrange(0, 0) =~= Seq::<bool>::empty());
            vstd::arithmetic::div_mod::lemma_small_mod(0, m as nat);
            vstd::arithmetic::div_mod::lemma_small_mod(1, m as nat);
            vstd::arithmetic::power2::lemma2_to64();
        }
        while i < n
            invariant
                ctx.wf(),
                c0.extended_by(ctx),
                c0.wf(),
                m == modulus(),
                1 < m,
                a < c0.cells.len(),
                bits.len() == n,
                n <= 255,
                i <= n,
                zero.wf() && one.wf() && m1.wf(),
                zero.val() == 0 && one.val() == 1 && m1.val() == m - 1,
                pw.wf(),
                pw.val() == (pow2(i as nat) as int) % m,
                acc < ctx.cells.len(),
                ctx.val(acc) == (bits_val(bits@.subrange(0, i as int)) as int) % m,
                r.len() == i,
                forall|j: int| 0 <= j < i ==> #[trigger] r@[j] < ctx.cells.len()
                    && ctx.val(r@[j]) == (if bits@[j] { 1int } else { 0int }),
                c0.satisfied() ==> ctx.satisfied(),
                ctx.cells.len() == c0.cells.len() + 1 + 2 * i,
                ctx.gates.len() == c0.gates.len() + 1 + 2 * i,
                acc == c0.cells.len() + 2 * i,
                forall|j: int| 0 <= j < i ==> #[trigger] r@[j] == c0.cells.len() + 1 + 2 * j,
                main_row(ctx.gates@[c0.gates.len() as int], seq![acc0, acc0, acc0, acc0, acc0, acc0], seq![1, 0, 0, 0, 0, 0, 0, 0, 0, 0, 0, 0, 0]),
                acc0 == c0.cells.len(),
                forall|j: int| 0 <= j < i ==> #[trigger] bit_rows_at(ctx.gates@, c0.gates.len() as int, c0.cells.len() as int, j),
            decreases n - i,
        {
            let ghost gs0 = ctx.gates@;
            let bv = if bits[i] { one } else { zero };
            let bc = ctx.assign_advice(bv);
            self.assert_bit(ctx, bc);
            let ghost gs1 = ctx.gates@;
            let accv = ctx.value(acc);
            let x = fe_mul(pw, bv);
            let nv = fe_add(accv, x);
            let next = ctx.assign_advice(nv);
            let mut q = MainGateCoeffs::zero();
            q.sa = pw;
            q.sb = one;
            q.se = m1;
            proof {
                let b = bv.val();
                let ac = accv.val();
                let xv = x.val();
                lemma_field_basics(b);
                lemma_field_basics(ac);
                lemma_field_basics(nv.val());
                vstd::arithmetic::div_mod::lemma_mod_bound(b * b, m);
                lemma_field_basics(fmul(b, b));
                lemma_main_gate_sparse(q, b, ac, b, b, nv.val(), nv.val());
                vstd::arithmetic::div_mod::lemma_mod_bound(xv + ac, m);
                lemma_field_basics(fadd(xv, ac));
                assert(fadd(xv, ac) == nv.val());
                assert(main_gate_value(q, b, ac, b, b, nv.val(), nv.val()) == fadd(nv.val(), fmul(m - 1, nv.val())));
                // the accumulator and the power of two
                let bb = bits@.subrange(0, i as int);
                assert(bits@.subrange(0, i + 1) =~= bb.push(bits@[i as int]));
                crate::field::lemma_bits_val_push(bb, bits@[i as int]);
                lemma_fmul_mod(pow2(i as nat) as int, b);
                lemma_fadd_mod(bits_val(bb) as int, pow2(i as nat) * b);
                lemma_fadd_mod(pow2(i as nat) as int, pow2(i as nat) as int);
                vstd::arithmetic::power2::lemma_pow2_unfold((i + 1) as nat);
            }
            self.apply(ctx, q, bc, acc, bc, bc, next, next);
            proof {
                let g0 = c0.gates.len() as int;
                let n0 = c0.cells.len() as int;
                assert(gs1.drop_last() == gs0);
                assert(ctx.gates@ == gs1.push(ctx.gates@.last()));
                assert(coeff_vals(q) =~= seq![(pow2(i as nat) as int) % m, 1, 0, 0, m - 1, 0, 0, 0, 0, 0, 0, 0, 0]);
                assert forall|j: int| 0 <= j < i + 1 implies #[trigger] bit_rows_at(ctx.gates@, g0, n0, j) by {
                    if j < i {
                        assert(bit_rows_at(gs0, g0, n0, j));
                        assert(ctx.gates@[g0 + 1 + 2 * j] == gs0[g0 + 1 + 2 * j]);
                        assert(ctx.gates@[g0 + 2 + 2 * j] == gs0[g0 + 2 + 2 * j]);
                    } else {
                        assert(ctx.gates@[g0 + 1 + 2 * j] == gs1.last());
                        assert(ctx.gates@[g0 + 2 + 2 * j] == ctx.gates@.last());
                    }
                }
                assert(ctx.gates@[g0] == gs0[g0]);
            }
            acc = next;
            pw = fe_add(pw, pw);
            r.push(bc);
            i = i + 1;
        }
        proof {
            assert(bits@.subrange(0, n as int) =~= bits@);
            vstd::arithmetic::div_mod::lemma_small_mod(av.val() as nat, m as nat);
            assert(ctx.cells@[a as int] == c0.cells@[a as int]);
        }
        let ghost gs2 = ctx.gates@;
        self.assert_equal(ctx, acc, a);
        proof {
            assert(Seq::new(n as nat, |i: int| ctx.val(r@[i]) == 1) =~= bits@);
            let g0 = c0.gates.len() as int;
            let n0 = c0.cells.len() as int;
            assert forall|j: int| 0 <= j < n implies #[trigger] bit_rows_at(ctx.gates@, g0, n0, j) by {
                assert(bit_rows_at(gs2, g0, n0, j));
                assert(ctx.gates@[g0 + 1 + 2 * j] == gs2[g0 + 1 + 2 * j]);
                assert(ctx.gates@[g0 + 2 + 2 * j] == gs2[g0 + 2 + 2 * j]);
            }
            assert(ctx.gates@[g0] == gs2[g0]);
        }
        r
    }
}

/// The two rows of bit `j` of `to_bits`, for a decomposition whose gates
/// start at `g0` and whose cells start at `n0`: the booleanity row on the bit
/// cell `n0 + 1 + 2j`, and the accumulator row `2^j b + acc - acc' = 0` from
/// cell `n0 + 2j` to cell `n0 + 2 + 2j`.
pub open spec fn bit_rows_at(gates: Seq<Gate>, g0: int, n0: int, j: int) -> bool {
    let b = (n0 + 1 + 2 * j) as usize;
    let acc = (n0 + 2 * j) as usize;
    let next = (n0 + 2 + 2 * j) as usize;
    &&& main_row(gates[g0 + 1 + 2 * j], seq![b, b, b, b, b, b], seq![modulus() - 1, 0, 0, 0, 0, 0, 1, 0, 0, 0, 0, 0, 0])
    &&& main_row(gates[g0 + 2 + 2 * j], seq![b, acc, b, b, next, next],
        seq![(pow2(j as nat) as int) % modulus(), 1, 0, 0, modulus() - 1, 0, 0, 0, 0, 0, 0, 0, 0])
}

/// The rows that `to_bits` lays, which depend on the starting positions, the
/// decomposed cell `a` and `n` alone, never on the value decomposed: the
/// zero start of the accumulator, two rows per bit, and the copy constraint
/// from the last accumulator to `a`.
pub open spec fn to_bits_rows(gates: Seq<Gate>, g0: int, n0: int, a: usize, n: int) -> bool {
    &&& main_row(gates[g0], seq![n0 as usize, n0 as usize, n0 as usize, n0 as usize, n0 as usize, n0 as usize],
        seq![1, 0, 0, 0, 0, 0, 0, 0, 0, 0, 0, 0, 0])
    &&& forall|j: int| 0 <= j < n ==> #[trigger] bit_rows_at(gates, g0, n0, j)
    &&& gates[g0 + 1 + 2 * n] == Gate::Equal { l: (n0 + 2 * n) as usize, r: a }
}

/// The row of `select` holds: `c a - c b + b - e = 0` for a bit `c` and
/// `e = c ? a : b`.
proof fn lemma_select_row(q: MainGateCoeffs, c: int, a: int, b: int, e: int)
    requires
        q.wf(),
        q.sa.val() == 0 && q.sb.val() == 0 && q.sc.val() == 0,
        q.se_next.val() == 0 && q.s_constant.val() == 0,
        q.q_h1.val() == 0 && q.q_h2.val() == 0 && q.q_h3.val() == 0 && q.q_h4.val() == 0,
        q.s_mul_ab.val() == 1,
        q.s_mul_cd.val() == modulus() - 1,
        q.sd.val() == 1,
        q.se.val() == modulus() - 1,
        c == 0 || c == 1,
        0 <= a < modulus(),
        0 <= b < modulus(),
        e == (if c == 1 { a } else { b }),
    ensures
        main_gate_value(q, c, a, c, b, e, e) == 0,
{
    crate::field::lemma_modulus_bounds();
    let m = modulus();
    lemma_field_basics(0);
    lemma_field_basics(1);
    lemma_field_basics(a);
    lemma_field_basics(b);
    lemma_field_basics(e);
    let ne = fmul(m - 1, e);
    vstd::arithmetic::div_mod::lemma_mod_bound((m - 1) * e, m);
    lemma_field_basics(ne);
    // the terms, in the order of the main gate's polynomial
    let t1 = fadd(fmul(0, c), fmul(0, a));
    let t2 = fadd(t1, fmul(0, c));
    let t3 = fadd(t2, fmul(1, b));
    let t4 = fadd(t3, ne);
    let t5 = fadd(t4, fmul(1, fmul(c, a)));
    let t6 = fadd(t5, fmul(m - 1, fmul(c, b)));
    assert(t3 == b);
    assert(t4 == (b + (m - 1) * e) % m) by {
        vstd::arithmetic::div_mod::lemma_add_mod_noop_right(b, (m - 1) * e, m);
    }
    if c == 1 {
        assert(fmul(c, a) == a);
        assert(fmul(c, b) == b);
        vstd::arithmetic::div_mod::lemma_mod_bound(b + (m - 1) * e, m);
        lemma_fadd_mod(b + (m - 1) * e, a);
        assert(t5 == (b + (m - 1) * a + a) % m);
        vstd::arithmetic::div_mod::lemma_mod_bound((m - 1) * b, m);
        lemma_fadd_mod(b + (m - 1) * a + a, (m - 1) * b);
        assert(b + (m - 1) * a + a + (m - 1) * b == (a + b) * m) by (nonlinear_arith);
        vstd::arithmetic::div_mod::lemma_mod_multiples_basic(a + b, m);
    } else {
        assert(fmul(c, a) == 0);
        assert(fmul(c, b) == 0);
        assert(t4 == 0);
        lemma_field_basics(t4);
    }
    vstd::arithmetic::div_mod::lemma_mod_bound(t5 + fmul(m - 1, fmul(c, b)), m);
    lemma_field_basics(t6);
    vstd::arithmetic::div_mod::lemma_mod_bound(t6 + fmul(0, fmul(e, e)), m);
}

/// `-a + x = 0` exactly when `x = a`, for reduced `a` and `x`.
proof fn lemma_neg_add_zero(a: int, x: int)
    requires
        0 <= a < modulus(),
        0 <= x < modulus(),
    ensures
        (fadd(fmul(modulus() - 1, a), x) == 0) <==> (x == a),
{
    crate::field::lemma_modulus_bounds();
    let m = modulus();
    vstd::arithmetic::div_mod::lemma_add_mod_noop_right(x, (m - 1) * a, m);
    assert(fadd(fmul(m - 1, a), x) == (x + (m - 1) * a) % m);
    assert(x + (m - 1) * a == m * a + (x - a)) by (nonlinear_arith);
    vstd::arithmetic::div_mod::lemma_mod_multiples_vanish(a, x - a, m);
    assert(fadd(fmul(m - 1, a), x) == (x - a) % m);
    if x >= a {
        vstd::arithmetic::div_mod::lemma_small_mod((x - a) as nat, m as nat);
        assert((x - a) % m == x - a);
    } else {
        vstd::arithmetic::div_mod::lemma_mod_add_multiples_vanish(x - a, m);
        vstd::arithmetic::div_mod::lemma_small_mod((x - a + m) as nat, m as nat);
        assert((m + (x - a)) % m == x - a + m);
        assert((x - a) % m == x - a + m);
        assert(x - a + m > 0);
    }
}

} // verus!
