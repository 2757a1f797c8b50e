//! The constraint system of one proof instance: a region of assigned cells,
//! each holding a field element, and the gates and copy constraints laid on
//! them. A cursor over the region is passed by reference through every
//! gadget, which appends cells and gates in program order.
use vstd::prelude::*;
use crate::field::{Fe, fadd, fsub, fmul, fpow, fe_add, fe_sub, fe_mul, fe_eq};
use crate::curve::{edwards_d, edwards_d_fe};

verus! {

/// Index of an assigned cell in its region.
pub type AssignedValue = usize;

/// An assigned cell holding a boolean.
pub type AssignedCondition = usize;

/// The fixed coefficients of one row of the main gate, whose identity is
/// `sa a + sb b + sc c + sd d + se e + s_mul_ab a b + s_mul_cd c d
///  + se_next e_next + s_constant + q_h1 a^5 + q_h2 b^5 + q_h3 c^5 + q_h4 d^5 = 0`.
#[derive(Clone, Copy, Debug)]
pub struct MainGateCoeffs {
    pub sa: Fe,
    pub sb: Fe,
    pub sc: Fe,
    pub sd: Fe,
    pub se: Fe,
    pub se_next: Fe,
    pub s_mul_ab: Fe,
    pub s_mul_cd: Fe,
    pub s_constant: Fe,
    pub q_h1: Fe,
    pub q_h2: Fe,
    pub q_h3: Fe,
    pub q_h4: Fe,
}

impl MainGateCoeffs {
    pub open spec fn wf(self) -> bool {
        &&& self.sa.wf() && self.sb.wf() && self.sc.wf() && self.sd.wf() && self.se.wf()
        &&& self.se_next.wf() && self.s_mul_ab.wf() && self.s_mul_cd.wf() && self.s_constant.wf()
        &&& self.q_h1.wf() && self.q_h2.wf() && self.q_h3.wf() && self.q_h4.wf()
    }

    /// All coefficients zero.
    pub fn zero() -> (r: MainGateCoeffs)
        ensures
            r.wf(),
            r.sa.val() == 0 && r.sb.val() == 0 && r.sc.val() == 0 && r.sd.val() == 0 && r.se.val() == 0,
            r.se_next.val() == 0 && r.s_mul_ab.val() == 0 && r.s_mul_cd.val() == 0,
            r.s_constant.val() == 0,
            r.q_h1.val() == 0 && r.q_h2.val() == 0 && r.q_h3.val() == 0 && r.q_h4.val() == 0,
    {
        let z = Fe::zero();
        MainGateCoeffs {
            sa: z,
            sb: z,
            sc: z,
            sd: z,
            se: z,
            se_next: z,
            s_mul_ab: z,
            s_mul_cd: z,
            s_constant: z,
            q_h1: z,
            q_h2: z,
            q_h3: z,
            q_h4: z,
        }
    }
}

/// The value of the main gate's polynomial on one row, in the field.
pub open spec fn main_gate_value(q: MainGateCoeffs, a: int, b: int, c: int, d: int, e: int, en: int) -> int {
    let t1 = fadd(fmul(q.sa.val(), a), fmul(q.sb.val(), b));
    let t2 = fadd(t1, fmul(q.sc.val(), c));
    let t3 = fadd(t2, fmul(q.sd.val(), d));
    let t4 = fadd(t3, fmul(q.se.val(), e));
    let t5 = fadd(t4, fmul(q.s_mul_ab.val(), fmul(a, b)));
    let t6 = fadd(t5, fmul(q.s_mul_cd.val(), fmul(c, d)));
    let t7 = fadd(t6, fmul(q.se_next.val(), en));
    let t8 = fadd(t7, q.s_constant.val());
    let t9 = fadd(t8, fmul(q.q_h1.val(), fpow(a, 5)));
    let t10 = fadd(t9, fmul(q.q_h2.val(), fpow(b, 5)));
    let t11 = fadd(t10, fmul(q.q_h3.val(), fpow(c, 5)));
    fadd(t11, fmul(q.q_h4.val(), fpow(d, 5)))
}

/// `-x^2 + y^2 - (1 + d x^2 y^2)`, zero exactly on the curve.
pub open spec fn curve_eqn_value(x: int, y: int) -> int {
    fsub(fsub(fmul(y, y), fmul(x, x)), fadd(1, fmul(fmul(edwards_d(), fmul(x, x)), fmul(y, y))))
}

/// The values of a row's thirteen coefficients, in the order `sa, sb, sc,
/// sd, se, se_next, s_mul_ab, s_mul_cd, s_constant, q_h1, q_h2, q_h3, q_h4`.
pub open spec fn coeff_vals(q: MainGateCoeffs) -> Seq<int> {
    seq![
        q.sa.val(), q.sb.val(), q.sc.val(), q.sd.val(), q.se.val(), q.se_next.val(), q.s_mul_ab.val(),
        q.s_mul_cd.val(), q.s_constant.val(), q.q_h1.val(), q.q_h2.val(), q.q_h3.val(), q.q_h4.val(),
    ]
}

/// `g` is a row of the main gate over the cells `a, b, c, d, e, e_next`
/// (in that order in `cells`) with the coefficient values `coeffs`.
pub open spec fn main_row(g: Gate, cells: Seq<usize>, coeffs: Seq<int>) -> bool {
    match g {
        Gate::Main { q, a, b, c, d, e, e_next } => seq![a, b, c, d, e, e_next] == cells && coeff_vals(q) == coeffs,
        _ => false,
    }
}

/// A constraint over cells of the region.
#[derive(Clone, Copy, Debug)]
pub enum Gate {
    /// One row of the main gate over the cells `a, b, c, d, e` and the next
    /// row's `e`.
    Main { q: MainGateCoeffs, a: usize, b: usize, c: usize, d: usize, e: usize, e_next: usize },
    /// Complete addition: `(xr, yr) = (xp, yp) + (xq, yq)`, stated without
    /// division as `xr (1 + l) = xp yq + xq yp` and `yr (1 - l) = xp xq + yp yq`
    /// with `l = d xp xq yp yq`.
    Add { xp: usize, yp: usize, xq: usize, yq: usize, xr: usize, yr: usize },
    /// `x * curve_eqn(x, y) = 0` and `y * curve_eqn(x, y) = 0`: the point is on
    /// the curve, or is `(0, 0)`.
    PointOrZero { x: usize, y: usize },
    /// Copy constraint: the two cells hold the same value.
    Equal { l: usize, r: usize },
}

pub open spec fn add_gate_holds(xp: int, yp: int, xq: int, yq: int, xr: int, yr: int) -> bool {
    let l = fmul(fmul(fmul(fmul(edwards_d(), xp), xq), yp), yq);
    &&& fmul(xr, fadd(1, l)) == fadd(fmul(xp, yq), fmul(xq, yp))
    &&& fmul(yr, fsub(1, l)) == fadd(fmul(xp, xq), fmul(yp, yq))
}

pub open spec fn gate_cells_in(g: Gate, n: int) -> bool {
    match g {
        Gate::Main { q, a, b, c, d, e, e_next } => q.wf() && a < n && b < n && c < n && d < n && e < n && e_next < n,
        Gate::Add { xp, yp, xq, yq, xr, yr } => xp < n && yp < n && xq < n && yq < n && xr < n && yr < n,
        Gate::PointOrZero { x, y } => x < n && y < n,
        Gate::Equal { l, r } => l < n && r < n,
    }
}

pub open spec fn gate_holds(g: Gate, cells: Seq<Fe>) -> bool {
    match g {
        Gate::Main { q, a, b, c, d, e, e_next } => main_gate_value(
            q,
            cells[a as int].val(),
            cells[b as int].val(),
            cells[c as int].val(),
            cells[d as int].val(),
            cells[e as int].val(),
            cells[e_next as int].val(),
        ) == 0,
        Gate::Add { xp, yp, xq, yq, xr, yr } => add_gate_holds(
            cells[xp as int].val(),
            cells[yp as int].val(),
            cells[xq as int].val(),
            cells[yq as int].val(),
            cells[xr as int].val(),
            cells[yr as int].val(),
        ),
        Gate::PointOrZero { x, y } => {
            let ce = curve_eqn_value(cells[x as int].val(), cells[y as int].val());
            fmul(cells[x as int].val(), ce) == 0 && fmul(cells[y as int].val(), ce) == 0
        },
        Gate::Equal { l, r } => cells[l as int].val() == cells[r as int].val(),
    }
}

/// The cells and constraints of one region, with its cursor at the end.
#[derive(Debug)]
pub struct RegionCtx {
    pub cells: Vec<Fe>,
    pub gates: Vec<Gate>,
}

impl RegionCtx {
    /// Every cell holds a field element and every gate refers to cells of the region.
    pub open spec fn wf(&self) -> bool {
        &&& forall|i: int| 0 <= i < self.cells.len() ==> (#[trigger] self.cells@[i]).wf()
        &&& forall|i: int| 0 <= i < self.gates.len() ==> gate_cells_in(#[trigger] self.gates@[i], self.cells.len() as int)
    }

    pub open spec fn val(&self, c: usize) -> int {
        self.cells@[c as int].val()
    }

    /// Every constraint holds on the assigned values.
    pub open spec fn satisfied(&self) -> bool {
        forall|i: int| 0 <= i < self.gates.len() ==> gate_holds(#[trigger] self.gates@[i], self.cells@)
    }

    /// The cells and gates of `self` are kept, in order, by `other`.
    pub open spec fn extended_by(&self, other: &RegionCtx) -> bool {
        &&& self.cells@.is_prefix_of(other.cells@)
        &&& self.gates@.is_prefix_of(other.gates@)
    }

    /// An empty region.
    pub fn new() -> (r: RegionCtx)
        ensures
            r.wf(),
            r.cells.len() == 0,
            r.gates.len() == 0,
    {
        RegionCtx { cells: Vec::new(), gates: Vec::new() }
    }

    /// The value assigned to cell `c`.
    pub fn value(&self, c: AssignedValue) -> (r: Fe)
        requires
            self.wf(),
            c < self.cells.len(),
        ensures
            r == self.cells@[c as int],
            r.wf(),
    {
        self.cells[c]
    }

    /// Assigns `v` to the next cell.
    pub fn assign_advice(&mut self, v: Fe) -> (r: AssignedValue)
        requires
            old(self).wf(),
            v.wf(),
        ensures
            final(self).wf(),
            r == old(self).cells.len(),
            final(self).cells@ == old(self).cells@.push(v),
            final(self).gates@ == old(self).gates@,
            old(self).satisfied() ==> final(self).satisfied(),
    {
        let ghost before = self.cells@;
        self.cells.push(v);
        proof {
            assert forall|i: int| 0 <= i < self.gates.len() implies gate_cells_in(#[trigger] self.gates@[i], self.cells.len() as int) by {
                assert(gate_cells_in(self.gates@[i], before.len() as int));
            }
            assert forall|i: int| 0 <= i < self.gates.len() && gate_holds(self.gates@[i], before)
                implies #[trigger] gate_holds(self.gates@[i], self.cells@) by {
                assert(gate_cells_in(self.gates@[i], before.len() as int));
                match self.gates@[i] {
                    Gate::Main { q, a, b, c, d, e, e_next } => {
                        assert(self.cells@[a as int] == before[a as int]);
                        assert(self.cells@[b as int] == before[b as int]);
                        assert(self.cells@[c as int] == before[c as int]);
                        assert(self.cells@[d as int] == before[d as int]);
                        assert(self.cells@[e as int] == before[e as int]);
                        assert(self.cells@[e_next as int] == before[e_next as int]);
                    },
                    Gate::Add { xp, yp, xq, yq, xr, yr } => {
                        assert(self.cells@[xp as int] == before[xp as int]);
                        assert(self.cells@[yp as int] == before[yp as int]);
                        assert(self.cells@[xq as int] == before[xq as int]);
                        assert(self.cells@[yq as int] == before[yq as int]);
                        assert(self.cells@[xr as int] == before[xr as int]);
                        assert(self.cells@[yr as int] == before[yr as int]);
                    },
                    Gate::PointOrZero { x, y } => {
                        assert(self.cells@[x as int] == before[x as int]);
                        assert(self.cells@[y as int] == before[y as int]);
                    },
                    Gate::Equal { l, r } => {
                        assert(self.cells@[l as int] == before[l as int]);
                        assert(self.cells@[r as int] == before[r as int]);
                    },
                }
            }
        }
        self.cells.len() - 1
    }

    /// Lays the constraint `g` on cells of the region.
    pub fn enable(&mut self, g: Gate)
        requires
            old(self).wf(),
            gate_cells_in(g, old(self).cells.len() as int),
        ensures
            final(self).wf(),
            final(self).cells@ == old(self).cells@,
            final(self).gates@ == old(self).gates@.push(g),
            final(self).satisfied() <==> (old(self).satisfied() && gate_holds(g, old(self).cells@)),
    {
        let ghost before = self.gates@;
        self.gates.push(g);
        proof {
            assert forall|i: int| 0 <= i < self.gates.len() implies gate_cells_in(#[trigger] self.gates@[i], self.cells.len() as int) by {
                if i < before.len() {
                    assert(self.gates@[i] == before[i]);
                }
            }
            if self.satisfied() {
                assert forall|i: int| 0 <= i < before.len() implies gate_holds(#[trigger] before[i], self.cells@) by {
                    assert(self.gates@[i] == before[i]);
                }
                assert(self.gates@[before.len() as int] == g);
            }
            if old(self).satisfied() && gate_holds(g, self.cells@) {
                assert forall|i: int| 0 <= i < self.gates.len() implies gate_holds(#[trigger] self.gates@[i], self.cells@) by {
                    if i < before.len() {
                        assert(self.gates@[i] == before[i]);
                    }
                }
            }
        }
    }

    /// Constrains two cells to hold the same value.
    pub fn constrain_equal(&mut self, l: AssignedValue, r: AssignedValue)
        requires
            old(self).wf(),
            l < old(self).cells.len(),
            r < old(self).cells.len(),
        ensures
            final(self).wf(),
            final(self).cells@ == old(self).cells@,
            final(self).gates@ == old(self).gates@.push(Gate::Equal { l, r }),
            final(self).satisfied() <==> (old(self).satisfied() && old(self).val(l) == old(self).val(r)),
    {
        self.enable(Gate::Equal { l, r });
    }

    /// Whether every constraint of the region holds on its values.
    pub fn is_satisfied(&self) -> (r: bool)
        requires
            self.wf(),
        ensures
            r == self.satisfied(),
    {
        let mut i: usize = 0;
        while i < self.gates.len()
            invariant
                self.wf(),
                i <= self.gates.len(),
                forall|j: int| 0 <= j < i ==> gate_holds(#[trigger] self.gates@[j], self.cells@),
            decreases self.gates.len() - i,
        {
            let ok = self.check_gate(&self.gates[i]);
            if !ok {
                return false;
            }
            i = i + 1;
        }
        true
    }

    /// Whether the constraint `g` holds on the region's values.
    pub fn check_gate(&self, g: &Gate) -> (r: bool)
        requires
            self.wf(),
            gate_cells_in(*g, self.cells.len() as int),
        ensures
            r == gate_holds(*g, self.cells@),
    {
        match *g {
            Gate::Main { q, a, b, c, d, e, e_next } => {
                let v = eval_main_gate(&q, self.cells[a], self.cells[b], self.cells[c], self.cells[d], self.cells[e], self.cells[e_next]);
                fe_eq(v, Fe::zero())
            },
            Gate::Add { xp, yp, xq, yq, xr, yr } => {
                check_add_gate(self.cells[xp], self.cells[yp], self.cells[xq], self.cells[yq], self.cells[xr], self.cells[yr])
            },
            Gate::PointOrZero { x, y } => {
                let xv = self.cells[x];
                let yv = self.cells[y];
                let ce = eval_curve_eqn(xv, yv);
                let z = Fe::zero();
                fe_eq(fe_mul(xv, ce), z) && fe_eq(fe_mul(yv, ce), z)
            },
            Gate::Equal { l, r } => fe_eq(self.cells[l], self.cells[r]),
        }
    }
}

/// The main gate's polynomial on one row; terms whose coefficient is zero
/// are skipped.
pub fn eval_main_gate(q: &MainGateCoeffs, a: Fe, b: Fe, c: Fe, d: Fe, e: Fe, en: Fe) -> (r: Fe)
    requires
        q.wf(),
        a.wf() && b.wf() && c.wf() && d.wf() && e.wf() && en.wf(),
    ensures
        r.wf(),
        r.val() == main_gate_value(*q, a.val(), b.val(), c.val(), d.val(), e.val(), en.val()),
{
    let t = fe_add(term(q.sa, a), term(q.sb, b));
    let t = add_term(t, q.sc, c);
    let t = add_term(t, q.sd, d);
    let t = add_term(t, q.se, e);
    let t = if is_zero(&q.s_mul_ab) {
        proof { lemma_skip_term(t.val(), fmul(a.val(), b.val())); }
        t
    } else {
        fe_add(t, fe_mul(q.s_mul_ab, fe_mul(a, b)))
    };
    let t = if is_zero(&q.s_mul_cd) {
        proof { lemma_skip_term(t.val(), fmul(c.val(), d.val())); }
        t
    } else {
        fe_add(t, fe_mul(q.s_mul_cd, fe_mul(c, d)))
    };
    let t = add_term(t, q.se_next, en);
    let t = if is_zero(&q.s_constant) {
        proof {
            crate::field::lemma_field_basics(t.val());
        }
        t
    } else {
        fe_add(t, q.s_constant)
    };
    let t = if is_zero(&q.q_h1) {
        proof { lemma_skip_term(t.val(), fpow(a.val(), 5)); }
        t
    } else {
        fe_add(t, fe_mul(q.q_h1, pow5(a)))
    };
    let t = if is_zero(&q.q_h2) {
        proof { lemma_skip_term(t.val(), fpow(b.val(), 5)); }
        t
    } else {
        fe_add(t, fe_mul(q.q_h2, pow5(b)))
    };
    let t = if is_zero(&q.q_h3) {
        proof { lemma_skip_term(t.val(), fpow(c.val(), 5)); }
        t
    } else {
        fe_add(t, fe_mul(q.q_h3, pow5(c)))
    };
    if is_zero(&q.q_h4) {
        proof { lemma_skip_term(t.val(), fpow(d.val(), 5)); }
        t
    } else {
        fe_add(t, fe_mul(q.q_h4, pow5(d)))
    }
}

/// A zero coefficient adds nothing.
proof fn lemma_skip_term(t: int, y: int)
    requires
        0 <= t < crate::field::modulus(),
    ensures
        fadd(t, fmul(0, y)) == t,
{
    crate::field::lemma_modulus_bounds();
    assert(0 * y == 0);
    vstd::arithmetic::div_mod::lemma_small_mod(0, crate::field::modulus() as nat);
    crate::field::lemma_field_basics(t);
}

/// `c * x`, without multiplying where `c` is zero.
fn term(c: Fe, x: Fe) -> (r: Fe)
    requires
        c.wf(),
        x.wf(),
    ensures
        r.wf(),
        r.val() == fmul(c.val(), x.val()),
{
    if is_zero(&c) {
        proof {
            crate::field::lemma_field_basics(x.val());
        }
        Fe::zero()
    } else {
        fe_mul(c, x)
    }
}

/// `t + c * x`, unchanged where `c` is zero.
fn add_term(t: Fe, c: Fe, x: Fe) -> (r: Fe)
    requires
        t.wf(),
        c.wf(),
        x.wf(),
    ensures
        r.wf(),
        r.val() == fadd(t.val(), fmul(c.val(), x.val())),
{
    if is_zero(&c) {
        proof { lemma_skip_term(t.val(), x.val()); }
        t
    } else {
        fe_add(t, fe_mul(c, x))
    }
}

/// Whether all the bytes of `a` are zero; then `a` is zero.
fn is_zero(a: &Fe) -> (r: bool)
    ensures
        r ==> a.val() == 0,
{
    let mut i: usize = 0;
    while i < 32
        invariant
            i <= 32,
            forall|j: int| 0 <= j < i ==> a.bytes@[j] == 0,
        decreases 32 - i,
    {
        if a.bytes[i] != 0 {
            return false;
        }
        i = i + 1;
    }
    proof {
        lemma_bytes_zero(a.bytes@);
    }
    true
}

proof fn lemma_bytes_zero(s: Seq<u8>)
    requires
        forall|j: int| 0 <= j < s.len() ==> s[j] == 0,
    ensures
        crate::field::bytes_val(s) == 0,
    decreases s.len(),
{
    if s.len() > 0 {
        lemma_bytes_zero(s.drop_first());
    }
}

/// `a^5` by five multiplications.
fn pow5(a: Fe) -> (r: Fe)
    requires
        a.wf(),
    ensures
        r.wf(),
        r.val() == fpow(a.val(), 5),
{
    let mut r = Fe::one();
    let mut i: usize = 0;
    while i < 5
        invariant
            i <= 5,
            a.wf(),
            r.wf(),
            r.val() == fpow(a.val(), i as nat),
        decreases 5 - i,
    {
        r = fe_mul(a, r);
        i = i + 1;
    }
    r
}

/// `-x^2 + y^2 - (1 + d x^2 y^2)`.
pub fn eval_curve_eqn(x: Fe, y: Fe) -> (r: Fe)
    requires
        x.wf(),
        y.wf(),
    ensures
        r.wf(),
        r.val() == curve_eqn_value(x.val(), y.val()),
{
    let d = edwards_d_fe();
    let xx = fe_mul(x, x);
    let yy = fe_mul(y, y);
    fe_sub(fe_sub(yy, xx), fe_add(Fe::one(), fe_mul(fe_mul(d, xx), yy)))
}

/// Whether the complete-addition constraint holds on the six values.
pub fn check_add_gate(xp: Fe, yp: Fe, xq: Fe, yq: Fe, xr: Fe, yr: Fe) -> (r: bool)
    requires
        xp.wf() && yp.wf() && xq.wf() && yq.wf() && xr.wf() && yr.wf(),
    ensures
        r == add_gate_holds(xp.val(), yp.val(), xq.val(), yq.val(), xr.val(), yr.val()),
{
    let d = edwards_d_fe();
    let l = fe_mul(fe_mul(fe_mul(fe_mul(d, xp), xq), yp), yq);
    let one = Fe::one();
    let lhs1 = fe_mul(xr, fe_add(one, l));
    let rhs1 = fe_add(fe_mul(xp, yq), fe_mul(xq, yp));
    let lhs2 = fe_mul(yr, fe_sub(one, l));
    let rhs2 = fe_add(fe_mul(xp, xq), fe_mul(yp, yq));
    fe_eq(lhs1, rhs1) && fe_eq(lhs2, rhs2)
}

/// A row of the main gate whose `c`, `d`, next-row, `c d` and fifth-power
/// coefficients are zero reduces to `sa a + sb b + se e + s_mul_ab a b + s_constant`.
pub proof fn lemma_main_gate_sparse(q: MainGateCoeffs, a: int, b: int, c: int, d: int, e: int, en: int)
    requires
        q.wf(),
        q.sc.val() == 0,
        q.sd.val() == 0,
        q.se_next.val() == 0,
        q.s_mul_cd.val() == 0,
        q.q_h1.val() == 0,
        q.q_h2.val() == 0,
        q.q_h3.val() == 0,
        q.q_h4.val() == 0,
    ensures
        main_gate_value(q, a, b, c, d, e, en) == fadd(
            fadd(fadd(fadd(fmul(q.sa.val(), a), fmul(q.sb.val(), b)), fmul(q.se.val(), e)), fmul(q.s_mul_ab.val(), fmul(a, b))),
            q.s_constant.val(),
        ),
{
    crate::field::lemma_modulus_bounds();
    let m = crate::field::modulus();
    let t1 = fadd(fmul(q.sa.val(), a), fmul(q.sb.val(), b));
    assert(forall|y: int| #[trigger] fmul(0, y) == 0) by {
        assert forall|y: int| #[trigger] fmul(0, y) == 0 by {
            assert(0 * y == 0);
            vstd::arithmetic::div_mod::lemma_small_mod(0, m as nat);
        }
    }
    assert(forall|t: int| 0 <= t < m ==> #[trigger] fadd(t, 0) == t) by {
        assert forall|t: int| 0 <= t < m implies #[trigger] fadd(t, 0) == t by {
            vstd::arithmetic::div_mod::lemma_small_mod(t as nat, m as nat);
        }
    }
    vstd::arithmetic::div_mod::lemma_mod_bound(fmul(q.sa.val(), a) + fmul(q.sb.val(), b), m);
    let t4 = fadd(t1, fmul(q.se.val(), e));
    vstd::arithmetic::div_mod::lemma_mod_bound(t1 + fmul(q.se.val(), e), m);
    let t5 = fadd(t4, fmul(q.s_mul_ab.val(), fmul(a, b)));
    vstd::arithmetic::div_mod::lemma_mod_bound(t4 + fmul(q.s_mul_ab.val(), fmul(a, b)), m);
    let t8 = fadd(t5, q.s_constant.val());
    vstd::arithmetic::div_mod::lemma_mod_bound(t5 + q.s_constant.val(), m);
}

/// A region that extends another keeps its cells' values.
pub proof fn lemma_extended_val(c1: &RegionCtx, c2: &RegionCtx, i: usize)
    requires
        c1.extended_by(c2),
        i < c1.cells.len(),
    ensures
        c2.val(i) == c1.val(i),
        i < c2.cells.len(),
        c2.cells@[i as int] == c1.cells@[i as int],
{
    assert(c1.cells@ =~= c2.cells@.subrange(0, c1.cells.len() as int));
    assert(c1.cells@[i as int] == c2.cells@.subrange(0, c1.cells.len() as int)[i as int]);
}

/// Extension is transitive.
pub proof fn lemma_extended_trans(c1: &RegionCtx, c2: &RegionCtx, c3: &RegionCtx)
    requires
        c1.extended_by(c2),
        c2.extended_by(c3),
    ensures
        c1.extended_by(c3),
{
    assert(c1.cells@ =~= c3.cells@.subrange(0, c1.cells.len() as int)) by {
        assert(c1.cells@ =~= c2.cells@.subrange(0, c1.cells.len() as int));
        assert(c2.cells@ =~= c3.cells@.subrange(0, c2.cells.len() as int));
    }
    assert(c1.gates@ =~= c3.gates@.subrange(0, c1.gates.len() as int)) by {
        assert(c1.gates@ =~= c2.gates@.subrange(0, c1.gates.len() as int));
        assert(c2.gates@ =~= c3.gates@.subrange(0, c2.gates.len() as int));
    }
}

/// A gate over cells of a prefix holds on the prefix exactly when it holds on
/// the whole.
pub proof fn lemma_gate_holds_prefix(g: Gate, c1: Seq<Fe>, c2: Seq<Fe>)
    requires
        gate_cells_in(g, c1.len() as int),
        c1.is_prefix_of(c2),
    ensures
        gate_holds(g, c1) == gate_holds(g, c2),
{
    assert(c1 =~= c2.subrange(0, c1.len() as int));
    assert forall|i: int| 0 <= i < c1.len() implies #[trigger] c1[i] == c2[i] by {
        assert(c1[i] == c2.subrange(0, c1.len() as int)[i]);
    }
    match g {
        Gate::Main { q, a, b, c, d, e, e_next } => {
            assert(c1[a as int] == c2[a as int]);
            assert(c1[b as int] == c2[b as int]);
            assert(c1[c as int] == c2[c as int]);
            assert(c1[d as int] == c2[d as int]);
            assert(c1[e as int] == c2[e as int]);
            assert(c1[e_next as int] == c2[e_next as int]);
        },
        Gate::Add { xp, yp, xq, yq, xr, yr } => {
            assert(c1[xp as int] == c2[xp as int]);
            assert(c1[yp as int] == c2[yp as int]);
            assert(c1[xq as int] == c2[xq as int]);
            assert(c1[yq as int] == c2[yq as int]);
            assert(c1[xr as int] == c2[xr as int]);
            assert(c1[yr as int] == c2[yr as int]);
        },
        Gate::PointOrZero { x, y } => {
            assert(c1[x as int] == c2[x as int]);
            assert(c1[y as int] == c2[y as int]);
        },
        Gate::Equal { l, r } => {
            assert(c1[l as int] == c2[l as int]);
            assert(c1[r as int] == c2[r as int]);
        },
    }
}

/// Where a region is satisfied, so is every region it extends.
pub proof fn lemma_satisfied_prefix(c1: &RegionCtx, c2: &RegionCtx)
    requires
        c1.wf(),
        c1.extended_by(c2),
        c2.satisfied(),
    ensures
        c1.satisfied(),
{
    assert forall|i: int| 0 <= i < c1.gates.len() implies gate_holds(#[trigger] c1.gates@[i], c1.cells@) by {
        assert(c1.gates@ =~= c2.gates@.subrange(0, c1.gates.len() as int));
        assert(c1.gates@[i] == c2.gates@.subrange(0, c1.gates.len() as int)[i]);
        assert(gate_holds(c2.gates@[i], c2.cells@));
        lemma_gate_holds_prefix(c1.gates@[i], c1.cells@, c2.cells@);
    }
}

/// A row whose only coefficients are `q_h1 = 1` and `se = -1` evaluates to
/// `a^5 - e`.
pub proof fn lemma_main_gate_pow_row(q: MainGateCoeffs, a: int, e: int)
    requires
        q.wf(),
        q.sa.val() == 0 && q.sb.val() == 0 && q.sc.val() == 0 && q.sd.val() == 0,
        q.se_next.val() == 0 && q.s_mul_ab.val() == 0 && q.s_mul_cd.val() == 0 && q.s_constant.val() == 0,
        q.q_h1.val() == 1 && q.q_h2.val() == 0 && q.q_h3.val() == 0 && q.q_h4.val() == 0,
        q.se.val() == crate::field::modulus() - 1,
        0 <= a < crate::field::modulus(),
        0 <= e < crate::field::modulus(),
    ensures
        main_gate_value(q, a, a, a, a, e, e) == fadd(fmul(crate::field::modulus() - 1, e), fpow(a, 5)),
{
    crate::field::lemma_modulus_bounds();
    let m = crate::field::modulus();
    crate::field::lemma_field_basics(0);
    assert(forall|y: int| #[trigger] fmul(0, y) == 0) by {
        assert forall|y: int| #[trigger] fmul(0, y) == 0 by {
            assert(0 * y == 0);
            vstd::arithmetic::div_mod::lemma_small_mod(0, m as nat);
        }
    }
    assert(forall|t: int| 0 <= t < m ==> #[trigger] fadd(t, 0) == t) by {
        assert forall|t: int| 0 <= t < m implies #[trigger] fadd(t, 0) == t by {
            vstd::arithmetic::div_mod::lemma_small_mod(t as nat, m as nat);
        }
    }
    let ne = fmul(m - 1, e);
    vstd::arithmetic::div_mod::lemma_mod_bound((m - 1) * e, m);
    crate::field::lemma_field_basics(ne);
    let p5 = fpow(a, 5);
    vstd::arithmetic::div_mod::lemma_mod_bound(a * fpow(a, 4), m);
    crate::field::lemma_field_basics(p5);
    vstd::arithmetic::div_mod::lemma_mod_bound(ne + p5, m);
    crate::field::lemma_field_basics(fadd(ne, p5));
}

/// A row whose product, next-row and fifth-power coefficients are zero and
/// whose `se` is `-1` evaluates to `sa a + sb b + sc c + sd d - e + s_constant`.
pub proof fn lemma_main_gate_linear_row(q: MainGateCoeffs, a: int, b: int, c: int, d: int, e: int)
    requires
        q.wf(),
        q.se_next.val() == 0 && q.s_mul_ab.val() == 0 && q.s_mul_cd.val() == 0,
        q.q_h1.val() == 0 && q.q_h2.val() == 0 && q.q_h3.val() == 0 && q.q_h4.val() == 0,
    ensures
        main_gate_value(q, a, b, c, d, e, e) == fadd(
            fadd(fadd(fadd(fadd(fmul(q.sa.val(), a), fmul(q.sb.val(), b)), fmul(q.sc.val(), c)), fmul(q.sd.val(), d)), fmul(q.se.val(), e)),
            q.s_constant.val(),
        ),
{
    crate::field::lemma_modulus_bounds();
    let m = crate::field::modulus();
    assert(forall|y: int| #[trigger] fmul(0, y) == 0) by {
        assert forall|y: int| #[trigger] fmul(0, y) == 0 by {
            assert(0 * y == 0);
            vstd::arithmetic::div_mod::lemma_small_mod(0, m as nat);
        }
    }
    assert(forall|t: int| 0 <= t < m ==> #[trigger] fadd(t, 0) == t) by {
        assert forall|t: int| 0 <= t < m implies #[trigger] fadd(t, 0) == t by {
            vstd::arithmetic::div_mod::lemma_small_mod(t as nat, m as nat);
        }
    }
    let t4 = fadd(fadd(fadd(fadd(fmul(q.sa.val(), a), fmul(q.sb.val(), b)), fmul(q.sc.val(), c)), fmul(q.sd.val(), d)), fmul(q.se.val(), e));
    let t3 = fadd(fadd(fadd(fmul(q.sa.val(), a), fmul(q.sb.val(), b)), fmul(q.sc.val(), c)), fmul(q.sd.val(), d));
    vstd::arithmetic::div_mod::lemma_mod_bound(t3 + fmul(q.se.val(), e), m);
    let t8 = fadd(t4, q.s_constant.val());
    vstd::arithmetic::div_mod::lemma_mod_bound(t4 + q.s_constant.val(), m);
}

} // verus!
