//! In-circuit operations on points of the curve: witnessing points and
//! scalars, complete and conditional addition, variable-base and fixed-base
//! scalar multiplication.
use vstd::prelude::*;
use vstd::arithmetic::power2::pow2;
use crate::field::{Fe, NUM_BITS, fadd, fsub, fmul, finv, modulus, bits_val, fe_add, fe_sub, fe_mul, fe_eq, fe_invert, lemma_field_basics, lemma_fadd_mod, lemma_fmul_mod};
use crate::curve::{Point, Scalar, SCALAR_NUM_BITS, on_curve_spec, native_add, native_double, edwards_add, edwards_d, edwards_d_fe, identity_spec, add_defined, add_lambda, ladder, ladder_bits, lemma_ladder_bits, scalar_modulus};
use crate::region::{RegionCtx, Gate, MainGateCoeffs, add_gate_holds, gate_holds, main_row, coeff_vals, AssignedValue, AssignedCondition, curve_eqn_value, main_gate_value, lemma_main_gate_sparse, lemma_extended_val, lemma_extended_trans};
use crate::main_gate::{MainGate, minus_one};

verus! {

/// A point held in two cells `(x, y)`: a point of the curve, or the
/// identity written `(0, 0)`.
#[derive(Clone, Copy, Debug)]
pub struct AssignedEccPoint {
    pub x: AssignedValue,
    pub y: AssignedValue,
}

impl AssignedEccPoint {
    /// Both cells belong to the region.
    pub open spec fn in_region(self, ctx: &RegionCtx) -> bool {
        self.x < ctx.cells.len() && self.y < ctx.cells.len()
    }

    /// The coordinates held in the region.
    pub open spec fn pv(self, ctx: &RegionCtx) -> (int, int) {
        (ctx.val(self.x), ctx.val(self.y))
    }

    /// A point from its coordinate cells, with no constraint on them.
    pub fn from_coordinates_unchecked(x: AssignedValue, y: AssignedValue) -> (r: AssignedEccPoint)
        ensures
            r.x == x && r.y == y,
    {
        AssignedEccPoint { x, y }
    }

    /// The cell of the x-coordinate, zero for the identity.
    pub fn x(&self) -> (r: AssignedValue)
        ensures
            r == self.x,
    {
        self.x
    }

    /// The cell of the y-coordinate, zero for the identity.
    pub fn y(&self) -> (r: AssignedValue)
        ensures
            r == self.y,
    {
        self.y
    }

    /// The point this pair of cells holds, the identity for `(0, 0)`.
    pub fn point(&self, ctx: &RegionCtx) -> (r: Point)
        requires
            ctx.wf(),
            self.in_region(ctx),
        ensures
            r.wf(),
            self.pv(ctx) == (0int, 0int) ==> r.pv() == identity_spec(),
            self.pv(ctx) != (0int, 0int) ==> r.pv() == self.pv(ctx),
    {
        let x = ctx.value(self.x);
        let y = ctx.value(self.y);
        let z = Fe::zero();
        if fe_eq(x, z) && fe_eq(y, z) {
            Point::identity()
        } else {
            Point { x, y }
        }
    }

    /// Whether the cells hold the identity, written `(0, 0)`.
    pub fn is_identity(&self, ctx: &RegionCtx) -> (r: bool)
        requires
            ctx.wf(),
            self.in_region(ctx),
        ensures
            r == (self.pv(ctx) == (0int, 0int)),
    {
        let z = Fe::zero();
        fe_eq(ctx.value(self.x), z) && fe_eq(ctx.value(self.y), z)
    }
}

/// The columns of a windowed scalar-multiplication layout: the base point,
/// the scalar and the result.
#[derive(Clone, Copy, Debug, PartialEq, Eq)]
pub struct MulConfig {
    pub x_p: usize,
    pub y_p: usize,
    pub a: usize,
    pub x_r: usize,
    pub y_r: usize,
}

impl MulConfig {
    /// The columns the layout reads, each once: the base point's coordinates
    /// and the scalar.
    pub fn advice_columns(&self) -> (r: Vec<usize>)
        ensures
            r@.no_duplicates(),
            r@.to_set() == set![self.x_p, self.y_p, self.a],
    {
        let mut r: Vec<usize> = Vec::new();
        push_distinct(&mut r, self.x_p);
        push_distinct(&mut r, self.y_p);
        push_distinct(&mut r, self.a);
        proof {
            assert(r@.to_set() =~= set![self.x_p, self.y_p, self.a]);
        }
        r
    }

    /// The columns the layout writes, each once: the result's coordinates.
    pub fn output_columns(&self) -> (r: Vec<usize>)
        ensures
            r@.no_duplicates(),
            r@.to_set() == set![self.x_r, self.y_r],
    {
        let mut r: Vec<usize> = Vec::new();
        push_distinct(&mut r, self.x_r);
        push_distinct(&mut r, self.y_r);
        proof {
            assert(r@.to_set() =~= set![self.x_r, self.y_r]);
        }
        r
    }
}

/// Appends `c` unless it is there already.
fn push_distinct(v: &mut Vec<usize>, c: usize)
    requires
        old(v)@.no_duplicates(),
    ensures
        final(v)@.no_duplicates(),
        final(v)@.to_set() == old(v)@.to_set().insert(c),
{
    let mut found = false;
    let mut i: usize = 0;
    while i < v.len()
        invariant
            i <= v.len(),
            found <==> exists|j: int| 0 <= j < i && v@[j] == c,
        decreases v.len() - i,
    {
        if v[i] == c {
            found = true;
        }
        i = i + 1;
    }
    let ghost before = v@;
    if found {
        proof {
            assert(before.to_set().contains(c));
            assert(before.to_set().insert(c) =~= before.to_set());
        }
    } else {
        v.push(c);
        proof {
            assert(!before.contains(c));
            assert(v@.to_set() =~= before.to_set().insert(c)) by {
                assert forall|x: usize| v@.contains(x) <==> (before.contains(x) || x == c) by {
                    if v@.contains(x) {
                        let k = choose|k: int| 0 <= k < v@.len() && v@[k] == x;
                        if k < before.len() {
                            assert(before[k] == x);
                        }
                    }
                    if before.contains(x) {
                        let k = choose|k: int| 0 <= k < before.len() && before[k] == x;
                        assert(v@[k] == x);
                    }
                    if x == c {
                        assert(v@[before.len() as int] == c);
                    }
                }
            }
        }
    }
}

/// A full-width scalar held in one cell, used in scalar multiplication.
#[derive(Clone, Copy, Debug)]
pub struct ScalarVar(pub AssignedValue);

/// The coordinates that a point of the curve gets in the circuit: the
/// identity is written `(0, 0)`.
pub open spec fn witness_coords(p: (int, int)) -> (int, int) {
    if p == identity_spec() {
        (0, 0)
    } else {
        p
    }
}

/// The last gate of the region is the complete-addition gate from cells
/// holding `p` and `q` to the cells of `r`.
pub open spec fn lays_add(ctx: &RegionCtx, p: (int, int), q: (int, int), r: AssignedEccPoint) -> bool {
    &&& ctx.gates.len() > 0
    &&& match ctx.gates@.last() {
        Gate::Add { xp, yp, xq, yq, xr, yr } => {
            &&& xr == r.x && yr == r.y
            &&& xp < ctx.cells.len() && yp < ctx.cells.len() && xq < ctx.cells.len() && yq < ctx.cells.len()
            &&& (ctx.val(xp), ctx.val(yp)) == p
            &&& (ctx.val(xq), ctx.val(yq)) == q
        },
        _ => false,
    }
}

/// The three rows of a conditional addition whose gates start at `g` and
/// whose cells start at `c`: `q = cond ? b : (0, 1)` in cells `c, c + 1` by
/// two rows of the main gate, then the complete-addition gate from `a` and
/// `q` to the cells `c + 2, c + 3`.
pub open spec fn cond_add_rows(gates: Seq<Gate>, g: int, c: int, a: AssignedEccPoint, b: AssignedEccPoint, cond: usize) -> bool {
    let qx = c as usize;
    let qy = (c + 1) as usize;
    &&& main_row(gates[g], seq![cond, b.x, cond, cond, qx, qx], seq![0, 0, 0, 0, modulus() - 1, 0, 1, 0, 0, 0, 0, 0, 0])
    &&& main_row(gates[g + 1], seq![cond, b.y, cond, cond, qy, qy],
        seq![modulus() - 1, 0, 0, 0, modulus() - 1, 0, 1, 0, 1, 0, 0, 0, 0])
    &&& gates[g + 2] == Gate::Add { xp: a.x, yp: a.y, xq: qx, yq: qy, xr: (c + 2) as usize, yr: (c + 3) as usize }
}

proof fn lemma_cond_add_rows(
    q1: MainGateCoeffs,
    q2: MainGateCoeffs,
    gates: Seq<Gate>,
    g2: Seq<Gate>,
    g0: Seq<Gate>,
    c: int,
    a: AssignedEccPoint,
    b: AssignedEccPoint,
    cond: usize,
    r: AssignedEccPoint,
)
    requires
        q1.sa.val() == 0 && q1.sb.val() == 0 && q1.sc.val() == 0 && q1.sd.val() == 0 && q1.se.val() == modulus() - 1,
        q1.se_next.val() == 0 && q1.s_mul_ab.val() == 1 && q1.s_mul_cd.val() == 0 && q1.s_constant.val() == 0,
        q1.q_h1.val() == 0 && q1.q_h2.val() == 0 && q1.q_h3.val() == 0 && q1.q_h4.val() == 0,
        q2.sa.val() == modulus() - 1 && q2.sb.val() == 0 && q2.sc.val() == 0 && q2.sd.val() == 0,
        q2.se.val() == modulus() - 1 && q2.se_next.val() == 0 && q2.s_mul_ab.val() == 1 && q2.s_mul_cd.val() == 0,
        q2.s_constant.val() == 1,
        q2.q_h1.val() == 0 && q2.q_h2.val() == 0 && q2.q_h3.val() == 0 && q2.q_h4.val() == 0,
        g2 == g0.push(Gate::Main { q: q1, a: cond, b: b.x, c: cond, d: cond, e: c as usize, e_next: c as usize })
            .push(Gate::Main { q: q2, a: cond, b: b.y, c: cond, d: cond, e: (c + 1) as usize, e_next: (c + 1) as usize }),
        gates == g2.push(Gate::Add { xp: a.x, yp: a.y, xq: c as usize, yq: (c + 1) as usize, xr: r.x, yr: r.y }),
        r.x == c + 2 && r.y == c + 3,
    ensures
        cond_add_rows(gates, g0.len() as int, c, a, b, cond),
{
    let g = g0.len() as int;
    assert(gates[g] == g2[g]);
    assert(gates[g + 1] == g2[g + 1]);
    assert(coeff_vals(q1) =~= seq![0, 0, 0, 0, modulus() - 1, 0, 1, 0, 0, 0, 0, 0, 0]);
    assert(coeff_vals(q2) =~= seq![modulus() - 1, 0, 0, 0, modulus() - 1, 0, 1, 0, 1, 0, 0, 0, 0]);
}

/// `g2` starts with `g1`.
pub open spec fn prefix_eq(g2: Seq<Gate>, g1: Seq<Gate>) -> bool {
    g1.len() <= g2.len() && forall|j: int| 0 <= j < g1.len() ==> #[trigger] g2[j] == g1[j]
}

proof fn lemma_prefix_eq(c1: &RegionCtx, c2: &RegionCtx)
    requires
        c1.extended_by(c2),
    ensures
        prefix_eq(c2.gates@, c1.gates@),
{
    assert forall|j: int| 0 <= j < c1.gates.len() implies #[trigger] c2.gates@[j] == c1.gates@[j] by {
        assert(c1.gates@ =~= c2.gates@.subrange(0, c1.gates.len() as int));
        assert(c1.gates@[j] == c2.gates@.subrange(0, c1.gates.len() as int)[j]);
    }
}

proof fn lemma_prefix_eq_trans(g3: Seq<Gate>, g2: Seq<Gate>, g1: Seq<Gate>)
    requires
        prefix_eq(g3, g2),
        prefix_eq(g2, g1),
    ensures
        prefix_eq(g3, g1),
{
    assert forall|j: int| 0 <= j < g1.len() implies #[trigger] g3[j] == g1[j] by {
        assert(g3[j] == g2[j]);
    }
}

proof fn lemma_cond_add_rows_stable(g1: Seq<Gate>, g2: Seq<Gate>, g: int, c: int, a: AssignedEccPoint, b: AssignedEccPoint, cond: usize)
    requires
        cond_add_rows(g1, g, c, a, b, cond),
        prefix_eq(g2, g1),
        0 <= g,
        g + 3 <= g1.len(),
    ensures
        cond_add_rows(g2, g, c, a, b, cond),
{
    assert(g2[g] == g1[g]);
    assert(g2[g + 1] == g1[g + 1]);
    assert(g2[g + 2] == g1[g + 2]);
}

/// The four rows of `normalize` whose gates start at `g` and cells at `c`:
/// `x^2`, `y^2` and `x^2 y^2` in cells `c, c + 1, c + 2` by product rows, and
/// `y - y^2 + x^2 + d x^2 y^2 + 1` in cell `c + 3` by one linear row.
pub open spec fn normalize_rows(gates: Seq<Gate>, g: int, c: int, p: AssignedEccPoint) -> bool {
    let m = modulus();
    let (xx, yy, xy, e) = (c as usize, (c + 1) as usize, (c + 2) as usize, (c + 3) as usize);
    let prod = seq![0, 0, 0, 0, m - 1, 0, 1, 0, 0, 0, 0, 0, 0];
    &&& main_row(gates[g], seq![p.x, p.x, p.x, p.x, xx, xx], prod)
    &&& main_row(gates[g + 1], seq![p.y, p.y, p.y, p.y, yy, yy], prod)
    &&& main_row(gates[g + 2], seq![xx, yy, xx, xx, xy, xy], prod)
    &&& main_row(gates[g + 3], seq![p.y, yy, xx, xy, e, e], seq![1, m - 1, 1, edwards_d(), m - 1, 0, 0, 0, 1, 0, 0, 0, 0])
}

proof fn lemma_normalize_rows_stable(g1: Seq<Gate>, g2: Seq<Gate>, g: int, c: int, p: AssignedEccPoint)
    requires
        normalize_rows(g1, g, c, p),
        prefix_eq(g2, g1),
        0 <= g,
        g + 4 <= g1.len(),
    ensures
        normalize_rows(g2, g, c, p),
{
    assert(g2[g] == g1[g]);
    assert(g2[g + 1] == g1[g + 1]);
    assert(g2[g + 2] == g1[g + 2]);
    assert(g2[g + 3] == g1[g + 3]);
}

/// The two selection rows of a window whose gates start at `g`, on the bit
/// cells `bit_1`, `bit_2`, with the coefficients of the table entry `e`.
pub open spec fn window_rows(gates: Seq<Gate>, g: int, bit_1: usize, bit_2: usize, e: [Point; 3]) -> bool {
    &&& selection_row(gates[g], bit_1, bit_2, e[0].x.val(), e[1].x.val(), fsub(fsub(e[2].x.val(), e[1].x.val()), e[0].x.val()), 0)
    &&& selection_row(gates[g + 1], bit_1, bit_2, fsub(e[0].y.val(), 1), fsub(e[1].y.val(), 1),
        fadd(fsub(fsub(e[2].y.val(), e[1].y.val()), e[0].y.val()), 1), 1)
}

proof fn lemma_window_rows_stable(g1: Seq<Gate>, g2: Seq<Gate>, g: int, bit_1: usize, bit_2: usize, e: [Point; 3])
    requires
        window_rows(g1, g, bit_1, bit_2, e),
        prefix_eq(g2, g1),
        0 <= g,
        g + 2 <= g1.len(),
    ensures
        window_rows(g2, g, bit_1, bit_2, e),
{
    assert(g2[g] == g1[g]);
    assert(g2[g + 1] == g1[g + 1]);
}

/// The rows of an addition on the coordinates as they stand, whose gates
/// start at `g` and cells at `c`: the constant one in cell `c`, then the
/// conditional addition with that cell as condition.
pub open spec fn add_raw_rows(gates: Seq<Gate>, g: int, c: int, a: AssignedEccPoint, b: AssignedEccPoint) -> bool {
    let one = c as usize;
    &&& main_row(gates[g], seq![one, one, one, one, one, one], seq![1, 0, 0, 0, 0, 0, 0, 0, modulus() - 1, 0, 0, 0, 0])
    &&& cond_add_rows(gates, g + 1, c + 1, a, b, one)
}

/// The accumulator that window `i` of `fixed_mul` adds to: the point of the
/// first window for `i = 1`, else the result of the previous window.
pub open spec fn fixed_acc_in(n0: int, i: int) -> AssignedEccPoint {
    let cw = n0 + 507 + 7 * (i - 1);
    if i == 1 {
        AssignedEccPoint { x: (n0 + 505) as usize, y: (n0 + 506) as usize }
    } else {
        AssignedEccPoint { x: (cw - 2) as usize, y: (cw - 1) as usize }
    }
}

/// The six rows of window `i >= 1` of `fixed_mul`, whose gates start at `g0`
/// and cells at `n0`: the two selection rows on bits `2i`, `2i + 1` with the
/// table's coefficients, then the addition to the accumulator. Nothing in
/// them depends on the scalar's value.
pub open spec fn fixed_window_rows(gates: Seq<Gate>, g0: int, n0: int, t: Seq<[Point; 3]>, i: int) -> bool {
    let gw = g0 + 508 + 6 * (i - 1);
    let cw = n0 + 507 + 7 * (i - 1);
    &&& window_rows(gates, gw, (n0 + 1 + 4 * i) as usize, (n0 + 3 + 4 * i) as usize, t[i])
    &&& add_raw_rows(gates, gw + 2, cw + 2, fixed_acc_in(n0, i), AssignedEccPoint { x: cw as usize, y: (cw + 1) as usize })
}

proof fn lemma_fixed_window_rows_stable(g1: Seq<Gate>, g2: Seq<Gate>, g0: int, n0: int, t: Seq<[Point; 3]>, i: int)
    requires
        fixed_window_rows(g1, g0, n0, t, i),
        prefix_eq(g2, g1),
        0 <= g0,
        1 <= i,
        g0 + 508 + 6 * i <= g1.len(),
    ensures
        fixed_window_rows(g2, g0, n0, t, i),
{
    let gw = g0 + 508 + 6 * (i - 1);
    lemma_window_rows_stable(g1, g2, gw, (n0 + 1 + 4 * i) as usize, (n0 + 3 + 4 * i) as usize, t[i]);
    assert(g2[gw + 2] == g1[gw + 2]);
    let cw = n0 + 507 + 7 * (i - 1);
    lemma_cond_add_rows_stable(g1, g2, gw + 3, cw + 3, fixed_acc_in(n0, i), AssignedEccPoint { x: cw as usize, y: (cw + 1) as usize },
        (cw + 2) as usize);
}

/// The whole layout of `fixed_mul`, fixed by the positions where it starts,
/// the scalar's cell and the public table: the bit decomposition, the
/// selection rows of the first window, then six rows per further window.
/// The table enters only as coefficients.
pub open spec fn fixed_mul_rows(gates: Seq<Gate>, g0: int, n0: int, scalar: usize, t: Seq<[Point; 3]>) -> bool {
    &&& crate::main_gate::to_bits_rows(gates, g0, n0, scalar, SCALAR_NUM_BITS as int)
    &&& window_rows(gates, g0 + 506, (n0 + 1) as usize, (n0 + 3) as usize, t[0])
    &&& forall|i: int| 1 <= i < N_WINDOWS ==> #[trigger] fixed_window_rows(gates, g0, n0, t, i)
}

/// The accumulator that step `k` of `mul` doubles: the start point `(0, 1)`
/// in cells `n0 + 511, n0 + 512` for the first step, else the result cells
/// of the previous step.
pub open spec fn dbl_in(n0: int, k: int) -> AssignedEccPoint {
    let c = n0 + 513 + 8 * k;
    if k == 0 {
        AssignedEccPoint { x: (n0 + 511) as usize, y: (n0 + 512) as usize }
    } else {
        AssignedEccPoint { x: (c - 2) as usize, y: (c - 1) as usize }
    }
}

/// The six rows of step `k` of `mul`, whose gates start at `g0` and cells at
/// `n0`: the doubling of the accumulator with the constant one as condition,
/// then the conditional addition of `base` with bit `254 - k` of the scalar
/// as condition. Nothing in them depends on the scalar's value.
pub open spec fn ladder_step_rows(gates: Seq<Gate>, g0: int, n0: int, base: AssignedEccPoint, k: int) -> bool {
    let c = n0 + 513 + 8 * k;
    let g = g0 + 514 + 6 * k;
    let one = (n0 + 512) as usize;
    let dbl = AssignedEccPoint { x: (c + 2) as usize, y: (c + 3) as usize };
    let bit = (n0 + 1 + 2 * (NUM_BITS - 1 - k)) as usize;
    &&& cond_add_rows(gates, g, c, dbl_in(n0, k), dbl_in(n0, k), one)
    &&& cond_add_rows(gates, g + 3, c + 4, dbl, base, bit)
}

proof fn lemma_step_rows_stable(g1: Seq<Gate>, g2: Seq<Gate>, g0: int, n0: int, base: AssignedEccPoint, k: int)
    requires
        ladder_step_rows(g1, g0, n0, base, k),
        prefix_eq(g2, g1),
        0 <= g0,
        0 <= k,
        g0 + 514 + 6 * k + 6 <= g1.len(),
    ensures
        ladder_step_rows(g2, g0, n0, base, k),
{
    let c = n0 + 513 + 8 * k;
    let g = g0 + 514 + 6 * k;
    lemma_cond_add_rows_stable(g1, g2, g, c, dbl_in(n0, k), dbl_in(n0, k), (n0 + 512) as usize);
    lemma_cond_add_rows_stable(g1, g2, g + 3, c + 4, AssignedEccPoint { x: (c + 2) as usize, y: (c + 3) as usize }, base,
        (n0 + 1 + 2 * (NUM_BITS - 1 - k)) as usize);
}

/// The rows before the ladder of `mul`: the bit decomposition of the scalar
/// cell, then the constants zero and one.
pub open spec fn head_rows(gates: Seq<Gate>, g0: int, n0: int, scalar: usize) -> bool {
    let z = (n0 + 511) as usize;
    let o = (n0 + 512) as usize;
    &&& crate::main_gate::to_bits_rows(gates, g0, n0, scalar, NUM_BITS as int)
    &&& main_row(gates[g0 + 512], seq![z, z, z, z, z, z], seq![1, 0, 0, 0, 0, 0, 0, 0, 0, 0, 0, 0, 0])
    &&& main_row(gates[g0 + 513], seq![o, o, o, o, o, o], seq![1, 0, 0, 0, 0, 0, 0, 0, modulus() - 1, 0, 0, 0, 0])
}

/// The whole layout of the double-and-add of `mul`, fixed by the positions
/// where it starts, the scalar's cell and the base's cells: the same gates
/// and coefficients for every scalar value.
pub open spec fn mul_raw_rows(gates: Seq<Gate>, g0: int, n0: int, scalar: usize, base: AssignedEccPoint) -> bool {
    &&& head_rows(gates, g0, n0, scalar)
    &&& forall|k: int| 0 <= k < NUM_BITS ==> #[trigger] ladder_step_rows(gates, g0, n0, base, k)
}

proof fn lemma_to_bits_rows_stable(g1: Seq<Gate>, g2: Seq<Gate>, g0: int, n0: int, a: usize, n: int)
    requires
        crate::main_gate::to_bits_rows(g1, g0, n0, a, n),
        prefix_eq(g2, g1),
        0 <= g0,
        0 <= n,
        g0 + 2 + 2 * n <= g1.len(),
    ensures
        crate::main_gate::to_bits_rows(g2, g0, n0, a, n),
{
    assert forall|j: int| 0 <= j < n implies #[trigger] crate::main_gate::bit_rows_at(g2, g0, n0, j) by {
        assert(crate::main_gate::bit_rows_at(g1, g0, n0, j));
        assert(g2[g0 + 1 + 2 * j] == g1[g0 + 1 + 2 * j]);
        assert(g2[g0 + 2 + 2 * j] == g1[g0 + 2 + 2 * j]);
    }
    assert(g2[g0] == g1[g0]);
    assert(g2[g0 + 1 + 2 * n] == g1[g0 + 1 + 2 * n]);
}

proof fn lemma_head_rows_stable(g1: Seq<Gate>, g2: Seq<Gate>, g0: int, n0: int, scalar: usize)
    requires
        head_rows(g1, g0, n0, scalar),
        prefix_eq(g2, g1),
        0 <= g0,
        g0 + 514 <= g1.len(),
    ensures
        head_rows(g2, g0, n0, scalar),
{
    lemma_to_bits_rows_stable(g1, g2, g0, n0, scalar, NUM_BITS as int);
    assert(g2[g0 + 512] == g1[g0 + 512]);
    assert(g2[g0 + 513] == g1[g0 + 513]);
}

/// The point that `cond_add` adds: `b` where the condition is one, else the
/// neutral element.
pub open spec fn selected(b: (int, int), cond: int) -> (int, int) {
    if cond == 1 {
        b
    } else {
        identity_spec()
    }
}

/// The row `cond * bx - qx = 0` holds for `qx = cond * bx`.
proof fn lemma_select_x_row(q: MainGateCoeffs, c: int, bx: int, qx: int)
    requires
        q.wf(),
        q.sa.val() == 0 && q.sb.val() == 0 && q.sc.val() == 0 && q.sd.val() == 0,
        q.se_next.val() == 0 && q.s_mul_cd.val() == 0 && q.s_constant.val() == 0,
        q.q_h1.val() == 0 && q.q_h2.val() == 0 && q.q_h3.val() == 0 && q.q_h4.val() == 0,
        q.s_mul_ab.val() == 1,
        q.se.val() == modulus() - 1,
        0 <= c < modulus(),
        0 <= bx < modulus(),
        qx == fmul(c, bx),
    ensures
        main_gate_value(q, c, bx, c, c, qx, qx) == 0,
{
    crate::field::lemma_modulus_bounds();
    let m = modulus();
    lemma_main_gate_sparse(q, c, bx, c, c, qx, qx);
    lemma_field_basics(c);
    lemma_field_basics(bx);
    vstd::arithmetic::div_mod::lemma_mod_bound(c * bx, m);
    lemma_field_basics(qx);
    lemma_field_basics(0);
    let nq = fmul(m - 1, qx);
    vstd::arithmetic::div_mod::lemma_mod_bound((m - 1) * qx, m);
    lemma_field_basics(nq);
    assert(fadd(nq, qx) == fadd(qx, nq));
}

/// The row `-cond + cond * by + 1 - qy = 0` holds for
/// `qy = cond * by - cond + 1` and a bit `cond`.
proof fn lemma_select_y_row(q: MainGateCoeffs, c: int, by: int, qy: int)
    requires
        q.wf(),
        q.sb.val() == 0 && q.sc.val() == 0 && q.sd.val() == 0,
        q.se_next.val() == 0 && q.s_mul_cd.val() == 0,
        q.q_h1.val() == 0 && q.q_h2.val() == 0 && q.q_h3.val() == 0 && q.q_h4.val() == 0,
        q.sa.val() == modulus() - 1,
        q.s_mul_ab.val() == 1,
        q.s_constant.val() == 1,
        q.se.val() == modulus() - 1,
        c == 0 || c == 1,
        0 <= by < modulus(),
        qy == (if c == 1 { by } else { 1 }),
    ensures
        main_gate_value(q, c, by, c, c, qy, qy) == 0,
{
    crate::field::lemma_modulus_bounds();
    let m = modulus();
    lemma_main_gate_sparse(q, c, by, c, c, qy, qy);
    lemma_field_basics(by);
    lemma_field_basics(0);
    lemma_field_basics(1);
    lemma_field_basics(m - 1);
    let v1 = fmul(m - 1, c);
    let v3 = fmul(m - 1, qy);
    let v4 = fmul(1, fmul(c, by));
    if c == 0 {
        assert(v1 == 0);
        assert(fadd(v1, 0) == 0);
        assert(v3 == m - 1);
        assert(fadd(0, v3) == m - 1);
        assert(fmul(c, by) == 0);
        assert(v4 == 0);
        assert(fadd(m - 1, 0) == m - 1);
        vstd::arithmetic::div_mod::lemma_mod_self_0(m);
        assert(fadd(m - 1, 1) == 0);
    } else {
        assert(v1 == m - 1);
        assert(fadd(v1, 0) == m - 1);
        vstd::arithmetic::div_mod::lemma_add_mod_noop_right(m - 1, (m - 1) * by, m);
        let v2 = fadd(m - 1, v3);
        assert(v2 == ((m - 1) + (m - 1) * by) % m);
        assert(fmul(c, by) == by);
        assert(v4 == by);
        lemma_fadd_mod((m - 1) + (m - 1) * by, by);
        lemma_fadd_mod((m - 1) + (m - 1) * by + by, 1);
        assert((m - 1) + (m - 1) * by + by + 1 == (1 + by) * m) by (nonlinear_arith);
        vstd::arithmetic::div_mod::lemma_mod_multiples_basic(1 + by, m);
        lemma_field_basics(v2);
        vstd::arithmetic::div_mod::lemma_mod_bound((m - 1) + (m - 1) * by + by, m);
    }
}

/// `y - y^2 + x^2 + d x^2 y^2`, in the order the normalizing row sums it.
pub open spec fn norm_sum(x: int, y: int) -> int {
    let xx = fmul(x, x);
    let yy = fmul(y, y);
    fadd(fadd(fadd(fmul(1, y), fmul(modulus() - 1, yy)), fmul(1, xx)), fmul(edwards_d(), fmul(xx, yy)))
}

/// The point that the addition gadgets work on: `(x, y - curve_eqn(x, y))`.
/// It is the point itself on the curve, and the neutral element `(0, 1)`
/// for the identity written `(0, 0)`.
pub open spec fn normalized(p: (int, int)) -> (int, int) {
    (p.0, fadd(norm_sum(p.0, p.1), 1))
}

/// The identity written `(0, 0)` normalizes to the neutral element.
pub proof fn lemma_normalized_zero()
    ensures
        normalized((0, 0)) == identity_spec(),
{
    crate::field::lemma_modulus_bounds();
    lemma_field_basics(0);
    lemma_field_basics(1);
    lemma_field_basics(edwards_d());
    assert(fmul(modulus() - 1, 0) == 0) by {
        assert((modulus() - 1) * 0 == 0);
    }
    assert(fmul(edwards_d(), 0) == 0);
}

/// A point of the curve is left unchanged by normalization.
pub proof fn lemma_normalized_on_curve(x: int, y: int)
    requires
        0 <= x < modulus(),
        0 <= y < modulus(),
        on_curve_spec(x, y),
    ensures
        normalized((x, y)) == (x, y),
{
    crate::field::lemma_modulus_bounds();
    let m = modulus();
    let d = edwards_d();
    let x2 = x * x;
    let y2 = y * y;
    vstd::arithmetic::div_mod::lemma_small_mod(y as nat, m as nat);
    // the products
    lemma_fmul_mod(x2, y2);
    assert(fmul(fmul(x, x), fmul(y, y)) == (x2 * y2) % m);
    vstd::arithmetic::div_mod::lemma_mul_mod_noop_right(d, x2 * y2, m);
    assert(fmul(d, fmul(fmul(x, x), fmul(y, y))) == (d * (x2 * y2)) % m);
    vstd::arithmetic::div_mod::lemma_mul_mod_noop_right(m - 1, y2, m);
    lemma_field_basics(y);
    vstd::arithmetic::div_mod::lemma_mod_bound(x2, m);
    lemma_field_basics(fmul(x, x));
    // the sum
    lemma_fadd_mod(y, (m - 1) * y2);
    let s1 = y + (m - 1) * y2;
    lemma_fadd_mod(s1, x2);
    vstd::arithmetic::div_mod::lemma_add_mod_noop_right(s1 % m, x2, m);
    vstd::arithmetic::div_mod::lemma_add_mod_noop(s1, x2, m);
    let s2 = s1 + x2;
    lemma_fadd_mod(s2, d * (x2 * y2));
    let s3 = s2 + d * (x2 * y2);
    assert(norm_sum(x, y) == s3 % m);
    lemma_fadd_mod(s3, 1);
    assert(normalized((x, y)).1 == (s3 + 1) % m);
    // the curve equation, reduced once
    vstd::arithmetic::div_mod::lemma_sub_mod_noop(y2, x2, m);
    vstd::arithmetic::div_mod::lemma_mul_mod_noop_right(d, x2, m);
    lemma_fmul_mod(d * x2, y2);
    vstd::arithmetic::div_mod::lemma_mul_mod_noop_general(d * x2, y2, m);
    assert(fmul(fmul(d, fmul(x, x)), fmul(y, y)) == (d * x2 * y2) % m);
    lemma_fadd_mod(1, d * x2 * y2);
    vstd::arithmetic::div_mod::lemma_small_mod(1, m as nat);
    assert((y2 - x2) % m == (1 + d * x2 * y2) % m);
    let dd = (y2 - x2) - (1 + d * x2 * y2);
    vstd::arithmetic::div_mod::lemma_sub_mod_noop(y2 - x2, 1 + d * x2 * y2, m);
    vstd::arithmetic::div_mod::lemma_mod_self_0(m);
    assert(dd % m == 0) by {
        assert(((y2 - x2) % m - (1 + d * x2 * y2) % m) == 0);
        vstd::arithmetic::div_mod::lemma_small_mod(0, m as nat);
    }
    vstd::arithmetic::div_mod::lemma_fundamental_div_mod(dd, m);
    let q = dd / m;
    assert(dd == m * q);
    assert(s3 + 1 == m * (y2 - q) + y) by (nonlinear_arith)
        requires
            s3 == y + (m - 1) * y2 + x2 + d * (x2 * y2),
            dd == (y2 - x2) - (1 + d * x2 * y2),
            dd == m * q;
    vstd::arithmetic::div_mod::lemma_mod_multiples_vanish(y2 - q, y, m);
}

/// Adding the neutral element `(0, 1)` on the right changes nothing.
pub proof fn lemma_add_identity_right(p: (int, int))
    requires
        0 <= p.0 < modulus(),
        0 <= p.1 < modulus(),
    ensures
        edwards_add(p, identity_spec()) == p,
{
    lemma_finv_one();
    lemma_field_basics(p.0);
    lemma_field_basics(p.1);
    lemma_field_basics(0);
    lemma_field_basics(edwards_d());
    crate::field::lemma_modulus_bounds();
    vstd::arithmetic::div_mod::lemma_mod_bound(edwards_d() * p.0, modulus());
    lemma_field_basics(fmul(edwards_d(), p.0));
    lemma_field_basics(fmul(fmul(edwards_d(), p.0), 0));
    lemma_field_basics(1);
}

/// Adding the neutral element `(0, 1)` on the left changes nothing.
pub proof fn lemma_add_identity_left(p: (int, int))
    requires
        0 <= p.0 < modulus(),
        0 <= p.1 < modulus(),
    ensures
        edwards_add(identity_spec(), p) == p,
{
    lemma_finv_one();
    lemma_field_basics(p.0);
    lemma_field_basics(p.1);
    lemma_field_basics(0);
    crate::field::lemma_modulus_bounds();
    lemma_field_basics(edwards_d());
    lemma_field_basics(1);
    assert(fmul(edwards_d(), 0) == 0);
    assert(fmul(0, p.0) == 0);
}

/// The inverse of one is one.
pub proof fn lemma_finv_one()
    ensures
        finv(1) == 1,
{
    crate::field::lemma_modulus_bounds();
    lemma_field_basics(1);
    crate::field::lemma_finv_is(1, 1);
}

/// `a * b * c` in the field does not depend on the grouping.
proof fn lemma_fmul_regroup(a: int, b: int, c: int)
    ensures
        fmul(fmul(a, b), c) == fmul(fmul(a, c), b),
{
    crate::field::lemma_modulus_bounds();
    let m = modulus();
    vstd::arithmetic::div_mod::lemma_mul_mod_noop_left(a * b, c, m);
    vstd::arithmetic::div_mod::lemma_mul_mod_noop_left(a * c, b, m);
    assert(a * b * c == a * c * b) by (nonlinear_arith);
}

/// The in-circuit operations on points.
#[derive(Clone, Copy, Debug)]
pub struct EccChip {
    pub main_gate: MainGate,
}

impl EccChip {
    pub fn new(main_gate: MainGate) -> (r: EccChip) {
        EccChip { main_gate }
    }

    /// Constrains two points to be equal, coordinate by coordinate.
    pub fn constrain_equal(&self, ctx: &mut RegionCtx, a: &AssignedEccPoint, b: &AssignedEccPoint)
        requires
            old(ctx).wf(),
            a.in_region(old(ctx)),
            b.in_region(old(ctx)),
        ensures
            final(ctx).wf(),
            old(ctx).extended_by(final(ctx)),
            final(ctx).cells@ == old(ctx).cells@,
            final(ctx).satisfied() <==> (old(ctx).satisfied() && a.pv(old(ctx)) == b.pv(old(ctx))),
    {
        ctx.constrain_equal(a.x, b.x);
        ctx.constrain_equal(a.y, b.y);
    }

    /// Witnesses a point of the curve, writing the identity as `(0, 0)`, and
    /// constrains the cells to be on the curve or `(0, 0)`.
    pub fn witness_point(&self, ctx: &mut RegionCtx, p: &Point) -> (r: AssignedEccPoint)
        requires
            old(ctx).wf(),
            p.on_curve(),
        ensures
            final(ctx).wf(),
            old(ctx).extended_by(final(ctx)),
            r.in_region(final(ctx)),
            final(ctx).gates@ == old(ctx).gates@.push(Gate::PointOrZero { x: r.x, y: r.y }),
            r.pv(final(ctx)) == witness_coords(p.pv()),
            old(ctx).satisfied() ==> final(ctx).satisfied(),
    {
        let z = Fe::zero();
        let is_id = fe_eq(p.x, z) && fe_eq(p.y, Fe::one());
        let (xv, yv) = if is_id { (z, z) } else { (p.x, p.y) };
        let x = ctx.assign_advice(xv);
        let y = ctx.assign_advice(yv);
        proof {
            let ce = curve_eqn_value(xv.val(), yv.val());
            lemma_field_basics(xv.val());
            lemma_field_basics(yv.val());
            if !is_id {
                let r = fadd(1, fmul(fmul(edwards_d(), fmul(p.x.val(), p.x.val())), fmul(p.y.val(), p.y.val())));
                crate::field::lemma_modulus_bounds();
                vstd::arithmetic::div_mod::lemma_mod_self_0(modulus());
                assert(ce == fsub(r, r));
                assert(ce == 0);
            }
            assert(ctx.cells@[x as int] == xv);
        }
        ctx.enable(Gate::PointOrZero { x, y });
        AssignedEccPoint { x, y }
    }

    /// Witnesses a scalar in one cell; the scalar is below `r`, hence below
    /// the field's modulus, and keeps its value.
    pub fn witness_scalar_var(&self, ctx: &mut RegionCtx, s: &Scalar) -> (r: ScalarVar)
        requires
            old(ctx).wf(),
            s.wf(),
        ensures
            final(ctx).wf(),
            old(ctx).extended_by(final(ctx)),
            r.0 < final(ctx).cells.len(),
            final(ctx).val(r.0) == s.val(),
            old(ctx).satisfied() ==> final(ctx).satisfied(),
    {
        proof {
            assert(scalar_modulus() < modulus());
        }
        ScalarVar(ctx.assign_advice(Fe { bytes: s.bytes }))
    }

    /// `a + cond * b` on the coordinates as they stand: `b`, or the neutral
    /// element `(0, 1)` where `cond` is zero, is selected by two rows of the
    /// main gate and fed to the complete-addition gate with `a`.
    #[verifier::spinoff_prover]
    #[verifier::rlimit(100)]
    fn cond_add_raw(&self, ctx: &mut RegionCtx, a: &AssignedEccPoint, b: &AssignedEccPoint, cond: AssignedCondition) -> (r: AssignedEccPoint)
        requires
            old(ctx).wf(),
            a.in_region(old(ctx)),
            b.in_region(old(ctx)),
            cond < old(ctx).cells.len(),
            old(ctx).val(cond) == 0 || old(ctx).val(cond) == 1,
        ensures
            final(ctx).wf(),
            old(ctx).extended_by(final(ctx)),
            final(ctx).cells.len() == old(ctx).cells.len() + 4,
            final(ctx).gates.len() == old(ctx).gates.len() + 3,
            r.in_region(final(ctx)),
            lays_add(final(ctx), a.pv(old(ctx)), selected(b.pv(old(ctx)), old(ctx).val(cond)), r),
            cond_add_rows(final(ctx).gates@, old(ctx).gates.len() as int, old(ctx).cells.len() as int, *a, *b, cond),
            old(ctx).val(cond) == 1 ==> r.pv(final(ctx)) == edwards_add(a.pv(old(ctx)), b.pv(old(ctx))),
            old(ctx).val(cond) == 0 ==> r.pv(final(ctx)) == a.pv(old(ctx)),
            old(ctx).satisfied() && add_defined(a.pv(old(ctx)), selected(b.pv(old(ctx)), old(ctx).val(cond)))
                ==> final(ctx).satisfied(),
    {
        let ghost c0 = *ctx;
        let c = ctx.value(cond);
        let bx = ctx.value(b.x);
        let by = ctx.value(b.y);
        let one = Fe::one();
        let m1 = minus_one();
        // q = cond ? b : (0, 1)
        let qxv = fe_mul(c, bx);
        let qyv = fe_add(fe_sub(fe_mul(c, by), c), one);
        proof {
            lemma_field_basics(bx.val());
            lemma_field_basics(by.val());
            lemma_field_basics(0);
            lemma_field_basics(1);
            if c.val() == 1 {
                crate::field::lemma_modulus_bounds();
                let m = modulus();
                lemma_fadd_mod(by.val() - 1, 1);
                vstd::arithmetic::div_mod::lemma_small_mod(by.val() as nat, m as nat);
            }
        }
        let qx = ctx.assign_advice(qxv);
        let mut q1 = MainGateCoeffs::zero();
        q1.s_mul_ab = one;
        q1.se = m1;
        proof {
            lemma_select_x_row(q1, c.val(), bx.val(), qxv.val());
        }
        self.main_gate.apply(ctx, q1, cond, b.x, cond, cond, qx, qx);
        let qy = ctx.assign_advice(qyv);
        let mut q2 = MainGateCoeffs::zero();
        q2.sa = m1;
        q2.s_mul_ab = one;
        q2.s_constant = one;
        q2.se = m1;
        proof {
            lemma_select_y_row(q2, c.val(), by.val(), qyv.val());
        }
        self.main_gate.apply(ctx, q2, cond, b.y, cond, cond, qy, qy);
        let qp = AssignedEccPoint { x: qx, y: qy };
        proof {
            assert(ctx.cells@[a.x as int] == c0.cells@[a.x as int]);
            assert(ctx.cells@[a.y as int] == c0.cells@[a.y as int]);
        }
        let ghost g2 = ctx.gates@;
        let r = self.add_gate(ctx, a, &qp);
        proof {
            if c.val() == 0 {
                lemma_add_identity_right(a.pv(&c0));
            }
            lemma_cond_add_rows(q1, q2, ctx.gates@, g2, c0.gates@, c0.cells.len() as int, *a, *b, cond, r);
        }
        r
    }

    /// Lays the complete-addition gate on `p`, `q` and fresh cells holding
    /// the sum, computed off-circuit with the inverses of `1 +- d xp xq yp yq`.
    fn add_gate(&self, ctx: &mut RegionCtx, p: &AssignedEccPoint, q: &AssignedEccPoint) -> (r: AssignedEccPoint)
        requires
            old(ctx).wf(),
            p.in_region(old(ctx)),
            q.in_region(old(ctx)),
        ensures
            final(ctx).wf(),
            old(ctx).extended_by(final(ctx)),
            final(ctx).cells.len() == old(ctx).cells.len() + 2,
            final(ctx).gates.len() == old(ctx).gates.len() + 1,
            final(ctx).gates@ == old(ctx).gates@.push(Gate::Add { xp: p.x, yp: p.y, xq: q.x, yq: q.y, xr: r.x, yr: r.y }),
            r.x == old(ctx).cells.len() && r.y == old(ctx).cells.len() + 1,
            r.in_region(final(ctx)),
            r.pv(final(ctx)) == edwards_add(p.pv(old(ctx)), q.pv(old(ctx))),
            old(ctx).satisfied() && add_defined(p.pv(old(ctx)), q.pv(old(ctx))) ==> final(ctx).satisfied(),
    {
        let xp = ctx.value(p.x);
        let yp = ctx.value(p.y);
        let xq = ctx.value(q.x);
        let yq = ctx.value(q.y);
        let d = edwards_d_fe();
        let one = Fe::one();
        let lambda = fe_mul(fe_mul(fe_mul(fe_mul(d, xp), xq), yp), yq);
        let den_x = fe_add(one, lambda);
        let den_y = fe_sub(one, lambda);
        // one inversion for both denominators where their product is non-zero
        let prod = fe_mul(den_x, den_y);
        let (alpha, beta) = if fe_eq(prod, Fe::zero()) {
            (fe_invert(den_x), fe_invert(den_y))
        } else {
            let inv = fe_invert(prod);
            let alpha = fe_mul(inv, den_y);
            let beta = fe_mul(inv, den_x);
            proof {
                let (i, dx, dy) = (inv.val(), den_x.val(), den_y.val());
                crate::field::lemma_fmul_assoc(i, dy, dx);
                crate::field::lemma_fmul_assoc(dy, dx, 0);
                crate::field::lemma_fmul_assoc(i, dx, dy);
                assert(fmul(dy, dx) == fmul(dx, dy));
                assert(fmul(alpha.val(), dx) == 1);
                assert(fmul(beta.val(), dy) == 1);
                crate::field::lemma_finv_is(dx, alpha.val());
                crate::field::lemma_finv_is(dy, beta.val());
                crate::field::lemma_fmul_assoc(alpha.val(), dx, 0);
                crate::field::lemma_fmul_assoc(beta.val(), dy, 0);
            }
            (alpha, beta)
        };
        let num_x = fe_add(fe_mul(xp, yq), fe_mul(xq, yp));
        let num_y = fe_add(fe_mul(xp, xq), fe_mul(yp, yq));
        let xrv = fe_mul(alpha, num_x);
        let yrv = fe_mul(beta, num_y);
        proof {
            if den_x.val() != 0 {
                lemma_fmul_regroup(alpha.val(), num_x.val(), den_x.val());
                lemma_field_basics(num_x.val());
                assert(fmul(alpha.val(), den_x.val()) == fmul(den_x.val(), alpha.val()));
                assert(fmul(xrv.val(), den_x.val()) == num_x.val());
            }
            if den_y.val() != 0 {
                lemma_fmul_regroup(beta.val(), num_y.val(), den_y.val());
                lemma_field_basics(num_y.val());
                assert(fmul(yrv.val(), den_y.val()) == num_y.val());
            }
        }
        let xr = ctx.assign_advice(xrv);
        let yr = ctx.assign_advice(yrv);
        ctx.enable(Gate::Add { xp: p.x, yp: p.y, xq: q.x, yq: q.y, xr, yr });
        AssignedEccPoint { x: xr, y: yr }
    }

    /// The cells `(x, y - curve_eqn(x, y))`: `(0, 1)` for the identity
    /// written `(0, 0)`, the point itself for a point of the curve. Three
    /// product rows give `x^2`, `y^2` and `x^2 y^2`; one linear row gives
    /// `y - y^2 + x^2 + d x^2 y^2 + 1`.
    #[verifier::rlimit(50)]
    pub fn normalize(&self, ctx: &mut RegionCtx, p: &AssignedEccPoint) -> (r: AssignedEccPoint)
        requires
            old(ctx).wf(),
            p.in_region(old(ctx)),
        ensures
            final(ctx).wf(),
            old(ctx).extended_by(final(ctx)),
            final(ctx).cells.len() == old(ctx).cells.len() + 4,
            final(ctx).gates.len() == old(ctx).gates.len() + 4,
            r.in_region(final(ctx)),
            r.x == p.x,
            r.y == old(ctx).cells.len() + 3,
            r.pv(final(ctx)) == normalized(p.pv(old(ctx))),
            old(ctx).satisfied() ==> final(ctx).satisfied(),
            normalize_rows(final(ctx).gates@, old(ctx).gates.len() as int, old(ctx).cells.len() as int, *p),
    {
        let ghost c0 = *ctx;
        let x = ctx.value(p.x);
        let y = ctx.value(p.y);
        let one = Fe::one();
        let m1 = minus_one();
        let d = edwards_d_fe();
        let xx = fe_mul(x, x);
        let yy = fe_mul(y, y);
        let xy = fe_mul(xx, yy);
        let mut qm = MainGateCoeffs::zero();
        qm.s_mul_ab = one;
        qm.se = m1;
        let cxx = ctx.assign_advice(xx);
        proof {
            lemma_select_x_row(qm, x.val(), x.val(), xx.val());
            assert(ctx.cells@[p.x as int] == x);
        }
        self.main_gate.apply(ctx, qm, p.x, p.x, p.x, p.x, cxx, cxx);
        let ghost n1 = ctx.gates@;
        let cyy = ctx.assign_advice(yy);
        proof {
            lemma_select_x_row(qm, y.val(), y.val(), yy.val());
            assert(ctx.cells@[p.y as int] == y);
        }
        self.main_gate.apply(ctx, qm, p.y, p.y, p.y, p.y, cyy, cyy);
        let ghost n2 = ctx.gates@;
        let cxy = ctx.assign_advice(xy);
        proof {
            lemma_select_x_row(qm, xx.val(), yy.val(), xy.val());
            assert(ctx.cells@[cxx as int] == xx);
            assert(ctx.cells@[cyy as int] == yy);
        }
        self.main_gate.apply(ctx, qm, cxx, cyy, cxx, cxx, cxy, cxy);
        let ghost n3 = ctx.gates@;
        let t = fe_add(fe_add(fe_add(fe_mul(one, y), fe_mul(m1, yy)), fe_mul(one, xx)), fe_mul(d, xy));
        let e = fe_add(t, one);
        let ce = ctx.assign_advice(e);
        let mut ql = MainGateCoeffs::zero();
        ql.sa = one;
        ql.sb = m1;
        ql.sc = one;
        ql.sd = d;
        ql.s_constant = one;
        ql.se = m1;
        proof {
            assert(ctx.cells@[p.y as int] == y);
            assert(ctx.cells@[cxx as int] == xx);
            assert(ctx.cells@[cyy as int] == yy);
            assert(ctx.cells@[cxy as int] == xy);
            assert(ctx.cells@[ce as int] == e);
            crate::region::lemma_main_gate_linear_row(ql, y.val(), yy.val(), xx.val(), xy.val(), e.val());
            crate::field::lemma_affine_row_zero(t.val(), 1);
        }
        self.main_gate.apply(ctx, ql, p.y, cyy, cxx, cxy, ce, ce);
        proof {
            assert(ctx.cells@[p.x as int] == x);
            let g = c0.gates.len() as int;
            let m = modulus();
            assert(coeff_vals(qm) =~= seq![0, 0, 0, 0, m - 1, 0, 1, 0, 0, 0, 0, 0, 0]);
            assert(coeff_vals(ql) =~= seq![1, m - 1, 1, 0, m - 1, 0, 0, 0, 1, 0, 0, 0, 0].update(3, edwards_d()));
            assert(ctx.gates@[g] == n1[g]);
            assert(n2[g] == n1[g]);
            assert(n3[g] == n2[g]);
            assert(ctx.gates@[g + 1] == n2[g + 1]);
            assert(n3[g + 1] == n2[g + 1]);
            assert(ctx.gates@[g + 2] == n3[g + 2]);
        }
        AssignedEccPoint { x: p.x, y: ce }
    }

    /// Returns `a + cond * b` for a bit `cond`, on the normalized operands:
    /// the identity, written `(0, 0)`, counts as the neutral element.
    pub fn cond_add(&self, ctx: &mut RegionCtx, a: &AssignedEccPoint, b: &AssignedEccPoint, cond: AssignedCondition) -> (r: AssignedEccPoint)
        requires
            old(ctx).wf(),
            a.in_region(old(ctx)),
            b.in_region(old(ctx)),
            cond < old(ctx).cells.len(),
            old(ctx).val(cond) == 0 || old(ctx).val(cond) == 1,
        ensures
            final(ctx).wf(),
            old(ctx).extended_by(final(ctx)),
            final(ctx).cells.len() == old(ctx).cells.len() + 12,
            final(ctx).gates.len() == old(ctx).gates.len() + 11,
            r.in_region(final(ctx)),
            lays_add(final(ctx), normalized(a.pv(old(ctx))), selected(normalized(b.pv(old(ctx))), old(ctx).val(cond)), r),
            old(ctx).val(cond) == 1 ==> r.pv(final(ctx)) == edwards_add(normalized(a.pv(old(ctx))), normalized(b.pv(old(ctx)))),
            old(ctx).val(cond) == 0 ==> r.pv(final(ctx)) == normalized(a.pv(old(ctx))),
            old(ctx).satisfied() && add_defined(normalized(a.pv(old(ctx))), selected(normalized(b.pv(old(ctx))), old(ctx).val(cond)))
                ==> final(ctx).satisfied(),
    {
        let ghost c0 = *ctx;
        let na = self.normalize(ctx, a);
        let ghost c1 = *ctx;
        proof {
            lemma_extended_val(&c0, &c1, b.x);
            lemma_extended_val(&c0, &c1, b.y);
        }
        let nb = self.normalize(ctx, b);
        let ghost c2 = *ctx;
        proof {
            lemma_extended_val(&c1, &c2, na.x);
            lemma_extended_val(&c1, &c2, na.y);
            lemma_extended_val(&c0, &c1, cond);
            lemma_extended_val(&c1, &c2, cond);
            lemma_extended_trans(&c0, &c1, &c2);
        }
        let r = self.cond_add_raw(ctx, &na, &nb, cond);
        proof {
            lemma_extended_trans(&c0, &c2, ctx);
        }
        r
    }

    /// Complete addition `a + b` on the normalized operands, with no
    /// exceptional pair of points: the identity, written `(0, 0)`, counts as
    /// the neutral element. The constraints hold where both denominators of
    /// the law are non-zero.
    pub fn add(&self, ctx: &mut RegionCtx, a: &AssignedEccPoint, b: &AssignedEccPoint) -> (r: AssignedEccPoint)
        requires
            old(ctx).wf(),
            a.in_region(old(ctx)),
            b.in_region(old(ctx)),
        ensures
            final(ctx).wf(),
            old(ctx).extended_by(final(ctx)),
            final(ctx).cells.len() == old(ctx).cells.len() + 13,
            final(ctx).gates.len() == old(ctx).gates.len() + 12,
            r.in_region(final(ctx)),
            lays_add(final(ctx), normalized(a.pv(old(ctx))), normalized(b.pv(old(ctx))), r),
            final(ctx).satisfied() ==> add_gate_holds(normalized(a.pv(old(ctx))).0, normalized(a.pv(old(ctx))).1,
                normalized(b.pv(old(ctx))).0, normalized(b.pv(old(ctx))).1, r.pv(final(ctx)).0, r.pv(final(ctx)).1),
            r.pv(final(ctx)) == edwards_add(normalized(a.pv(old(ctx))), normalized(b.pv(old(ctx)))),
            a.pv(old(ctx)) == (0int, 0int) && on_curve_spec(b.pv(old(ctx)).0, b.pv(old(ctx)).1) ==> r.pv(final(ctx)) == b.pv(old(ctx)),
            b.pv(old(ctx)) == (0int, 0int) && on_curve_spec(a.pv(old(ctx)).0, a.pv(old(ctx)).1) ==> r.pv(final(ctx)) == a.pv(old(ctx)),
            old(ctx).satisfied() && add_defined(normalized(a.pv(old(ctx))), normalized(b.pv(old(ctx)))) ==> final(ctx).satisfied(),
    {
        let ghost c0 = *ctx;
        let one = self.main_gate.assign_constant(ctx, Fe::one());
        proof {
            lemma_extended_val(&c0, ctx, a.x);
            lemma_extended_val(&c0, ctx, a.y);
            lemma_extended_val(&c0, ctx, b.x);
            lemma_extended_val(&c0, ctx, b.y);
        }
        let r = self.cond_add(ctx, a, b, one);
        proof {
            let (pa, pb) = (a.pv(&c0), b.pv(&c0));
            assert(c0.cells@[a.x as int].wf() && c0.cells@[a.y as int].wf());
            assert(c0.cells@[b.x as int].wf() && c0.cells@[b.y as int].wf());
            if pa == (0int, 0int) && on_curve_spec(pb.0, pb.1) {
                lemma_normalized_zero();
                lemma_normalized_on_curve(pb.0, pb.1);
                lemma_add_identity_left(pb);
            }
            if pb == (0int, 0int) && on_curve_spec(pa.0, pa.1) {
                lemma_normalized_zero();
                lemma_normalized_on_curve(pa.0, pa.1);
                lemma_add_identity_right(pa);
            }
        }
        r
    }

    /// Variable-base multiplication `[scalar] base` by double-and-add over all
    /// 255 bits of the scalar cell, most significant first: each step doubles
    /// the accumulator, then adds the normalized base where the bit is set.
    /// The shape of the circuit does not depend on the scalar.
    pub fn mul(&self, ctx: &mut RegionCtx, scalar: &ScalarVar, base: &AssignedEccPoint) -> (r: AssignedEccPoint)
        requires
            old(ctx).wf(),
            scalar.0 < old(ctx).cells.len(),
            base.in_region(old(ctx)),
        ensures
            final(ctx).wf(),
            old(ctx).extended_by(final(ctx)),
            final(ctx).cells.len() == old(ctx).cells.len() + MUL_CELLS,
            final(ctx).gates.len() == old(ctx).gates.len() + MUL_GATES,
            r.in_region(final(ctx)),
            r.pv(final(ctx)) == ladder(normalized(base.pv(old(ctx))), old(ctx).val(scalar.0) as nat, NUM_BITS as nat),
            old(ctx).satisfied() && ladder_defined(normalized(base.pv(old(ctx))), nat_bits(old(ctx).val(scalar.0) as nat, NUM_BITS as nat))
                ==> final(ctx).satisfied(),
            normalize_rows(final(ctx).gates@, old(ctx).gates.len() as int, old(ctx).cells.len() as int, *base),
            mul_raw_rows(final(ctx).gates@, old(ctx).gates.len() + 4, old(ctx).cells.len() + 4, scalar.0,
                AssignedEccPoint { x: base.x, y: (old(ctx).cells.len() + 3) as usize }),
    {
        let ghost c0 = *ctx;
        let nb = self.normalize(ctx, base);
        proof {
            lemma_extended_val(&c0, ctx, scalar.0);
        }
        let ghost c1 = *ctx;
        let r = self.mul_raw(ctx, scalar, &nb);
        proof {
            lemma_extended_trans(&c0, &c1, ctx);
            lemma_prefix_eq(&c1, ctx);
            lemma_normalize_rows_stable(c1.gates@, ctx.gates@, c0.gates.len() as int, c0.cells.len() as int, *base);
        }
        r
    }

    /// `a + b` by the complete-addition gate, on the coordinates as they stand.
    fn add_raw(&self, ctx: &mut RegionCtx, a: &AssignedEccPoint, b: &AssignedEccPoint) -> (r: AssignedEccPoint)
        requires
            old(ctx).wf(),
            a.in_region(old(ctx)),
            b.in_region(old(ctx)),
        ensures
            final(ctx).wf(),
            old(ctx).extended_by(final(ctx)),
            final(ctx).cells.len() == old(ctx).cells.len() + 5,
            final(ctx).gates.len() == old(ctx).gates.len() + 4,
            r.in_region(final(ctx)),
            lays_add(final(ctx), a.pv(old(ctx)), b.pv(old(ctx)), r),
            r.pv(final(ctx)) == edwards_add(a.pv(old(ctx)), b.pv(old(ctx))),
            old(ctx).satisfied() && add_defined(a.pv(old(ctx)), b.pv(old(ctx))) ==> final(ctx).satisfied(),
            add_raw_rows(final(ctx).gates@, old(ctx).gates.len() as int, old(ctx).cells.len() as int, *a, *b),
            r.x == old(ctx).cells.len() + 3 && r.y == old(ctx).cells.len() + 4,
    {
        let ghost c0 = *ctx;
        let one = self.main_gate.assign_constant(ctx, Fe::one());
        let ghost c1 = *ctx;
        proof {
            assert(fsub(0, 1) == modulus() - 1) by {
                crate::field::lemma_modulus_bounds();
                vstd::arithmetic::div_mod::lemma_mod_add_multiples_vanish(-1, modulus());
                vstd::arithmetic::div_mod::lemma_small_mod((modulus() - 1) as nat, modulus() as nat);
            }
        }
        proof {
            assert(ctx.cells@[a.x as int] == c0.cells@[a.x as int]);
            assert(ctx.cells@[a.y as int] == c0.cells@[a.y as int]);
            assert(ctx.cells@[b.x as int] == c0.cells@[b.x as int]);
            assert(ctx.cells@[b.y as int] == c0.cells@[b.y as int]);
        }
        let r = self.cond_add_raw(ctx, a, b, one);
        proof {
            lemma_prefix_eq(&c1, ctx);
            assert(ctx.gates@[c0.gates.len() as int] == c1.gates@.last());
        }
        r
    }

    /// Double-and-add over all 255 bits of the scalar cell, most significant
    /// first, on the coordinates of `base` as they stand.
    #[verifier::spinoff_prover]
    #[verifier::rlimit(100)]
    fn mul_raw(&self, ctx: &mut RegionCtx, scalar: &ScalarVar, base: &AssignedEccPoint) -> (r: AssignedEccPoint)
        requires
            old(ctx).wf(),
            scalar.0 < old(ctx).cells.len(),
            base.in_region(old(ctx)),
        ensures
            final(ctx).wf(),
            old(ctx).extended_by(final(ctx)),
            final(ctx).cells.len() == old(ctx).cells.len() + (MUL_CELLS - 4),
            final(ctx).gates.len() == old(ctx).gates.len() + (MUL_GATES - 4),
            r.in_region(final(ctx)),
            r.pv(final(ctx)) == ladder(base.pv(old(ctx)), old(ctx).val(scalar.0) as nat, NUM_BITS as nat),
            old(ctx).satisfied() && ladder_defined(base.pv(old(ctx)), nat_bits(old(ctx).val(scalar.0) as nat, NUM_BITS as nat))
                ==> final(ctx).satisfied(),
            mul_raw_rows(final(ctx).gates@, old(ctx).gates.len() as int, old(ctx).cells.len() as int, scalar.0, *base),
    {
        let ghost c0 = *ctx;
        proof {
            crate::field::lemma_modulus_bounds();
        }
        let bits = self.main_gate.to_bits(ctx, scalar.0, NUM_BITS);
        let ghost c1 = *ctx;
        let ghost bs = Seq::new(NUM_BITS as nat, |i: int| c1.val(bits@[i]) == 1);
        let zero = self.main_gate.assign_constant(ctx, Fe::zero());
        let ghost cz = *ctx;
        let one = self.main_gate.assign_constant(ctx, Fe::one());
        let mut acc = AssignedEccPoint { x: zero, y: one };
        let ghost gl = ctx.gates@;
        proof {
            lemma_prefix_eq(&c1, &cz);
            assert(gl.drop_last() == cz.gates@);
            assert(gl[c0.gates.len() + 512] == cz.gates@[c0.gates.len() + 512]);
            lemma_prefix_eq(&c1, ctx);
            lemma_to_bits_rows_stable(c1.gates@, gl, c0.gates.len() as int, c0.cells.len() as int, scalar.0, NUM_BITS as int);
            assert(fsub(0, 0) == 0) by {
                vstd::arithmetic::div_mod::lemma_small_mod(0, modulus() as nat);
            }
            assert(fsub(0, 1) == modulus() - 1) by {
                vstd::arithmetic::div_mod::lemma_mod_add_multiples_vanish(-1, modulus());
                vstd::arithmetic::div_mod::lemma_small_mod((modulus() - 1) as nat, modulus() as nat);
            }
            lemma_extended_val(&c0, &c1, base.x);
            lemma_extended_val(&c0, &c1, base.y);
            lemma_extended_trans(&c0, &c1, ctx);
            lemma_extended_val(&c0, ctx, base.x);
            lemma_extended_val(&c0, ctx, base.y);
            assert(bs.subrange(NUM_BITS as int, NUM_BITS as int) =~= Seq::<bool>::empty());
        }
        let mut i: usize = NUM_BITS;
        while i > 0
            invariant
                ctx.wf(),
                c0.extended_by(ctx),
                c1.extended_by(ctx),
                i <= NUM_BITS,
                bits.len() == NUM_BITS,
                forall|j: int| 0 <= j < NUM_BITS ==> #[trigger] bits@[j] < c1.cells.len()
                    && (c1.val(bits@[j]) == 0 || c1.val(bits@[j]) == 1),
                bs == Seq::new(NUM_BITS as nat, |j: int| c1.val(bits@[j]) == 1),
                base.in_region(&c0),
                one < ctx.cells.len(),
                ctx.val(one) == 1,
                acc.in_region(ctx),
                acc.pv(ctx) == ladder_bits(base.pv(&c0), bs.subrange(i as int, NUM_BITS as int)),
                ctx.cells.len() == c0.cells.len() + 513 + 8 * (NUM_BITS - i),
                ctx.gates.len() == c0.gates.len() + 514 + 6 * (NUM_BITS - i),
                c0.satisfied() ==> c1.satisfied(),
                c0.satisfied() && ladder_defined(base.pv(&c0), bs) ==> ladder_defined(base.pv(&c0), bs.subrange(i as int, NUM_BITS as int)),
                c1.satisfied() && ladder_defined(base.pv(&c0), bs.subrange(i as int, NUM_BITS as int)) ==> ctx.satisfied(),
                head_rows(gl, c0.gates.len() as int, c0.cells.len() as int, scalar.0),
                prefix_eq(ctx.gates@, gl),
                gl.len() == c0.gates.len() + 514,
                zero == c0.cells.len() + 511,
                one == c0.cells.len() + 512,
                i == NUM_BITS ==> acc.x == zero && acc.y == one,
                i < NUM_BITS ==> acc.x == ctx.cells.len() - 2 && acc.y == ctx.cells.len() - 1,
                forall|j: int| 0 <= j < NUM_BITS ==> #[trigger] bits@[j] == c0.cells.len() + 1 + 2 * j,
                forall|k: int| 0 <= k < NUM_BITS - i ==> #[trigger] ladder_step_rows(ctx.gates@, c0.gates.len() as int, c0.cells.len() as int, *base, k),
            decreases i,
        {
            i = i - 1;
            let ghost gs0 = ctx.gates@;
            let ghost c2 = *ctx;
            proof {
                let s = bs.subrange(i as int, NUM_BITS as int);
                assert(s.drop_first() =~= bs.subrange(i + 1, NUM_BITS as int));
                if c0.satisfied() && ladder_defined(base.pv(&c0), bs) {
                    lemma_ladder_defined_suffix(base.pv(&c0), bs, i as int);
                }
            }
            proof {
                lemma_extended_val(&c0, &c2, base.x);
                lemma_extended_val(&c0, &c2, base.y);
            }
            let dbl = self.cond_add_raw(ctx, &acc, &acc, one);
            let ghost c3 = *ctx;
            proof {
                lemma_extended_val(&c2, &c3, one);
                lemma_extended_val(&c0, &c3, base.x);
                lemma_extended_val(&c0, &c3, base.y);
                lemma_extended_val(&c1, &c3, bits@[i as int]);
                lemma_extended_trans(&c0, &c2, &c3);
                lemma_extended_trans(&c1, &c2, &c3);
            }
            proof {
                let s = bs.subrange(i as int, NUM_BITS as int);
                assert(s[0] == bs[i as int]);
                if !bs[i as int] {
                    lemma_add_defined_identity(dbl.pv(&c3));
                }
            }
            acc = self.cond_add_raw(ctx, &dbl, base, bits[i]);
            proof {
                let g0 = c0.gates.len() as int;
                let n0 = c0.cells.len() as int;
                let k = (NUM_BITS - 1 - i) as int;
                lemma_prefix_eq(&c2, &c3);
                lemma_prefix_eq(&c3, ctx);
                lemma_prefix_eq(&c2, ctx);
                lemma_prefix_eq_trans(ctx.gates@, gs0, gl);
                assert(cond_add_rows(c3.gates@, g0 + 514 + 6 * k, n0 + 513 + 8 * k, dbl_in(n0, k), dbl_in(n0, k), one));
                lemma_cond_add_rows_stable(c3.gates@, ctx.gates@, g0 + 514 + 6 * k, n0 + 513 + 8 * k, dbl_in(n0, k), dbl_in(n0, k), one);
                assert(ladder_step_rows(ctx.gates@, g0, n0, *base, k));
                assert forall|kk: int| 0 <= kk < k + 1 implies #[trigger] ladder_step_rows(ctx.gates@, g0, n0, *base, kk) by {
                    if kk < k {
                        assert(ladder_step_rows(gs0, g0, n0, *base, kk));
                        lemma_step_rows_stable(gs0, ctx.gates@, g0, n0, *base, kk);
                    }
                }
                lemma_extended_val(&c3, ctx, one);
                lemma_extended_trans(&c0, &c3, ctx);
                lemma_extended_trans(&c1, &c3, ctx);
                let s = bs.subrange(i as int, NUM_BITS as int);
                assert(s.drop_first() =~= bs.subrange(i + 1, NUM_BITS as int));
                assert(s[0] == bs[i as int]);
            }
        }
        proof {
            lemma_head_rows_stable(gl, ctx.gates@, c0.gates.len() as int, c0.cells.len() as int, scalar.0);
            assert(bs.subrange(0, NUM_BITS as int) =~= bs);
            lemma_ladder_bits(base.pv(&c0), bs);
            lemma_bits_unique(bs);
        }
        acc
    }

    /// Given three public points `A1, A2, A3` and two bit cells `b0, b1`,
    /// returns `A{b0 + 2 b1}`, with `A0` the neutral element `(0, 1)`.
    /// Each coordinate is the degree-2 multilinear interpolation of the four
    /// candidates, one row of the main gate with the points as coefficients:
    /// `x = x1 b0 + x2 b1 + (x3 - x2 - x1) b0 b1` and
    /// `y = (y1 - 1) b0 + (y2 - 1) b1 + (y3 - y2 - y1 + 1) b0 b1 + 1`.
    #[verifier::rlimit(100)]
    pub fn point_selection(&self, ctx: &mut RegionCtx, a_1: &Point, a_2: &Point, a_3: &Point, bit_1: AssignedCondition, bit_2: AssignedCondition) -> (r: AssignedEccPoint)
        requires
            old(ctx).wf(),
            a_1.wf() && a_2.wf() && a_3.wf(),
            bit_1 < old(ctx).cells.len(),
            bit_2 < old(ctx).cells.len(),
            old(ctx).val(bit_1) == 0 || old(ctx).val(bit_1) == 1,
            old(ctx).val(bit_2) == 0 || old(ctx).val(bit_2) == 1,
        ensures
            final(ctx).wf(),
            old(ctx).extended_by(final(ctx)),
            final(ctx).cells.len() == old(ctx).cells.len() + 2,
            final(ctx).gates.len() == old(ctx).gates.len() + 2,
            selection_row(final(ctx).gates@[old(ctx).gates.len() as int], bit_1, bit_2,
                a_1.x.val(), a_2.x.val(), fsub(fsub(a_3.x.val(), a_2.x.val()), a_1.x.val()), 0),
            selection_row(final(ctx).gates@[old(ctx).gates.len() + 1], bit_1, bit_2,
                fsub(a_1.y.val(), 1), fsub(a_2.y.val(), 1), fadd(fsub(fsub(a_3.y.val(), a_2.y.val()), a_1.y.val()), 1), 1),
            r.x == old(ctx).cells.len() && r.y == old(ctx).cells.len() + 1,
            r.in_region(final(ctx)),
            r.pv(final(ctx)) == select_point(a_1.pv(), a_2.pv(), a_3.pv(), old(ctx).val(bit_1) + 2 * old(ctx).val(bit_2)),
            old(ctx).satisfied() ==> final(ctx).satisfied(),
    {
        let ghost c0 = *ctx;
        let ghost m = modulus();
        let ghost (b0, b1v) = (c0.val(bit_1), c0.val(bit_2));
        let ghost (x1, x2, x3) = (a_1.x.val(), a_2.x.val(), a_3.x.val());
        let ghost (y1, y2, y3) = (a_1.y.val(), a_2.y.val(), a_3.y.val());
        let one = Fe::one();
        let m1 = minus_one();
        let b1 = fe_eq(ctx.value(bit_1), one);
        let b2 = fe_eq(ctx.value(bit_2), one);
        let (xv, yv) = if !b1 && !b2 {
            (Fe::zero(), one)
        } else if b1 && !b2 {
            (a_1.x, a_1.y)
        } else if !b1 && b2 {
            (a_2.x, a_2.y)
        } else {
            (a_3.x, a_3.y)
        };
        let x = ctx.assign_advice(xv);
        let mut qx = MainGateCoeffs::zero();
        qx.sa = a_1.x;
        qx.sb = a_2.x;
        qx.s_mul_ab = fe_sub(fe_sub(a_3.x, a_2.x), a_1.x);
        qx.se = m1;
        proof {
            crate::field::lemma_modulus_bounds();
            lemma_fsub2(x3, x2, x1);
            vstd::arithmetic::div_mod::lemma_small_mod(x1 as nat, m as nat);
            vstd::arithmetic::div_mod::lemma_small_mod(x2 as nat, m as nat);
            let xv_ = xv.val();
            lemma_selection_row(qx, b0, b1v, xv_, x1, x2, x3 - x2 - x1);
            assert(x1 * b0 + x2 * b1v + (m - 1) * xv_ + (x3 - x2 - x1) * (b0 * b1v) + 0 == m * xv_) by (nonlinear_arith)
                requires
                    b0 == 0 || b0 == 1,
                    b1v == 0 || b1v == 1,
                    xv_ == (if b0 == 0 && b1v == 0 { 0 } else if b0 == 1 && b1v == 0 { x1 } else if b0 == 0 && b1v == 1 { x2 } else { x3 });
            vstd::arithmetic::div_mod::lemma_mod_multiples_basic(xv_, m);
            assert(m * xv_ == xv_ * m) by (nonlinear_arith);
        }
        self.main_gate.apply(ctx, qx, bit_1, bit_2, bit_1, bit_1, x, x);
        let y = ctx.assign_advice(yv);
        let mut qy = MainGateCoeffs::zero();
        qy.sa = fe_sub(a_1.y, one);
        qy.sb = fe_sub(a_2.y, one);
        qy.s_mul_ab = fe_add(fe_sub(fe_sub(a_3.y, a_2.y), a_1.y), one);
        qy.s_constant = one;
        qy.se = m1;
        proof {
            crate::field::lemma_modulus_bounds();
            lemma_fsub2(y3, y2, y1);
            lemma_fadd_mod(y3 - y2 - y1, 1);
            vstd::arithmetic::div_mod::lemma_small_mod(1, m as nat);
            let yv_ = yv.val();
            lemma_selection_row(qy, b0, b1v, yv_, y1 - 1, y2 - 1, y3 - y2 - y1 + 1);
            assert((y1 - 1) * b0 + (y2 - 1) * b1v + (m - 1) * yv_ + (y3 - y2 - y1 + 1) * (b0 * b1v) + 1 == m * yv_) by (nonlinear_arith)
                requires
                    b0 == 0 || b0 == 1,
                    b1v == 0 || b1v == 1,
                    yv_ == (if b0 == 0 && b1v == 0 { 1 } else if b0 == 1 && b1v == 0 { y1 } else if b0 == 0 && b1v == 1 { y2 } else { y3 });
            vstd::arithmetic::div_mod::lemma_mod_multiples_basic(yv_, m);
            assert(m * yv_ == yv_ * m) by (nonlinear_arith);
        }
        self.main_gate.apply(ctx, qy, bit_1, bit_2, bit_1, bit_1, y, y);
        proof {
            assert(ctx.cells@[x as int] == xv);
        }
        AssignedEccPoint { x, y }
    }

    /// Fixed-base multiplication `[scalar] base` for a public base: the
    /// scalar is split into 126 windows of two bits; for window `i` the
    /// multiples `[j 4^i] base`, `j = 1, 2, 3`, are computed outside the
    /// circuit and enter only as coefficients of `point_selection`; the
    /// selected points are summed with `add`.
    pub fn fixed_mul(&self, ctx: &mut RegionCtx, scalar: &ScalarVar, base: &Point) -> (r: AssignedEccPoint)
        requires
            old(ctx).wf(),
            scalar.0 < old(ctx).cells.len(),
            old(ctx).val(scalar.0) < scalar_modulus(),
            base.on_curve(),
        ensures
            final(ctx).wf(),
            old(ctx).extended_by(final(ctx)),
            final(ctx).cells.len() == old(ctx).cells.len() + FIXED_MUL_CELLS,
            final(ctx).gates.len() == old(ctx).gates.len() + FIXED_MUL_GATES,
            r.in_region(final(ctx)),
            r.pv(final(ctx)) == fixed_acc(base.pv(), nat_bits(old(ctx).val(scalar.0) as nat, SCALAR_NUM_BITS as nat), N_WINDOWS as nat),
            old(ctx).satisfied() && fixed_defined(base.pv(), nat_bits(old(ctx).val(scalar.0) as nat, SCALAR_NUM_BITS as nat))
                ==> final(ctx).satisfied(),
            exists|t: Seq<[Point; 3]>| #[trigger] table_of(t, base.pv())
                && fixed_mul_rows(final(ctx).gates@, old(ctx).gates.len() as int, old(ctx).cells.len() as int, scalar.0, t),
    {
        let table = fixed_base_table(base);
        self.fixed_mul_with_table(ctx, scalar, &table, Ghost(base.pv()))
    }

    /// `fixed_mul` with the table of `fixed_base_table` computed beforehand.
    #[verifier::spinoff_prover]
    #[verifier::rlimit(100)]
    pub fn fixed_mul_with_table(&self, ctx: &mut RegionCtx, scalar: &ScalarVar, table: &Vec<[Point; 3]>, base: Ghost<(int, int)>) -> (r: AssignedEccPoint)
        requires
            old(ctx).wf(),
            scalar.0 < old(ctx).cells.len(),
            old(ctx).val(scalar.0) < scalar_modulus(),
            table_of(table@, base@),
        ensures
            final(ctx).wf(),
            old(ctx).extended_by(final(ctx)),
            final(ctx).cells.len() == old(ctx).cells.len() + FIXED_MUL_CELLS,
            final(ctx).gates.len() == old(ctx).gates.len() + FIXED_MUL_GATES,
            r.in_region(final(ctx)),
            r.pv(final(ctx)) == fixed_acc(base@, nat_bits(old(ctx).val(scalar.0) as nat, SCALAR_NUM_BITS as nat), N_WINDOWS as nat),
            old(ctx).satisfied() && fixed_defined(base@, nat_bits(old(ctx).val(scalar.0) as nat, SCALAR_NUM_BITS as nat))
                ==> final(ctx).satisfied(),
            fixed_mul_rows(final(ctx).gates@, old(ctx).gates.len() as int, old(ctx).cells.len() as int, scalar.0, table@),
    {
        let ghost c0 = *ctx;
        proof {
            lemma_scalar_modulus_bound();
        }
        let bits = self.main_gate.to_bits(ctx, scalar.0, SCALAR_NUM_BITS);
        let ghost c1 = *ctx;
        let ghost bs = Seq::new(SCALAR_NUM_BITS as nat, |i: int| c1.val(bits@[i]) == 1);
        proof {
            lemma_bits_unique(bs);
            assert(window_of(bs, 0) == c1.val(bits@[0]) + 2 * c1.val(bits@[1]));
            lemma_extended_val(&c0, &c1, scalar.0);
        }
        let mut acc = self.point_selection(ctx, &table[0][0], &table[0][1], &table[0][2], bits[0], bits[1]);
        let ghost gl = ctx.gates@;
        proof {
            lemma_extended_trans(&c0, &c1, ctx);
            lemma_prefix_eq(&c1, ctx);
            lemma_to_bits_rows_stable(c1.gates@, gl, c0.gates.len() as int, c0.cells.len() as int, scalar.0, SCALAR_NUM_BITS as int);
            assert(window_rows(gl, c0.gates.len() + 506, bits@[0], bits@[1], table@[0]));
        }
        let mut i: usize = 1;
        while i < N_WINDOWS
            invariant
                ctx.wf(),
                c0.extended_by(ctx),
                c1.extended_by(ctx),
                1 <= i <= N_WINDOWS,
                table_of(table@, base@),
                bits.len() == SCALAR_NUM_BITS,
                forall|j: int| 0 <= j < SCALAR_NUM_BITS ==> #[trigger] bits@[j] < c1.cells.len()
                    && (c1.val(bits@[j]) == 0 || c1.val(bits@[j]) == 1),
                bs == Seq::new(SCALAR_NUM_BITS as nat, |j: int| c1.val(bits@[j]) == 1),
                acc.in_region(ctx),
                acc.pv(ctx) == fixed_acc(base@, bs, i as nat),
                ctx.cells.len() == c0.cells.len() + 507 + 7 * (i - 1),
                ctx.gates.len() == c0.gates.len() + 508 + 6 * (i - 1),
                bs == nat_bits(c0.val(scalar.0) as nat, SCALAR_NUM_BITS as nat),
                c0.satisfied() && fixed_defined(base@, bs) ==> ctx.satisfied(),
                forall|j: int| 0 <= j < SCALAR_NUM_BITS ==> #[trigger] bits@[j] == c0.cells.len() + 1 + 2 * j,
                prefix_eq(ctx.gates@, gl),
                gl.len() == c0.gates.len() + 508,
                crate::main_gate::to_bits_rows(gl, c0.gates.len() as int, c0.cells.len() as int, scalar.0, SCALAR_NUM_BITS as int),
                window_rows(gl, c0.gates.len() + 506, (c0.cells.len() + 1) as usize, (c0.cells.len() + 3) as usize, table@[0]),
                acc.x == fixed_acc_in(c0.cells.len() as int, i as int).x && acc.y == fixed_acc_in(c0.cells.len() as int, i as int).y,
                forall|ii: int| 1 <= ii < i ==> #[trigger] fixed_window_rows(ctx.gates@, c0.gates.len() as int, c0.cells.len() as int, table@, ii),
            decreases N_WINDOWS - i,
        {
            let ghost c2 = *ctx;
            let ghost gs0 = ctx.gates@;
            proof {
                lemma_extended_val(&c1, &c2, bits@[2 * i as int]);
                lemma_extended_val(&c1, &c2, bits@[2 * i + 1]);
                assert(window_of(bs, i as int) == c1.val(bits@[2 * i as int]) + 2 * c1.val(bits@[2 * i + 1]));
            }
            let z = self.point_selection(ctx, &table[i][0], &table[i][1], &table[i][2], bits[2 * i], bits[2 * i + 1]);
            let ghost c3 = *ctx;
            proof {
                lemma_extended_val(&c2, &c3, acc.x);
                lemma_extended_val(&c2, &c3, acc.y);
                lemma_extended_trans(&c0, &c2, &c3);
                lemma_extended_trans(&c1, &c2, &c3);
            }
            let ghost acc_in = acc;
            acc = self.add_raw(ctx, &acc, &z);
            proof {
                lemma_extended_trans(&c0, &c3, ctx);
                lemma_extended_trans(&c1, &c3, ctx);
                let g0 = c0.gates.len() as int;
                let n0 = c0.cells.len() as int;
                let gw = g0 + 508 + 6 * (i - 1);
                lemma_prefix_eq(&c2, &c3);
                lemma_prefix_eq(&c3, ctx);
                lemma_prefix_eq(&c2, ctx);
                lemma_prefix_eq_trans(ctx.gates@, gs0, gl);
                lemma_window_rows_stable(c3.gates@, ctx.gates@, gw, bits@[2 * i as int], bits@[2 * i + 1], table@[i as int]);
                assert(fixed_window_rows(ctx.gates@, g0, n0, table@, i as int));
                assert forall|ii: int| 1 <= ii < i + 1 implies #[trigger] fixed_window_rows(ctx.gates@, g0, n0, table@, ii) by {
                    if ii < i {
                        assert(fixed_window_rows(gs0, g0, n0, table@, ii));
                        lemma_fixed_window_rows_stable(gs0, ctx.gates@, g0, n0, table@, ii);
                    }
                }
            }
            i = i + 1;
        }
        proof {
            lemma_to_bits_rows_stable(gl, ctx.gates@, c0.gates.len() as int, c0.cells.len() as int, scalar.0, SCALAR_NUM_BITS as int);
            lemma_window_rows_stable(gl, ctx.gates@, c0.gates.len() + 506, (c0.cells.len() + 1) as usize, (c0.cells.len() + 3) as usize, table@[0]);
        }
        acc
    }
}

/// The table of a public base for fixed-base multiplication: for each
/// window `i`, the points `[4^i] base`, `[2 4^i] base` and `[3 4^i] base`,
/// obtained by repeated doubling outside the circuit.
pub fn fixed_base_table(base: &Point) -> (r: Vec<[Point; 3]>)
    requires
        base.on_curve(),
    ensures
        table_of(r@, base.pv()),
{
    let mut r: Vec<[Point; 3]> = Vec::new();
    let mut p = *base;
    let mut i: usize = 0;
    while i < N_WINDOWS
        invariant
            i <= N_WINDOWS,
            p.on_curve(),
            p.pv() == pow4_point(base.pv(), i as nat),
            r.len() == i,
            forall|j: int| 0 <= j < i ==> table_entry_ok(#[trigger] r@[j], base.pv(), j as nat),
        decreases N_WINDOWS - i,
    {
        let p2 = native_double(p);
        let p3 = native_add(p2, p);
        r.push([p, p2, p3]);
        let p4 = native_double(p2);
        proof {
            assert(table_entry_ok(r@[i as int], base.pv(), i as nat));
        }
        p = p4;
        i = i + 1;
    }
    r
}

/// `[4^i] base`, by two doublings per step.
pub open spec fn pow4_point(base: (int, int), i: nat) -> (int, int)
    decreases i,
{
    if i == 0 {
        base
    } else {
        let p = pow4_point(base, (i - 1) as nat);
        edwards_add(edwards_add(p, p), edwards_add(p, p))
    }
}

/// The three points of window `i`: `P = [4^i] base`, `2P` and `2P + P`.
pub open spec fn table_entry_ok(e: [Point; 3], base: (int, int), i: nat) -> bool {
    let p = pow4_point(base, i);
    &&& e[0].on_curve() && e[1].on_curve() && e[2].on_curve()
    &&& e[0].pv() == p
    &&& e[1].pv() == edwards_add(p, p)
    &&& e[2].pv() == edwards_add(edwards_add(p, p), p)
}

pub open spec fn table_of(t: Seq<[Point; 3]>, base: (int, int)) -> bool {
    &&& t.len() == N_WINDOWS
    &&& forall|i: int| 0 <= i < N_WINDOWS ==> table_entry_ok(#[trigger] t[i], base, i as nat)
}

/// `(a - b) - c` in the field.
proof fn lemma_fsub2(a: int, b: int, c: int)
    ensures
        fsub(fsub(a, b), c) == (a - b - c) % modulus(),
{
    crate::field::lemma_modulus_bounds();
    let m = modulus();
    vstd::arithmetic::div_mod::lemma_sub_mod_noop(a - b, c, m);
    vstd::arithmetic::div_mod::lemma_sub_mod_noop((a - b) % m, c, m);
    vstd::arithmetic::div_mod::lemma_mod_twice(a - b, m);
}

/// A row of `point_selection` evaluates to
/// `C1 b0 + C2 b1 - v + C3 b0 b1 + k` in the field, for coefficients
/// `C1, C2, C3` given modulo `p`.
proof fn lemma_selection_row(q: MainGateCoeffs, b0: int, b1: int, v: int, c1: int, c2: int, c3: int)
    requires
        q.wf(),
        q.sc.val() == 0 && q.sd.val() == 0,
        q.se_next.val() == 0 && q.s_mul_cd.val() == 0,
        q.q_h1.val() == 0 && q.q_h2.val() == 0 && q.q_h3.val() == 0 && q.q_h4.val() == 0,
        q.sa.val() == c1 % modulus(),
        q.sb.val() == c2 % modulus(),
        q.s_mul_ab.val() == c3 % modulus(),
        q.se.val() == modulus() - 1,
        b0 == 0 || b0 == 1,
        b1 == 0 || b1 == 1,
        0 <= v < modulus(),
    ensures
        main_gate_value(q, b0, b1, b0, b0, v, v)
            == (c1 * b0 + c2 * b1 + (modulus() - 1) * v + c3 * (b0 * b1) + q.s_constant.val()) % modulus(),
{
    crate::field::lemma_modulus_bounds();
    let m = modulus();
    lemma_main_gate_sparse(q, b0, b1, b0, b0, v, v);
    lemma_fmul_mod(c1, b0);
    lemma_fmul_mod(c2, b1);
    lemma_fadd_mod(c1 * b0, c2 * b1);
    let s1 = c1 * b0 + c2 * b1;
    lemma_fadd_mod(s1, (m - 1) * v);
    vstd::arithmetic::div_mod::lemma_small_mod(b0 as nat, m as nat);
    vstd::arithmetic::div_mod::lemma_small_mod(b1 as nat, m as nat);
    vstd::arithmetic::div_mod::lemma_mul_mod_noop_right(c3 % m, b0 * b1, m);
    lemma_fmul_mod(c3, b0 * b1);
    let s2 = s1 + (m - 1) * v;
    lemma_fadd_mod(s2, c3 * (b0 * b1));
    let s3 = s2 + c3 * (b0 * b1);
    lemma_fadd_mod(s3, q.s_constant.val());
}

/// Every addition of the windows' points in `fixed_mul` has non-zero
/// denominators.
pub open spec fn fixed_defined(base: (int, int), b: Seq<bool>) -> bool {
    forall|i: int| 1 <= i < N_WINDOWS ==> add_defined(
        #[trigger] fixed_acc(base, b, i as nat),
        window_point(base, i as nat, window_of(b, i)),
    )
}

/// Every addition of double-and-add over the bits `b` (the doubling, and
/// the addition of `p` where the bit is set) has non-zero denominators.
pub open spec fn ladder_defined(p: (int, int), b: Seq<bool>) -> bool
    decreases b.len(),
{
    if b.len() == 0 {
        true
    } else {
        let a = ladder_bits(p, b.drop_first());
        let d = edwards_add(a, a);
        &&& ladder_defined(p, b.drop_first())
        &&& add_defined(a, a)
        &&& (b[0] ==> add_defined(d, p))
    }
}

proof fn lemma_ladder_defined_suffix(p: (int, int), b: Seq<bool>, i: int)
    requires
        ladder_defined(p, b),
        0 <= i <= b.len(),
    ensures
        ladder_defined(p, b.subrange(i, b.len() as int)),
    decreases i,
{
    if i > 0 {
        lemma_ladder_defined_suffix(p, b, i - 1);
        let s = b.subrange(i - 1, b.len() as int);
        assert(s.drop_first() =~= b.subrange(i, b.len() as int));
    } else {
        assert(b.subrange(0, b.len() as int) =~= b);
    }
}

/// Adding the neutral element `(0, 1)` never divides by zero.
pub proof fn lemma_add_defined_identity(p: (int, int))
    ensures
        add_defined(p, identity_spec()),
{
    crate::field::lemma_modulus_bounds();
    let m = modulus();
    vstd::arithmetic::div_mod::lemma_small_mod(0, m as nat);
    vstd::arithmetic::div_mod::lemma_small_mod(1, m as nat);
    let t = fmul(fmul(edwards_d(), p.0), 0);
    assert(fmul(edwards_d(), p.0) * 0 == 0);
    assert(t == 0);
    assert(0 * p.1 == 0);
    assert(fmul(t, p.1) == 0);
    assert(0 * 1 == 0);
    assert(add_lambda(p, identity_spec()) == 0);
}

/// Cells that `mul` assigns, whatever the scalar: the normalized base, the
/// 255 bits with their accumulator, the start point and two additions per bit.
pub const MUL_CELLS: usize = 2557;

/// Gates that `mul` lays, whatever the scalar.
pub const MUL_GATES: usize = 2048;

/// Cells that `fixed_mul` assigns, whatever the scalar: the 252 bits with
/// their accumulator, and a selection and an addition per window.
pub const FIXED_MUL_CELLS: usize = 1382;

/// Gates that `fixed_mul` lays, whatever the scalar.
pub const FIXED_MUL_GATES: usize = 1258;

/// A row of `point_selection`: the main gate on the two bit cells, with
/// the coefficients `ca`, `cb`, `cm`, `k` (fixed by the public points alone)
/// on `b0`, `b1`, `b0 b1` and the constant, and `-1` on the result.
pub open spec fn selection_row(g: Gate, bit_1: usize, bit_2: usize, ca: int, cb: int, cm: int, k: int) -> bool {
    match g {
        Gate::Main { q, a, b, c, d, e, e_next } => {
            &&& a == bit_1 && b == bit_2
            &&& q.sa.val() == ca && q.sb.val() == cb && q.s_mul_ab.val() == cm && q.s_constant.val() == k
            &&& q.se.val() == modulus() - 1
            &&& q.sc.val() == 0 && q.sd.val() == 0 && q.se_next.val() == 0 && q.s_mul_cd.val() == 0
            &&& q.q_h1.val() == 0 && q.q_h2.val() == 0 && q.q_h3.val() == 0 && q.q_h4.val() == 0
        },
        _ => false,
    }
}

/// Number of two-bit windows of a scalar.
pub const N_WINDOWS: usize = 126;

/// The point that `point_selection` picks for the two-bit value `w`.
pub open spec fn select_point(a_1: (int, int), a_2: (int, int), a_3: (int, int), w: int) -> (int, int) {
    if w == 0 {
        identity_spec()
    } else if w == 1 {
        a_1
    } else if w == 2 {
        a_2
    } else {
        a_3
    }
}

/// The binary digits of `k`, least significant first.
pub open spec fn nat_bits(k: nat, n: nat) -> Seq<bool>
    decreases n,
{
    if n == 0 {
        Seq::empty()
    } else {
        seq![k % 2 == 1] + nat_bits(k / 2, (n - 1) as nat)
    }
}

/// Bits are the binary digits of the number they denote.
pub proof fn lemma_bits_unique(b: Seq<bool>)
    ensures
        b == nat_bits(bits_val(b), b.len()),
    decreases b.len(),
{
    if b.len() > 0 {
        lemma_bits_unique(b.drop_first());
        let k = bits_val(b);
        let r = bits_val(b.drop_first());
        let b0: nat = if b[0] { 1 } else { 0 };
        assert(k == b0 + 2 * r);
        assert(k / 2 == r && (k % 2 == 1) == b[0]) by (nonlinear_arith)
            requires k == b0 + 2 * r, b0 == (if b[0] { 1nat } else { 0nat });
        assert(b =~= seq![b[0]] + b.drop_first());
    }
}

/// The two-bit value of window `i`.
pub open spec fn window_of(b: Seq<bool>, i: int) -> int {
    (if b[2 * i] { 1int } else { 0int }) + 2 * (if b[2 * i + 1] { 1int } else { 0int })
}

/// The point selected for the window value `w` of window `i`: the neutral
/// element for zero, else the `w`-th point of the window's table entry.
pub open spec fn window_point(base: (int, int), i: nat, w: int) -> (int, int) {
    let p = pow4_point(base, i);
    if w == 0 {
        identity_spec()
    } else if w == 1 {
        p
    } else if w == 2 {
        edwards_add(p, p)
    } else {
        edwards_add(edwards_add(p, p), p)
    }
}

/// The sum of the selected points of the first `n` windows, added in order.
pub open spec fn fixed_acc(base: (int, int), b: Seq<bool>, n: nat) -> (int, int)
    decreases n,
{
    if n <= 1 {
        window_point(base, 0, window_of(b, 0))
    } else {
        edwards_add(fixed_acc(base, b, (n - 1) as nat), window_point(base, (n - 1) as nat, window_of(b, n - 1)))
    }
}

proof fn lemma_scalar_modulus_bound()
    ensures
        0 < scalar_modulus() < pow2(SCALAR_NUM_BITS as nat),
        scalar_modulus() < modulus(),
{
    vstd::arithmetic::power2::lemma2_to64();
    vstd::arithmetic::power2::lemma2_to64_rest();
    vstd::arithmetic::power2::lemma_pow2_adds(64, 64);
    vstd::arithmetic::power2::lemma_pow2_adds(128, 64);
    vstd::arithmetic::power2::lemma_pow2_adds(192, 60);
    assert(pow2(60) == 0x1000000000000000);
}

/// The addition law is commutative.
pub proof fn lemma_add_commutative(p: (int, int), q: (int, int))
    ensures
        edwards_add(p, q) == edwards_add(q, p),
{
    let d = edwards_d();
    lemma_fmul_regroup(d, q.0, p.0);
    let b = fmul(fmul(d, p.0), q.0);
    lemma_fmul_regroup(b, q.1, p.1);
    assert(add_lambda(q, p) == add_lambda(p, q));
    assert(fmul(q.0, p.0) == fmul(p.0, q.0));
    assert(fmul(q.1, p.1) == fmul(p.1, q.1));
}

/// A leading zero bit does not change double-and-add: doubling the neutral
/// element gives it back.
pub proof fn lemma_ladder_extend(p: (int, int), k: nat, n: nat)
    requires
        k < pow2(n),
    ensures
        ladder(p, k, n + 1) == ladder(p, k, n),
    decreases n,
{
    crate::field::lemma_modulus_bounds();
    lemma_add_identity_left(identity_spec());
    if n == 0 {
        assert(pow2(0) == 1) by { vstd::arithmetic::power2::lemma2_to64(); }
        assert(k == 0);
        assert(ladder(p, k / 2, 0) == identity_spec());
    } else {
        vstd::arithmetic::power2::lemma_pow2_unfold(n);
        assert(k / 2 < pow2((n - 1) as nat));
        lemma_ladder_extend(p, k / 2, (n - 1) as nat);
    }
}

/// Multiplication in the circuit, by double-and-add over 255 bits of the
/// normalized base, agrees with multiplication outside it, over the 252 bits
/// of a scalar, for every point of the curve and every scalar below `r`.
pub proof fn lemma_mul_matches_native(p: (int, int), k: nat)
    requires
        0 <= p.0 < modulus(),
        0 <= p.1 < modulus(),
        on_curve_spec(p.0, p.1),
        k < scalar_modulus(),
    ensures
        ladder(normalized(p), k, NUM_BITS as nat) == ladder(p, k, SCALAR_NUM_BITS as nat),
{
    lemma_normalized_on_curve(p.0, p.1);
    lemma_scalar_modulus_bound();
    vstd::arithmetic::power2::lemma_pow2_strictly_increases(252, 253);
    vstd::arithmetic::power2::lemma_pow2_strictly_increases(253, 254);
    lemma_ladder_extend(p, k, 252);
    lemma_ladder_extend(p, k, 253);
    lemma_ladder_extend(p, k, 254);
}

/// The operations on points that the signature gates use, as a capability
/// set: a chip for another curve or field backend would implement the same
/// interface.
pub trait EccInstructions {
    /// Witnesses a point of the curve, the identity written `(0, 0)`.
    fn witness_point(&self, ctx: &mut RegionCtx, p: &Point) -> (r: AssignedEccPoint)
        requires
            old(ctx).wf(),
            p.on_curve(),
        ensures
            final(ctx).wf(),
            old(ctx).extended_by(final(ctx)),
            r.in_region(final(ctx)),
            r.pv(final(ctx)) == witness_coords(p.pv()),
            final(ctx).gates@ == old(ctx).gates@.push(Gate::PointOrZero { x: r.x, y: r.y });

    /// Constrains two points to be equal.
    fn constrain_equal(&self, ctx: &mut RegionCtx, a: &AssignedEccPoint, b: &AssignedEccPoint)
        requires
            old(ctx).wf(),
            a.in_region(old(ctx)),
            b.in_region(old(ctx)),
        ensures
            final(ctx).wf(),
            old(ctx).extended_by(final(ctx)),
            final(ctx).satisfied() <==> (old(ctx).satisfied() && a.pv(old(ctx)) == b.pv(old(ctx)));

    /// Complete addition of the normalized points, laying the addition gate.
    fn add(&self, ctx: &mut RegionCtx, a: &AssignedEccPoint, b: &AssignedEccPoint) -> (r: AssignedEccPoint)
        requires
            old(ctx).wf(),
            a.in_region(old(ctx)),
            b.in_region(old(ctx)),
        ensures
            final(ctx).wf(),
            old(ctx).extended_by(final(ctx)),
            r.in_region(final(ctx)),
            lays_add(final(ctx), normalized(a.pv(old(ctx))), normalized(b.pv(old(ctx))), r),
            r.pv(final(ctx)) == edwards_add(normalized(a.pv(old(ctx))), normalized(b.pv(old(ctx))));

    /// Variable-base multiplication by double-and-add over all 255 bits.
    fn mul(&self, ctx: &mut RegionCtx, scalar: &ScalarVar, base: &AssignedEccPoint) -> (r: AssignedEccPoint)
        requires
            old(ctx).wf(),
            scalar.0 < old(ctx).cells.len(),
            base.in_region(old(ctx)),
        ensures
            final(ctx).wf(),
            old(ctx).extended_by(final(ctx)),
            r.in_region(final(ctx)),
            final(ctx).cells.len() == old(ctx).cells.len() + MUL_CELLS,
            final(ctx).gates.len() == old(ctx).gates.len() + MUL_GATES,
            r.pv(final(ctx)) == ladder(normalized(base.pv(old(ctx))), old(ctx).val(scalar.0) as nat, NUM_BITS as nat);

    /// Fixed-base multiplication by two-bit windows over a public base.
    fn fixed_mul(&self, ctx: &mut RegionCtx, scalar: &ScalarVar, base: &Point) -> (r: AssignedEccPoint)
        requires
            old(ctx).wf(),
            scalar.0 < old(ctx).cells.len(),
            old(ctx).val(scalar.0) < scalar_modulus(),
            base.on_curve(),
        ensures
            final(ctx).wf(),
            old(ctx).extended_by(final(ctx)),
            r.in_region(final(ctx)),
            final(ctx).cells.len() == old(ctx).cells.len() + FIXED_MUL_CELLS,
            final(ctx).gates.len() == old(ctx).gates.len() + FIXED_MUL_GATES,
            r.pv(final(ctx)) == fixed_acc(base.pv(), nat_bits(old(ctx).val(scalar.0) as nat, SCALAR_NUM_BITS as nat), N_WINDOWS as nat);
}

impl EccInstructions for EccChip {
    fn witness_point(&self, ctx: &mut RegionCtx, p: &Point) -> (r: AssignedEccPoint) {
        EccChip::witness_point(self, ctx, p)
    }

    fn constrain_equal(&self, ctx: &mut RegionCtx, a: &AssignedEccPoint, b: &AssignedEccPoint) {
        EccChip::constrain_equal(self, ctx, a, b)
    }

    fn add(&self, ctx: &mut RegionCtx, a: &AssignedEccPoint, b: &AssignedEccPoint) -> (r: AssignedEccPoint) {
        EccChip::add(self, ctx, a, b)
    }

    fn mul(&self, ctx: &mut RegionCtx, scalar: &ScalarVar, base: &AssignedEccPoint) -> (r: AssignedEccPoint) {
        EccChip::mul(self, ctx, scalar, base)
    }

    fn fixed_mul(&self, ctx: &mut RegionCtx, scalar: &ScalarVar, base: &Point) -> (r: AssignedEccPoint) {
        EccChip::fixed_mul(self, ctx, scalar, base)
    }
}

} // verus!
