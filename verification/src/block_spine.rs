//! The spine sumchecks: every slot's rows follow the permutation.

use vstd::prelude::*;
use vstd::arithmetic::power2::pow2;
use crate::batch_eval::{
    lemma_reversed_below, lemma_squeezes_prefix, reverse, reversed, squeeze_many, squeezes_tape,
};
use crate::channel::{drew, lemma_drew_end, lemma_drew_trans, tape, RawChannelTrace, Tape};
use crate::circuit::{
    all_below, group_circuit, group_lin, lemma_prefix_push, lemma_prefix_refl, lemma_prefix_trans,
    lins, mul_rows, pin_rows, prefix, sat, FieldR1csBuilder, Lin, LinExpr, Row,
};
use crate::eval_gadgets::{
    inner, inner_rows, lemma_below_at, lemma_below_grow, lemma_below_push, lemma_empty_below,
    lemma_inner_past, tensor,
};
use crate::field::{lemma_plus_is_zero, F128};
use crate::gadget::{
    all_zero, computed, holds_past, lemma_computed_refl, lemma_computed_trans, lemma_mul_past,
    lemma_past_split, lemma_pin_prefix, lemma_pinned_none, lemma_sat_past, lemma_sat_pin, pin_after,
    pinned, times,
};
use crate::multilinear::evals_at;
use crate::poseidon::{lemma_pow7_past, pow7, pow7_expr, pow7_rows, Permutation, PoseidonTables};
use crate::round_poly::{
    absorb_all, absorbs, lemma_polys_past, poly_claim, poly_lanes, polys_ok, polys_tape, rows_evals,
    run_polys, RoundPolyTrace,
};
use crate::spine_columns::{lemma_point_tensors, point_tensors, slice_exprs, PointTensors};

verus! {

broadcast use {group_circuit, lemma_computed_trans};

// ---------------------------------------------------------------------------
// Sums with constant weights
// ---------------------------------------------------------------------------

/// The sum of the first `n` expressions under constant weights; a zero weight
/// leaves its expression out.
pub open spec fn const_sum(es: Seq<Lin>, ws: Seq<F128>, n: nat) -> Lin
    decreases n,
{
    if n == 0 {
        Lin::zero()
    } else {
        let s = const_sum(es, ws, (n - 1) as nat);
        if ws[n - 1] == F128::zero() {
            s
        } else {
            s.plus(es[n - 1].scale(ws[n - 1]))
        }
    }
}

pub proof fn lemma_const_sum(es: Seq<Lin>, ws: Seq<F128>, n: nat, z: Seq<F128>)
    requires
        n <= es.len(),
    ensures
        const_sum(es, ws, n).eval(z) == inner(evals_at(es, z), ws, n),
    decreases n,
{
    broadcast use group_lin;

    if n > 0 {
        lemma_const_sum(es, ws, (n - 1) as nat, z);
    }
}

fn constant_sum(es: &Vec<LinExpr>, ws: &Vec<F128>, Ghost(n): Ghost<nat>) -> (r: LinExpr)
    requires
        es@.len() == ws@.len(),
        all_below(lins(es@), n),
    ensures
        r@ == const_sum(lins(es@), ws@, ws@.len()),
        r@.below(n),
{
    let ghost el = lins(es@);
    let mut sum = LinExpr::zero();
    let mut i: usize = 0;
    while i < es.len()
        invariant
            i <= es@.len(),
            es@.len() == ws@.len(),
            el == lins(es@),
            all_below(el, n),
            sum@ == const_sum(el, ws@, i as nat),
            sum@.below(n),
        decreases es@.len() - i,
    {
        proof {
            lemma_below_at(es@, n, i as int);
        }
        if ws[i] != F128::zero() {
            sum = sum.add(&es[i].scale(ws[i]));
        }
        i += 1;
    }
    sum
}

/// The sum of the first `n` values.
pub open spec fn total(s: Seq<F128>, n: nat) -> F128
    decreases n,
{
    if n == 0 {
        F128::zero()
    } else {
        total(s, (n - 1) as nat).plus(s[n - 1])
    }
}

pub open spec fn total_lin(s: Seq<Lin>, n: nat) -> Lin
    decreases n,
{
    if n == 0 {
        Lin::zero()
    } else {
        total_lin(s, (n - 1) as nat).plus(s[n - 1])
    }
}

proof fn lemma_total_lin(s: Seq<Lin>, n: nat, z: Seq<F128>)
    requires
        n <= s.len(),
    ensures
        total_lin(s, n).eval(z) == total(evals_at(s, z), n),
    decreases n,
{
    broadcast use group_lin;

    if n > 0 {
        lemma_total_lin(s, (n - 1) as nat, z);
    }
}

fn total_of(s: &Vec<LinExpr>, n: usize, Ghost(below): Ghost<nat>) -> (r: LinExpr)
    requires
        n <= s@.len(),
        all_below(lins(s@), below),
    ensures
        r@ == total_lin(lins(s@), n as nat),
        r@.below(below),
{
    let ghost sl = lins(s@);
    let mut sum = LinExpr::zero();
    let mut i: usize = 0;
    while i < n
        invariant
            i <= n <= s@.len(),
            sl == lins(s@),
            all_below(sl, below),
            sum@ == total_lin(sl, i as nat),
            sum@.below(below),
        decreases n - i,
    {
        proof {
            lemma_below_at(s@, below, i as int);
        }
        sum = sum.add(&s[i]);
        i += 1;
    }
    sum
}

// ---------------------------------------------------------------------------
// Schedules
// ---------------------------------------------------------------------------

/// A lane has an S-box in a round.
pub open spec fn active(p: Permutation, round: int, lane: int) -> bool {
    !p.is_partial(round) || lane == 0
}

pub open spec fn round_matrix(p: Permutation, round: int) -> Seq<Seq<F128>> {
    if p.is_partial(round) {
        p.partial
    } else {
        p.full
    }
}

/// The schedules over rounds and lanes, round by round: which S-boxes there
/// are, their constants, and a column of the matrices.
pub open spec fn sigma_weights(p: Permutation) -> Seq<F128> {
    Seq::new(4 * p.rounds(), |k: int| F128::of_bool(active(p, k / 4, k % 4)))
}

pub open spec fn constant_weights(p: Permutation) -> Seq<F128> {
    Seq::new(
        4 * p.rounds(),
        |k: int|
            if active(p, k / 4, k % 4) {
                p.rc[k / 4][k % 4]
            } else {
                F128::zero()
            },
    )
}

pub open spec fn matrix_weights(p: Permutation, lane: int) -> Seq<F128> {
    Seq::new(4 * p.rounds(), |k: int| round_matrix(p, k / 4)[k % 4][lane])
}

/// The rounds in which a lane has an S-box.
pub open spec fn lane_weights(p: Permutation, lane: int) -> Seq<F128> {
    Seq::new(p.rounds(), |round: int| F128::of_bool(active(p, round, lane)))
}

/// The products of the indicators of a round, one on, and of a lane.
pub open spec fn cross(rounds: Seq<F128>, elem: Seq<F128>, n: nat) -> Seq<F128> {
    Seq::new(n, |k: int| rounds[k / 4 + 1].times(elem[k % 4]))
}

/// The tensors of a point.
pub struct Tensors {
    pub elem: Seq<F128>,
    pub rounds: Seq<F128>,
    pub slots: Seq<F128>,
}

pub open spec fn tensors_of(point: Seq<F128>) -> Tensors {
    Tensors {
        elem: tensor(point.subrange(0, 2), 2),
        rounds: tensor(point.subrange(2, 9), 7),
        slots: tensor(point.subrange(9, point.len() as int), (point.len() - 9) as nat),
    }
}

/// The schedules at a point, and the weight of the point against another.
pub struct Schedules {
    pub u: F128,
    pub sigma: F128,
    pub constants: F128,
    pub matrix: Seq<F128>,
    pub lanes: Seq<F128>,
}

pub open spec fn schedules_at(p: Permutation, rho: Tensors, r: Tensors, live: nat) -> Schedules {
    let n = p.rounds();
    let slots = total(r.slots, live);
    let re = cross(r.rounds, r.elem, 4 * n);
    let later = r.rounds.subrange(1, n as int + 1);
    Schedules {
        u: inner(rho.slots, r.slots, live).times(inner(rho.rounds, later, n)).times(
            inner(rho.elem, r.elem, 4),
        ),
        sigma: slots.times(inner(re, sigma_weights(p), 4 * n)),
        constants: slots.times(inner(re, constant_weights(p), 4 * n)),
        matrix: Seq::new(4, |j: int| slots.times(inner(re, matrix_weights(p, j), 4 * n))),
        lanes: Seq::new(4, |j: int| slots.times(inner(later, lane_weights(p, j), n))),
    }
}

/// The schedules in the trace.
pub struct ScheduleLins {
    pub u: Lin,
    pub sigma: Lin,
    pub constants: Lin,
    pub matrix: Seq<Lin>,
    pub lanes: Seq<Lin>,
}

pub open spec fn cross_rows(c: Seq<Row>, rounds: Seq<Lin>, elem: Seq<Lin>, n: nat) -> (
    Seq<Row>,
    Seq<Lin>,
)
    decreases n,
{
    if n == 0 {
        (c, Seq::empty())
    } else {
        let (c1, out) = cross_rows(c, rounds, elem, (n - 1) as nat);
        let (c2, p) = mul_rows(c1, rounds[(n - 1) / 4 + 1], elem[(n - 1) % 4]);
        (c2, out.push(p))
    }
}

proof fn lemma_cross_past(c: Seq<Row>, rounds: Seq<Lin>, elem: Seq<Lin>, n: nat, z: Seq<F128>)
    requires
        elem.len() == 4,
        n / 4 + 1 <= rounds.len(),
        n % 4 == 0,
    ensures
        prefix(c, cross_rows(c, rounds, elem, n).0),
        cross_rows(c, rounds, elem, n).1.len() == n,
        holds_past(cross_rows(c, rounds, elem, n).0, c.len(), z) ==> evals_at(
            cross_rows(c, rounds, elem, n).1,
            z,
        ) == cross(evals_at(rounds, z), evals_at(elem, z), n),
{
    lemma_cross_steps(c, rounds, elem, n, n, z);
}

proof fn lemma_cross_steps(
    c: Seq<Row>,
    rounds: Seq<Lin>,
    elem: Seq<Lin>,
    n: nat,
    all: nat,
    z: Seq<F128>,
)
    requires
        elem.len() == 4,
        n <= all,
        all / 4 + 1 <= rounds.len(),
        all % 4 == 0,
    ensures
        prefix(c, cross_rows(c, rounds, elem, n).0),
        cross_rows(c, rounds, elem, n).1.len() == n,
        holds_past(cross_rows(c, rounds, elem, n).0, c.len(), z) ==> evals_at(
            cross_rows(c, rounds, elem, n).1,
            z,
        ) == cross(evals_at(rounds, z), evals_at(elem, z), n),
    decreases n,
{
    broadcast use lemma_prefix_trans;

    let (rv, ev) = (evals_at(rounds, z), evals_at(elem, z));
    if n > 0 {
        let m = (n - 1) as nat;
        let (c1, out) = cross_rows(c, rounds, elem, m);
        lemma_cross_steps(c, rounds, elem, m, all, z);
        let (x, y) = (rounds[m as int / 4 + 1], elem[m as int % 4]);
        lemma_mul_past(c1, x, y, z);
        let (c2, p) = mul_rows(c1, x, y);
        if holds_past(c2, c.len(), z) {
            lemma_past_split(c2, c1, c.len(), z);
            assert(evals_at(out.push(p), z) =~= cross(rv, ev, n)) by {
                assert forall|i: int| 0 <= i < n implies evals_at(out.push(p), z)[i] == cross(
                    rv,
                    ev,
                    n,
                )[i] by {
                    if i < m {
                        assert(evals_at(out, z)[i] == cross(rv, ev, m)[i]);
                    } else {
                        assert(rv[m as int / 4 + 1] == x.eval(z));
                    }
                }
            }
        }
    } else {
        assert(evals_at(Seq::<Lin>::empty(), z) =~= cross(rv, ev, 0));
    }
}

/// Products of an expression with the first `n` expressions.
pub open spec fn times_each(c: Seq<Row>, x: Lin, s: Seq<Lin>, n: nat) -> (Seq<Row>, Seq<Lin>)
    decreases n,
{
    if n == 0 {
        (c, Seq::empty())
    } else {
        let (c1, out) = times_each(c, x, s, (n - 1) as nat);
        let (c2, p) = mul_rows(c1, x, s[n - 1]);
        (c2, out.push(p))
    }
}

proof fn lemma_each_past(c: Seq<Row>, x: Lin, s: Seq<Lin>, n: nat, z: Seq<F128>)
    requires
        n <= s.len(),
    ensures
        prefix(c, times_each(c, x, s, n).0),
        times_each(c, x, s, n).1.len() == n,
        holds_past(times_each(c, x, s, n).0, c.len(), z) ==> forall|i: int|
            0 <= i < n ==> (#[trigger] times_each(c, x, s, n).1[i]).eval(z) == x.eval(z).times(
                s[i].eval(z),
            ),
    decreases n,
{
    broadcast use lemma_prefix_trans;

    if n > 0 {
        let m = (n - 1) as nat;
        let (c1, out) = times_each(c, x, s, m);
        lemma_each_past(c, x, s, m, z);
        lemma_mul_past(c1, x, s[n - 1], z);
        let (c2, now) = times_each(c, x, s, n);
        if holds_past(c2, c.len(), z) {
            lemma_past_split(c2, c1, c.len(), z);
            assert forall|i: int| 0 <= i < n implies (#[trigger] now[i]).eval(z) == x.eval(
                z,
            ).times(s[i].eval(z)) by {
                if i < m {
                    assert(now[i] == out[i]);
                }
            }
        }
    }
}

/// What the slots' total is multiplied with: the S-box schedule, the constants,
/// the matrix columns, then the lanes.
pub open spec fn schedule_sums(p: Permutation, re: Seq<Lin>, later: Seq<Lin>) -> Seq<Lin> {
    let n = p.rounds();
    seq![
        const_sum(re, sigma_weights(p), 4 * n),
        const_sum(re, constant_weights(p), 4 * n),
        const_sum(re, matrix_weights(p, 0), 4 * n),
        const_sum(re, matrix_weights(p, 1), 4 * n),
        const_sum(re, matrix_weights(p, 2), 4 * n),
        const_sum(re, matrix_weights(p, 3), 4 * n),
        const_sum(later, lane_weights(p, 0), n),
        const_sum(later, lane_weights(p, 1), n),
        const_sum(later, lane_weights(p, 2), n),
        const_sum(later, lane_weights(p, 3), n),
    ]
}

/// The rows of the schedules at a point.
pub open spec fn schedule_rows(
    c: Seq<Row>,
    p: Permutation,
    rho: Seq<Lin>,
    r: Seq<Lin>,
    live: nat,
) -> (Seq<Row>, ScheduleLins) {
    let n = p.rounds();
    let rt = point_tensors(c, r);
    let ht = point_tensors(rt.rows, rho);
    let later = rt.rounds.subrange(1, n as int + 1);
    let (c1, re) = cross_rows(ht.rows, rt.rounds, rt.elem, 4 * n);
    let (c2, s) = times_each(c1, total_lin(rt.slots, live), schedule_sums(p, re, later), 10);
    let (c3, us) = inner_rows(c2, ht.slots, rt.slots, live);
    let (c4, ur) = inner_rows(c3, ht.rounds, later, n);
    let (c5, ue) = inner_rows(c4, ht.elem, rt.elem, 4);
    let (c6, usr) = mul_rows(c5, us, ur);
    let (c7, u) = mul_rows(c6, usr, ue);
    (
        c7,
        ScheduleLins {
            u,
            sigma: s[0],
            constants: s[1],
            matrix: s.subrange(2, 6),
            lanes: s.subrange(6, 10),
        },
    )
}

/// The schedules in the trace evaluate to the schedules.
pub open spec fn schedules_hold(s: ScheduleLins, v: Schedules, z: Seq<F128>) -> bool {
    &&& s.u.eval(z) == v.u
    &&& s.sigma.eval(z) == v.sigma
    &&& s.constants.eval(z) == v.constants
    &&& s.matrix.len() == 4
    &&& s.lanes.len() == 4
    &&& evals_at(s.matrix, z) == v.matrix
    &&& evals_at(s.lanes, z) == v.lanes
}

pub proof fn lemma_schedule_past(
    c: Seq<Row>,
    p: Permutation,
    rho: Seq<Lin>,
    r: Seq<Lin>,
    live: nat,
    z: Seq<F128>,
)
    requires
        p.rounds() < 128,
        r.len() >= 9,
        rho.len() == r.len(),
        live <= pow2((r.len() - 9) as nat),
    ensures
        prefix(c, schedule_rows(c, p, rho, r, live).0),
        holds_past(schedule_rows(c, p, rho, r, live).0, c.len(), z) ==> schedules_hold(
            schedule_rows(c, p, rho, r, live).1,
            schedules_at(p, tensors_of(evals_at(rho, z)), tensors_of(evals_at(r, z)), live),
            z,
        ),
{
    broadcast use lemma_prefix_trans;

    let n = p.rounds();
    let rt = point_tensors(c, r);
    lemma_point_tensors(c, r, z);
    let ht = point_tensors(rt.rows, rho);
    lemma_point_tensors(rt.rows, rho, z);
    let later = rt.rounds.subrange(1, n as int + 1);
    let (c1, re) = cross_rows(ht.rows, rt.rounds, rt.elem, 4 * n);
    lemma_cross_past(ht.rows, rt.rounds, rt.elem, 4 * n, z);
    let slots = total_lin(rt.slots, live);
    let sums = schedule_sums(p, re, later);
    let (c2, s) = times_each(c1, slots, sums, 10);
    lemma_each_past(c1, slots, sums, 10, z);
    let (c3, us) = inner_rows(c2, ht.slots, rt.slots, live);
    lemma_inner_past(c2, ht.slots, rt.slots, live, z);
    let (c4, ur) = inner_rows(c3, ht.rounds, later, n);
    lemma_inner_past(c3, ht.rounds, later, n, z);
    let (c5, ue) = inner_rows(c4, ht.elem, rt.elem, 4);
    lemma_inner_past(c4, ht.elem, rt.elem, 4, z);
    let (c6, usr) = mul_rows(c5, us, ur);
    lemma_mul_past(c5, us, ur, z);
    let (c7, u) = mul_rows(c6, usr, ue);
    lemma_mul_past(c6, usr, ue, z);
    assert(prefix(c, rt.rows) && prefix(rt.rows, ht.rows) && prefix(ht.rows, c1));
    assert(prefix(c, ht.rows));
    assert(prefix(c, c1));
    assert(prefix(c, c2));
    assert(prefix(c, c3));
    assert(prefix(c, c4));
    assert(prefix(c, c5));
    assert(prefix(c, c6));
    if holds_past(c7, c.len(), z) {
        lemma_past_split(c7, c6, c.len(), z);
        lemma_past_split(c6, c5, c.len(), z);
        lemma_past_split(c5, c4, c.len(), z);
        lemma_past_split(c4, c3, c.len(), z);
        lemma_past_split(c3, c2, c.len(), z);
        lemma_past_split(c2, c1, c.len(), z);
        lemma_past_split(c1, ht.rows, c.len(), z);
        lemma_past_split(ht.rows, rt.rows, c.len(), z);
        let rv = tensors_of(evals_at(r, z));
        let hv = tensors_of(evals_at(rho, z));
        assert(evals_at(later, z) =~= rv.rounds.subrange(1, n as int + 1));
        lemma_total_lin(rt.slots, live, z);
        lemma_const_sum(re, sigma_weights(p), 4 * n, z);
        lemma_const_sum(re, constant_weights(p), 4 * n, z);
        lemma_const_sum(re, matrix_weights(p, 0), 4 * n, z);
        lemma_const_sum(re, matrix_weights(p, 1), 4 * n, z);
        lemma_const_sum(re, matrix_weights(p, 2), 4 * n, z);
        lemma_const_sum(re, matrix_weights(p, 3), 4 * n, z);
        lemma_const_sum(later, lane_weights(p, 0), n, z);
        lemma_const_sum(later, lane_weights(p, 1), n, z);
        lemma_const_sum(later, lane_weights(p, 2), n, z);
        lemma_const_sum(later, lane_weights(p, 3), n, z);
        let v = schedules_at(p, hv, rv, live);
        assert(forall|i: int|
            0 <= i < 10 ==> (#[trigger] s[i]).eval(z) == slots.eval(z).times(sums[i].eval(z)));
        assert(evals_at(s.subrange(2, 6), z) =~= v.matrix);
        assert(evals_at(s.subrange(6, 10), z) =~= v.lanes);
    }
}

fn is_active(t: &PoseidonTables, round: usize, lane: usize) -> (r: bool)
    ensures
        r == active(t@, round as int, lane as int),
{
    !t.is_partial(round) || lane == 0
}

/// The S-box schedule, the constants and the matrix columns, round by round.
fn cross_weights(t: &PoseidonTables, kind: usize) -> (r: Vec<F128>)
    requires
        kind < 6,
        t@.rounds() < 128,
    ensures
        kind == 0 ==> r@ == sigma_weights(t@),
        kind == 1 ==> r@ == constant_weights(t@),
        kind >= 2 ==> r@ == matrix_weights(t@, kind - 2),
        r@.len() == 4 * t@.rounds(),
{
    let ghost p = t@;
    let count: usize = 4 * t.rc.len();
    let mut r: Vec<F128> = Vec::new();
    while r.len() < count
        invariant
            kind < 6,
            p == t@,
            count == 4 * p.rounds(),
            p.rounds() == t.rc@.len(),
            r@.len() <= count,
            kind == 0 ==> forall|k: int|
                0 <= k < r@.len() ==> (#[trigger] r@[k]) == F128::of_bool(active(p, k / 4, k % 4)),
            kind == 1 ==> forall|k: int|
                0 <= k < r@.len() ==> (#[trigger] r@[k]) == if active(p, k / 4, k % 4) {
                    p.rc[k / 4][k % 4]
                } else {
                    F128::zero()
                },
            kind >= 2 ==> forall|k: int|
                0 <= k < r@.len() ==> (#[trigger] r@[k]) == round_matrix(p, k / 4)[k % 4][kind - 2],
        decreases count - r@.len(),
    {
        let k: usize = r.len();
        let round: usize = k / 4;
        let lane: usize = k % 4;
        let value = if kind == 0 {
            F128::from_bool(is_active(t, round, lane))
        } else if kind == 1 {
            if is_active(t, round, lane) {
                assert(t.rc@[round as int]@ == p.rc[round as int]);
                t.rc[round][lane]
            } else {
                F128::zero()
            }
        } else if t.is_partial(round) {
            assert(p.partial[lane as int] == t.mds_partial@[lane as int]@);
            t.mds_partial[lane][kind - 2]
        } else {
            assert(p.full[lane as int] == t.mds_full@[lane as int]@);
            t.mds_full[lane][kind - 2]
        };
        r.push(value);
    }
    proof {
        if kind == 0 {
            assert(r@ =~= sigma_weights(p));
        } else if kind == 1 {
            assert(r@ =~= constant_weights(p));
        } else {
            assert(r@ =~= matrix_weights(p, kind - 2));
        }
    }
    r
}

fn lane_schedule(t: &PoseidonTables, lane: usize) -> (r: Vec<F128>)
    ensures
        r@ == lane_weights(t@, lane as int),
        r@.len() == t@.rounds(),
{
    let mut r: Vec<F128> = Vec::new();
    while r.len() < t.rc.len()
        invariant
            r@.len() <= t.rc@.len(),
            t@.rounds() == t.rc@.len(),
            forall|k: int|
                0 <= k < r@.len() ==> (#[trigger] r@[k]) == F128::of_bool(
                    active(t@, k, lane as int),
                ),
        decreases t.rc@.len() - r@.len(),
    {
        let round: usize = r.len();
        r.push(F128::from_bool(is_active(t, round, lane)));
    }
    assert(r@ =~= lane_weights(t@, lane as int));
    r
}

/// The tensors of a point as wires.
struct TensorExprs {
    elem: Vec<LinExpr>,
    rounds: Vec<LinExpr>,
    slots: Vec<LinExpr>,
}

fn tensors_trace(b: &mut FieldR1csBuilder, point: &Vec<LinExpr>) -> (r: TensorExprs)
    requires
        old(b)@.wf(),
        point@.len() >= 9,
        pow2((point@.len() - 9) as nat) <= usize::MAX,
        all_below(lins(point@), old(b)@.rows.len()),
    ensures
        computed(old(b)@, final(b)@),
        (PointTensors {
            rows: final(b)@.rows,
            elem: lins(r.elem@),
            rounds: lins(r.rounds@),
            slots: lins(r.slots@),
        }) == point_tensors(old(b)@.rows, lins(point@)),
        all_below(lins(r.elem@), final(b)@.rows.len()),
        all_below(lins(r.rounds@), final(b)@.rows.len()),
        all_below(lins(r.slots@), final(b)@.rows.len()),
        r.elem@.len() == 4,
        r.rounds@.len() == 128,
        r.slots@.len() == pow2((point@.len() - 9) as nat),
{
    proof {
        vstd::arithmetic::power2::lemma_pow2_pos((point@.len() - 9) as nat);
    }
    let acc = crate::spine_columns::ColumnAccumulator::new(b, point, 1);
    proof {
        lemma_point_tensors(old(b)@.rows, lins(point@), b@.values);
    }
    TensorExprs { elem: acc.eq_elem, rounds: acc.eq_round, slots: acc.eq_slot }
}

/// The schedules as wires.
struct ScheduleExprs {
    u: LinExpr,
    sums: Vec<LinExpr>,
}

impl View for ScheduleExprs {
    type V = ScheduleLins;

    closed spec fn view(&self) -> ScheduleLins {
        ScheduleLins {
            u: self.u@,
            sigma: lins(self.sums@)[0],
            constants: lins(self.sums@)[1],
            matrix: lins(self.sums@).subrange(2, 6),
            lanes: lins(self.sums@).subrange(6, 10),
        }
    }
}

/// Sums of the first `n` products.
fn inner_first(
    b: &mut FieldR1csBuilder,
    x: &Vec<LinExpr>,
    y: &Vec<LinExpr>,
    n: usize,
    Ghost(below): Ghost<nat>,
) -> (r: LinExpr)
    requires
        old(b)@.wf(),
        n <= x@.len(),
        n <= y@.len(),
        below <= old(b)@.rows.len(),
        all_below(lins(x@), below),
        all_below(lins(y@), below),
    ensures
        (final(b)@.rows, r@) == inner_rows(old(b)@.rows, lins(x@), lins(y@), n as nat),
        computed(old(b)@, final(b)@),
        r@.below(final(b)@.rows.len()),
{
    let ghost b0 = b@;
    let ghost (xl, yl) = (lins(x@), lins(y@));
    let mut sum = LinExpr::zero();
    let mut i: usize = 0;
    proof {
        lemma_computed_refl(b0);
    }
    while i < n
        invariant
            i <= n,
            n <= x@.len(),
            n <= y@.len(),
            below <= b0.rows.len(),
            xl == lins(x@),
            yl == lins(y@),
            all_below(xl, below),
            all_below(yl, below),
            b@.wf(),
            computed(b0, b@),
            (b@.rows, sum@) == inner_rows(b0.rows, xl, yl, i as nat),
            sum@.below(b@.rows.len()),
        decreases n - i,
    {
        proof {
            lemma_below_at(x@, below, i as int);
            lemma_below_at(y@, below, i as int);
        }
        let p = times(b, &x[i], &y[i]);
        sum = sum.add(&p);
        i += 1;
    }
    sum
}

/// The schedules at a point, and its weight against another.
#[verifier::rlimit(60)]
fn fast_eval_block_schedules_trace(
    b: &mut FieldR1csBuilder,
    t: &PoseidonTables,
    rho: &Vec<LinExpr>,
    r_prime: &Vec<LinExpr>,
    live_slots: usize,
) -> (r: ScheduleExprs)
    requires
        old(b)@.wf(),
        t@.rounds() < 128,
        r_prime@.len() >= 9,
        rho@.len() == r_prime@.len(),
        live_slots <= pow2((r_prime@.len() - 9) as nat),
        pow2((r_prime@.len() - 9) as nat) <= usize::MAX,
        all_below(lins(rho@), old(b)@.rows.len()),
        all_below(lins(r_prime@), old(b)@.rows.len()),
    ensures
        computed(old(b)@, final(b)@),
        r.sums@.len() == 10,
        (final(b)@.rows, r@) == schedule_rows(
            old(b)@.rows,
            t@,
            lins(rho@),
            lins(r_prime@),
            live_slots as nat,
        ),
        r.u@.below(final(b)@.rows.len()),
        all_below(lins(r.sums@), final(b)@.rows.len()),
{
    let ghost b0 = b@;
    let ghost p = t@;
    let n: usize = t.rc.len();
    let rt = tensors_trace(b, r_prime);
    let ghost m1 = b@.rows.len();
    proof {
        lemma_below_grow(lins(rho@), b0.rows.len(), m1);
    }
    let ht = tensors_trace(b, rho);
    let ghost m2 = b@.rows.len();
    proof {
        lemma_below_grow(lins(rt.elem@), m1, m2);
        lemma_below_grow(lins(rt.rounds@), m1, m2);
        lemma_below_grow(lins(rt.slots@), m1, m2);
    }
    let later = slice_exprs(&rt.rounds, 1, n + 1, Ghost(m2));
    let ghost c_ht = b@;
    let count: usize = 4 * n;
    let mut re: Vec<LinExpr> = Vec::new();
    proof {
        lemma_computed_refl(c_ht);
        lemma_empty_below(m2);
    }
    while re.len() < count
        invariant
            re@.len() <= count,
            count == 4 * n,
            n < 128,
            rt.elem@.len() == 4,
            rt.rounds@.len() == 128,
            m2 == c_ht.rows.len(),
            all_below(lins(rt.elem@), m2),
            all_below(lins(rt.rounds@), m2),
            b@.wf(),
            computed(c_ht, b@),
            all_below(lins(re@), b@.rows.len()),
            (b@.rows, lins(re@)) == cross_rows(
                c_ht.rows,
                lins(rt.rounds@),
                lins(rt.elem@),
                re@.len(),
            ),
        decreases count - re@.len(),
    {
        let k: usize = re.len();
        let ghost m = b@.rows.len();
        proof {
            lemma_below_at(rt.rounds@, m2, k as int / 4 + 1);
            lemma_below_at(rt.elem@, m2, k as int % 4);
        }
        let e = times(b, &rt.rounds[k / 4 + 1], &rt.elem[k % 4]);
        proof {
            lemma_below_push(re@, e, m, b@.rows.len());
        }
        re.push(e);
    }
    let ghost c_re = b@;
    let ghost m3 = c_re.rows.len();
    proof {
        lemma_below_grow(lins(later@), m2, m3);
        lemma_below_grow(lins(rt.slots@), m2, m3);
    }
    let slots = total_of(&rt.slots, live_slots, Ghost(m3));
    let mut inners: Vec<LinExpr> = Vec::new();
    let ghost wanted = schedule_sums(p, lins(re@), lins(later@));
    proof {
        lemma_empty_below(m3);
    }
    while inners.len() < 10
        invariant
            inners@.len() <= 10,
            p == t@,
            p.rounds() < 128,
            re@.len() == 4 * p.rounds(),
            later@.len() == p.rounds(),
            all_below(lins(re@), m3),
            all_below(lins(later@), m3),
            wanted == schedule_sums(p, lins(re@), lins(later@)),
            all_below(lins(inners@), m3),
            forall|i: int| 0 <= i < inners@.len() ==> (#[trigger] inners@[i])@ == wanted[i],
        decreases 10 - inners@.len(),
    {
        let i: usize = inners.len();
        let s = if i < 6 {
            let ws = cross_weights(t, i);
            constant_sum(&re, &ws, Ghost(m3))
        } else {
            let ws = lane_schedule(t, i - 6);
            constant_sum(&later, &ws, Ghost(m3))
        };
        proof {
            lemma_below_push(inners@, s, m3, m3);
        }
        inners.push(s);
    }
    assert(lins(inners@) =~= wanted);
    let mut sums: Vec<LinExpr> = Vec::new();
    proof {
        lemma_computed_refl(c_re);
        lemma_empty_below(m3);
    }
    while sums.len() < 10
        invariant
            sums@.len() <= 10,
            inners@.len() == 10,
            lins(inners@) == wanted,
            m3 == c_re.rows.len(),
            all_below(lins(inners@), m3),
            slots@.below(m3),
            b@.wf(),
            computed(c_re, b@),
            all_below(lins(sums@), b@.rows.len()),
            (b@.rows, lins(sums@)) == times_each(c_re.rows, slots@, wanted, sums@.len()),
        decreases 10 - sums@.len(),
    {
        let i: usize = sums.len();
        let ghost m = b@.rows.len();
        proof {
            lemma_below_at(inners@, m3, i as int);
        }
        let e = times(b, &slots, &inners[i]);
        proof {
            lemma_below_push(sums@, e, m, b@.rows.len());
        }
        sums.push(e);
    }
    let ghost m4 = b@.rows.len();
    let us = inner_first(b, &ht.slots, &rt.slots, live_slots, Ghost(m2));
    let ur = inner_first(b, &ht.rounds, &later, n, Ghost(m2));
    let ue = inner_first(b, &ht.elem, &rt.elem, 4, Ghost(m2));
    let usr = times(b, &us, &ur);
    let u = times(b, &usr, &ue);
    proof {
        lemma_below_grow(lins(sums@), m4, b@.rows.len());
    }
    ScheduleExprs { u, sums }
}

// ---------------------------------------------------------------------------
// The constraint at a point
// ---------------------------------------------------------------------------

/// What a round carries into the next state, lane by lane: the state, then for
/// each lane its matrix column times the S-box output where the lane is active
/// and the state where it is not.
///
/// The opened values stand in the order in which they are absorbed: S-box input
/// and output and state of the round before, state, then S-box outputs and
/// states of the lanes.
pub open spec fn carried_at(v: Schedules, f: Seq<F128>, n: nat) -> F128
    decreases n,
{
    if n == 0 {
        f[3]
    } else {
        let j = n - 1;
        carried_at(v, f, (n - 1) as nat).plus(
            v.matrix[j].times(
                v.lanes[j].times(f[4 + j]).plus(v.lanes[j].plus(F128::one()).times(f[8 + j])),
            ),
        )
    }
}

/// The weighted constraint: an active lane's S-box output is the seventh power
/// of its input, an inactive one's is its input; an active lane's input is the
/// state with the round constant; the state is what the round before carries.
pub open spec fn constraint_at(v: Schedules, f: Seq<F128>, beta: F128, gamma: F128) -> F128 {
    let sbox = v.sigma.times(pow7(f[0])).plus(f[1]).plus(f[0]).plus(v.sigma.times(f[0]));
    let input = v.sigma.times(f[0].plus(f[2]).plus(v.constants));
    v.u.times(sbox.plus(beta.times(input)).plus(gamma.times(carried_at(v, f, 4))))
}

pub open spec fn carried_rows(c: Seq<Row>, s: ScheduleLins, f: Seq<Lin>, n: nat) -> (Seq<Row>, Lin)
    decreases n,
{
    if n == 0 {
        (c, f[3])
    } else {
        let j = n - 1;
        let (c0, before) = carried_rows(c, s, f, (n - 1) as nat);
        let (c1, x) = mul_rows(c0, s.lanes[j], f[4 + j]);
        let (c2, y) = mul_rows(c1, s.lanes[j].plus_const(F128::one()), f[8 + j]);
        let (c3, m) = mul_rows(c2, s.matrix[j], x.plus(y));
        (c3, before.plus(m))
    }
}

pub open spec fn constraint_rows(
    c: Seq<Row>,
    s: ScheduleLins,
    f: Seq<Lin>,
    beta: Lin,
    gamma: Lin,
) -> (Seq<Row>, Lin) {
    let (c1, power) = pow7_rows(c, f[0]);
    let (c2, sp) = mul_rows(c1, s.sigma, power);
    let (c3, si) = mul_rows(c2, s.sigma, f[0]);
    let (c4, input) = mul_rows(c3, s.sigma, f[0].plus(f[2]).plus(s.constants));
    let (c5, carried) = carried_rows(c4, s, f, 4);
    let (c6, x) = mul_rows(c5, beta, input);
    let (c7, y) = mul_rows(c6, gamma, carried);
    mul_rows(c7, s.u, sp.plus(f[1]).plus(f[0]).plus(si).plus(x).plus(y))
}

proof fn lemma_carried_past(
    c: Seq<Row>,
    s: ScheduleLins,
    v: Schedules,
    f: Seq<Lin>,
    n: nat,
    z: Seq<F128>,
)
    requires
        n <= 4,
        f.len() == 12,
        schedules_hold(s, v, z),
    ensures
        prefix(c, carried_rows(c, s, f, n).0),
        holds_past(carried_rows(c, s, f, n).0, c.len(), z) ==> carried_rows(c, s, f, n).1.eval(z)
            == carried_at(v, evals_at(f, z), n),
    decreases n,
{
    broadcast use {lemma_prefix_trans, group_lin};

    if n == 0 {
        lemma_prefix_refl(c);
    } else {
        let j = n - 1;
        let (c0, before) = carried_rows(c, s, f, (n - 1) as nat);
        lemma_carried_past(c, s, v, f, (n - 1) as nat, z);
        let (c1, x) = mul_rows(c0, s.lanes[j], f[4 + j]);
        lemma_mul_past(c0, s.lanes[j], f[4 + j], z);
        let lane = s.lanes[j].plus_const(F128::one());
        let (c2, y) = mul_rows(c1, lane, f[8 + j]);
        lemma_mul_past(c1, lane, f[8 + j], z);
        let (c3, m) = mul_rows(c2, s.matrix[j], x.plus(y));
        lemma_mul_past(c2, s.matrix[j], x.plus(y), z);
        assert(prefix(c, c0) && prefix(c, c1) && prefix(c, c2));
        if holds_past(c3, c.len(), z) {
            lemma_past_split(c3, c2, c.len(), z);
            lemma_past_split(c2, c1, c.len(), z);
            lemma_past_split(c1, c0, c.len(), z);
            assert(v.lanes[j] == s.lanes[j].eval(z));
            assert(v.matrix[j] == s.matrix[j].eval(z));
        }
    }
}

proof fn lemma_constraint_past(
    c: Seq<Row>,
    s: ScheduleLins,
    v: Schedules,
    f: Seq<Lin>,
    beta: Lin,
    gamma: Lin,
    z: Seq<F128>,
)
    requires
        f.len() == 12,
    ensures
        prefix(c, constraint_rows(c, s, f, beta, gamma).0),
        schedules_hold(s, v, z) && holds_past(
            constraint_rows(c, s, f, beta, gamma).0,
            c.len(),
            z,
        ) ==> constraint_rows(c, s, f, beta, gamma).1.eval(z) == constraint_at(
            v,
            evals_at(f, z),
            beta.eval(z),
            gamma.eval(z),
        ),
{
    broadcast use {lemma_prefix_trans, group_lin};

    let (c1, power) = pow7_rows(c, f[0]);
    lemma_pow7_past(c, f[0], z);
    let (c2, sp) = mul_rows(c1, s.sigma, power);
    lemma_mul_past(c1, s.sigma, power, z);
    let (c3, si) = mul_rows(c2, s.sigma, f[0]);
    lemma_mul_past(c2, s.sigma, f[0], z);
    let inside = f[0].plus(f[2]).plus(s.constants);
    let (c4, input) = mul_rows(c3, s.sigma, inside);
    lemma_mul_past(c3, s.sigma, inside, z);
    let (c5, carried) = carried_rows(c4, s, f, 4);
    lemma_carried_prefix(c4, s, f, 4);
    let (c6, x) = mul_rows(c5, beta, input);
    lemma_mul_past(c5, beta, input, z);
    let (c7, y) = mul_rows(c6, gamma, carried);
    lemma_mul_past(c6, gamma, carried, z);
    let q = sp.plus(f[1]).plus(f[0]).plus(si).plus(x).plus(y);
    let (c8, e) = mul_rows(c7, s.u, q);
    lemma_mul_past(c7, s.u, q, z);
    assert(prefix(c, c1) && prefix(c1, c2));
    assert(prefix(c, c2));
    assert(prefix(c, c3));
    assert(prefix(c, c4));
    assert(prefix(c, c5));
    assert(prefix(c, c6));
    assert(prefix(c, c7));
    if schedules_hold(s, v, z) && holds_past(c8, c.len(), z) {
        lemma_past_split(c8, c7, c.len(), z);
        lemma_past_split(c7, c6, c.len(), z);
        lemma_past_split(c6, c5, c.len(), z);
        lemma_past_split(c5, c4, c.len(), z);
        lemma_past_split(c4, c3, c.len(), z);
        lemma_past_split(c3, c2, c.len(), z);
        lemma_past_split(c2, c1, c.len(), z);
        lemma_carried_past(c4, s, v, f, 4, z);
        let g = evals_at(f, z);
        assert(g[0] == f[0].eval(z) && g[1] == f[1].eval(z) && g[2] == f[2].eval(z));
    }
}

proof fn lemma_carried_prefix(c: Seq<Row>, s: ScheduleLins, f: Seq<Lin>, n: nat)
    ensures
        prefix(c, carried_rows(c, s, f, n).0),
    decreases n,
{
    broadcast use lemma_prefix_trans;

    if n == 0 {
        lemma_prefix_refl(c);
    } else {
        let j = n - 1;
        let z = Seq::<F128>::empty();
        let (c0, before) = carried_rows(c, s, f, (n - 1) as nat);
        lemma_carried_prefix(c, s, f, (n - 1) as nat);
        let (c1, x) = mul_rows(c0, s.lanes[j], f[4 + j]);
        lemma_mul_past(c0, s.lanes[j], f[4 + j], z);
        let lane = s.lanes[j].plus_const(F128::one());
        let (c2, y) = mul_rows(c1, lane, f[8 + j]);
        lemma_mul_past(c1, lane, f[8 + j], z);
        lemma_mul_past(c2, s.matrix[j], x.plus(y), z);
        assert(prefix(c, c1) && prefix(c, c2));
    }
}

/// The weighted constraint as a wire.
fn constraint_trace(
    b: &mut FieldR1csBuilder,
    sched: &ScheduleExprs,
    f: &Vec<LinExpr>,
    beta: &LinExpr,
    gamma: &LinExpr,
) -> (r: LinExpr)
    requires
        old(b)@.wf(),
        sched.sums@.len() == 10,
        f@.len() == 12,
        sched.u@.below(old(b)@.rows.len()),
        all_below(lins(sched.sums@), old(b)@.rows.len()),
        all_below(lins(f@), old(b)@.rows.len()),
        beta@.below(old(b)@.rows.len()),
        gamma@.below(old(b)@.rows.len()),
    ensures
        computed(old(b)@, final(b)@),
        (final(b)@.rows, r@) == constraint_rows(
            old(b)@.rows,
            sched@,
            lins(f@),
            beta@,
            gamma@,
        ),
        r@.below(final(b)@.rows.len()),
{
    let ghost m = b@.rows.len();
    let ghost fl = lins(f@);
    proof {
        lemma_below_at(sched.sums@, m, 0);
        lemma_below_at(sched.sums@, m, 1);
        lemma_below_at(f@, m, 0);
        lemma_below_at(f@, m, 1);
        lemma_below_at(f@, m, 2);
        lemma_below_at(f@, m, 3);
    }
    let power = pow7_expr(b, &f[0]);
    let sp = times(b, &sched.sums[0], &power);
    let si = times(b, &sched.sums[0], &f[0]);
    let inside = f[0].add(&f[2]).add(&sched.sums[1]);
    let input = times(b, &sched.sums[0], &inside);
    let ghost b4 = b@;
    let mut carried = f[3].dup();
    let mut j: usize = 0;
    proof {
        lemma_computed_refl(b4);
    }
    while j < 4
        invariant
            j <= 4,
            sched.sums@.len() == 10,
            f@.len() == 12,
            m <= b4.rows.len(),
            fl == lins(f@),
            all_below(lins(sched.sums@), m),
            all_below(fl, m),
            b@.wf(),
            computed(b4, b@),
            carried@.below(b@.rows.len()),
            (b@.rows, carried@) == carried_rows(b4.rows, sched@, fl, j as nat),
        decreases 4 - j,
    {
        proof {
            lemma_below_at(sched.sums@, m, 6 + j as int);
            lemma_below_at(sched.sums@, m, 2 + j as int);
            lemma_below_at(f@, m, 4 + j as int);
            lemma_below_at(f@, m, 8 + j as int);
        }
        let x = times(b, &sched.sums[6 + j], &f[4 + j]);
        let lane = sched.sums[6 + j].add_const(F128::one());
        let y = times(b, &lane, &f[8 + j]);
        let xy = x.add(&y);
        let p = times(b, &sched.sums[2 + j], &xy);
        carried = carried.add(&p);
        j += 1;
    }
    let x = times(b, beta, &input);
    let y = times(b, gamma, &carried);
    let q = sp.add(&f[1]).add(&f[0]).add(&si).add(&x).add(&y);
    times(b, &sched.u, &q)
}

// ---------------------------------------------------------------------------
// The unified sumcheck
// ---------------------------------------------------------------------------

/// Values opened at a point: the round before, the state, and the lanes.
#[derive(Debug)]
pub struct BlockSpineUnifiedProofTrace {
    pub round_polys: Vec<RoundPolyTrace>,
    pub s_in_dec_at_r: LinExpr,
    pub s_out_dec_at_r: LinExpr,
    pub state_dec_at_r: LinExpr,
    pub state_at_r: LinExpr,
    pub s_out_lane_dec_at_r: [LinExpr; 4],
    pub state_lane_dec_at_r: [LinExpr; 4],
}

/// The values opened at `r_prime`.
#[derive(Debug)]
pub struct BlockSpineUnifiedReductionTrace {
    pub r_prime: Vec<LinExpr>,
    pub s_in_dec_at_r: LinExpr,
    pub s_out_dec_at_r: LinExpr,
    pub state_dec_at_r: LinExpr,
    pub state_at_r: LinExpr,
    pub s_out_lane_dec_at_r: [LinExpr; 4],
    pub state_lane_dec_at_r: [LinExpr; 4],
}

impl BlockSpineUnifiedProofTrace {
    /// The opened values in the order in which they are absorbed.
    pub open spec fn opened(&self) -> Seq<Lin> {
        seq![
            self.s_in_dec_at_r@,
            self.s_out_dec_at_r@,
            self.state_dec_at_r@,
            self.state_at_r@,
        ] + lins(self.s_out_lane_dec_at_r@) + lins(self.state_lane_dec_at_r@)
    }

    pub open spec fn below(&self, n: nat) -> bool {
        polys_ok(self.round_polys@, n) && all_below(self.opened(), n)
    }
}

impl BlockSpineUnifiedReductionTrace {
    pub open spec fn opened(&self) -> Seq<Lin> {
        seq![
            self.s_in_dec_at_r@,
            self.s_out_dec_at_r@,
            self.state_dec_at_r@,
            self.state_at_r@,
        ] + lins(self.s_out_lane_dec_at_r@) + lins(self.state_lane_dec_at_r@)
    }

    pub open spec fn below(&self, n: nat) -> bool {
        all_below(lins(self.r_prime@), n) && all_below(self.opened(), n)
    }
}

/// Copies of four expressions.
pub fn dup_lanes(s: &[LinExpr; 4]) -> (r: [LinExpr; 4])
    ensures
        lins(r@) == lins(s@),
{
    let r = [s[0].dup(), s[1].dup(), s[2].dup(), s[3].dup()];
    assert(lins(r@) =~= lins(s@));
    r
}

/// The opened values in order.
pub fn opened_values(
    s_in: &LinExpr,
    s_out: &LinExpr,
    dec: &LinExpr,
    state: &LinExpr,
    outs: &[LinExpr; 4],
    states: &[LinExpr; 4],
) -> (r: Vec<LinExpr>)
    ensures
        lins(r@) == seq![s_in@, s_out@, dec@, state@] + lins(outs@) + lins(states@),
        r@.len() == 12,
{
    let mut r: Vec<LinExpr> = Vec::new();
    r.push(s_in.dup());
    r.push(s_out.dup());
    r.push(dec.dup());
    r.push(state.dup());
    r.push(outs[0].dup());
    r.push(outs[1].dup());
    r.push(outs[2].dup());
    r.push(outs[3].dup());
    r.push(states[0].dup());
    r.push(states[1].dup());
    r.push(states[2].dup());
    r.push(states[3].dup());
    assert(lins(r@) =~= seq![s_in@, s_out@, dec@, state@] + lins(outs@) + lins(states@));
    r
}

/// The rows, operations and challenges of a unified sumcheck.
pub struct UnifiedRun {
    pub tape: Tape,
    pub rho: Seq<Lin>,
    pub beta: Lin,
    pub gamma: Lin,
    pub challenges: Seq<Lin>,
    pub pins: Seq<Lin>,
}

#[verifier::opaque]
pub open spec fn unified_run(
    t: Tape,
    p: Permutation,
    polys: Seq<Seq<Lin>>,
    f: Seq<Lin>,
    live: nat,
) -> UnifiedRun {
    let (t1, rho) = squeezes_tape(t, polys.len());
    let t2 = t1.squeeze();
    let t3 = t2.squeeze();
    let (t4, claim, challenges) = polys_tape(t3, polys, Lin::zero(), polys.len());
    let (c5, s) = schedule_rows(t4.rows, p, rho, reversed(challenges), live);
    let (c6, e) = constraint_rows(c5, s, f, t1.challenge(), t2.challenge());
    UnifiedRun {
        tape: Tape { rows: pin_rows(c6, claim.plus(e)), ops: t4.ops + absorbs(f) },
        rho,
        beta: t1.challenge(),
        gamma: t2.challenge(),
        challenges,
        pins: seq![claim.plus(e)],
    }
}

/// What a unified sumcheck checks: the claim that its rounds bring zero to is
/// the weighted constraint over the opened values.
#[verifier::opaque]
pub open spec fn unified_checks(
    p: Permutation,
    polys: Seq<Seq<F128>>,
    f: Seq<F128>,
    rho: Seq<F128>,
    beta: F128,
    gamma: F128,
    challenges: Seq<F128>,
    live: nat,
) -> bool {
    poly_claim(polys, F128::zero(), challenges, polys.len()) == constraint_at(
        schedules_at(p, tensors_of(rho), tensors_of(reversed(challenges)), live),
        f,
        beta,
        gamma,
    )
}

/// The checks of a run under given values.
pub open spec fn unified_checked(
    run: UnifiedRun,
    p: Permutation,
    polys: Seq<Seq<Lin>>,
    f: Seq<Lin>,
    live: nat,
    z: Seq<F128>,
) -> bool {
    unified_checks(
        p,
        rows_evals(polys, z),
        evals_at(f, z),
        evals_at(run.rho, z),
        run.beta.eval(z),
        run.gamma.eval(z),
        evals_at(run.challenges, z),
        live,
    )
}

/// The pinned expression is zero exactly where the sumcheck checks.
pub proof fn lemma_unified_past(
    t: Tape,
    p: Permutation,
    polys: Seq<Seq<Lin>>,
    f: Seq<Lin>,
    live: nat,
    z: Seq<F128>,
)
    requires
        p.rounds() < 128,
        polys.len() >= 9,
        f.len() == 12,
        live <= pow2((polys.len() - 9) as nat),
        forall|i: int| 0 <= i < polys.len() ==> (#[trigger] polys[i]).len() >= 1,
    ensures
        prefix(t.rows, unified_run(t, p, polys, f, live).tape.rows),
        unified_run(t, p, polys, f, live).challenges.len() == polys.len(),
        holds_past(unified_run(t, p, polys, f, live).tape.rows, t.rows.len(), z) ==> (all_zero(
            unified_run(t, p, polys, f, live).pins,
            z,
        ) <==> unified_checked(unified_run(t, p, polys, f, live), p, polys, f, live, z)),
{
    broadcast use {lemma_prefix_trans, group_lin, lemma_plus_is_zero};

    reveal(unified_run);
    reveal(unified_checks);
    let n = polys.len();
    let (t1, rho) = squeezes_tape(t, n);
    lemma_squeezes_prefix(t, n);
    let t2 = t1.squeeze();
    lemma_prefix_push(t1.rows, crate::circuit::free_row(t1.rows.len() as usize));
    let t3 = t2.squeeze();
    lemma_prefix_push(t2.rows, crate::circuit::free_row(t2.rows.len() as usize));
    let (t4, claim, challenges) = polys_tape(t3, polys, Lin::zero(), n);
    lemma_polys_past(t3, polys, Lin::zero(), n, z);
    let point = reversed(challenges);
    let (c5, s) = schedule_rows(t4.rows, p, rho, point, live);
    lemma_schedule_past(t4.rows, p, rho, point, live, z);
    let v = schedules_at(p, tensors_of(evals_at(rho, z)), tensors_of(evals_at(point, z)), live);
    let (c6, e) = constraint_rows(c5, s, f, t1.challenge(), t2.challenge());
    lemma_constraint_past(c5, s, v, f, t1.challenge(), t2.challenge(), z);
    let pin = claim.plus(e);
    lemma_pin_prefix(c6, pin);
    assert(prefix(t.rows, t1.rows) && prefix(t1.rows, t2.rows));
    assert(prefix(t.rows, t2.rows));
    assert(prefix(t.rows, t3.rows));
    assert(prefix(t.rows, t4.rows));
    assert(prefix(t.rows, c5));
    assert(prefix(t.rows, c6));
    let rows = pin_rows(c6, pin);
    if holds_past(rows, t.rows.len(), z) {
        lemma_past_split(rows, c6, t.rows.len(), z);
        lemma_past_split(c6, c5, t.rows.len(), z);
        lemma_past_split(c5, t4.rows, t.rows.len(), z);
        lemma_past_split(t4.rows, t3.rows, t.rows.len(), z);
        assert(evals_at(point, z) =~= reversed(evals_at(challenges, z)));
        let pins = seq![pin];
        assert(pins[0] == pin);
        assert(all_zero(pins, z) <==> pin.eval(z) == F128::zero());
    }
}

/// Soundness: a run whose rows hold, pins and all, has checked its claim.
pub proof fn lemma_unified_sound(
    t: Tape,
    p: Permutation,
    polys: Seq<Seq<Lin>>,
    f: Seq<Lin>,
    live: nat,
    z: Seq<F128>,
)
    requires
        p.rounds() < 128,
        polys.len() >= 9,
        f.len() == 12,
        live <= pow2((polys.len() - 9) as nat),
        forall|i: int| 0 <= i < polys.len() ==> (#[trigger] polys[i]).len() >= 1,
        sat(unified_run(t, p, polys, f, live).tape.rows, z),
    ensures
        sat(t.rows, z),
        unified_checked(unified_run(t, p, polys, f, live), p, polys, f, live, z),
{
    reveal(unified_run);
    lemma_unified_past(t, p, polys, f, live, z);
    let run = unified_run(t, p, polys, f, live);
    lemma_sat_past(run.tape.rows, t.rows.len(), z);
    crate::circuit::lemma_sat_prefix(t.rows, run.tape.rows, z);
    let (t1, rho) = squeezes_tape(t, polys.len());
    let t2 = t1.squeeze();
    let (t4, claim, challenges) = polys_tape(t2.squeeze(), polys, Lin::zero(), polys.len());
    let (c5, s) = schedule_rows(t4.rows, p, rho, reversed(challenges), live);
    let (c6, e) = constraint_rows(c5, s, f, t1.challenge(), t2.challenge());
    lemma_prefix_refl(run.tape.rows);
    lemma_sat_pin(run.tape.rows, c6, claim.plus(e), z);
    assert(run.pins[0] == claim.plus(e));
}

/// Polynomials stay below as a circuit grows.
pub proof fn lemma_polys_grow(polys: Seq<RoundPolyTrace>, m: nat, n: nat)
    requires
        polys_ok(polys, m),
        m <= n,
    ensures
        polys_ok(polys, n),
        forall|i: int| 0 <= i < polys.len() ==> (#[trigger] poly_lanes(polys)[i]).len() >= 1,
{
    assert forall|i: int| 0 <= i < polys.len() implies (#[trigger] polys[i]).coeffs@.len() >= 1
        && all_below(lins(polys[i].coeffs@), n) by {
        lemma_below_grow(lins(polys[i].coeffs@), m, n);
    }
    assert forall|i: int| 0 <= i < polys.len() implies (#[trigger] poly_lanes(polys)[i]).len()
        >= 1 by {
        assert(polys[i].coeffs@.len() >= 1);
    }
}

/// Checks that the spine's rows follow the permutation, up to the opened
/// values.
pub fn verify_block_spine_unified_trace(
    b: &mut FieldR1csBuilder,
    ch: &mut RawChannelTrace,
    tables: &PoseidonTables,
    proof: &BlockSpineUnifiedProofTrace,
    num_vars: usize,
    live_slots: usize,
) -> (r: BlockSpineUnifiedReductionTrace)
    requires
        old(b)@.wf(),
        tables@.rounds() < 128,
        num_vars >= 9,
        proof.round_polys@.len() == num_vars,
        pow2((num_vars - 9) as nat) <= usize::MAX,
        live_slots <= pow2((num_vars - 9) as nat),
        proof.below(old(b)@.rows.len()),
    ensures
        ({
            let run = unified_run(
                tape(*old(b), *old(ch)),
                tables@,
                poly_lanes(proof.round_polys@),
                proof.opened(),
                live_slots as nat,
            );
            &&& tape(*final(b), *final(ch)) == run.tape
            &&& pinned(old(b)@, final(b)@, run.pins)
            &&& lins(r.r_prime@) == reversed(run.challenges)
            &&& final(b)@.honest() <==> old(b)@.honest() && unified_checked(
                run,
                tables@,
                poly_lanes(proof.round_polys@),
                proof.opened(),
                live_slots as nat,
                final(b)@.values,
            )
        }),
        final(b)@.grows(old(b)@),
        r.r_prime@.len() == num_vars,
        r.opened() == proof.opened(),
        r.state_at_r@ == proof.state_at_r@,
        r.below(final(b)@.rows.len()),
        drew(old(b)@, *old(ch), final(b)@, *final(ch)),
{
    proof {
        reveal(unified_run);
    }
    let ghost b0 = b@;
    let ghost ch0 = *ch;
    let ghost t0 = tape(*b, *ch);
    let ghost polys = poly_lanes(proof.round_polys@);
    let ghost f = proof.opened();
    let rho = squeeze_many(b, ch, num_vars);
    let ghost (b1, ch1) = (b@, *ch);
    let beta = ch.squeeze(b);
    let ghost (b2, ch2) = (b@, *ch);
    let gamma = ch.squeeze(b);
    let ghost (b3, ch3) = (b@, *ch);
    let zero = LinExpr::zero();
    proof {
        lemma_polys_grow(proof.round_polys@, b0.rows.len(), b@.rows.len());
    }
    let (claim, challenges) = run_polys(b, ch, &proof.round_polys, zero);
    let ghost (b4, ch4) = (b@, *ch);
    let point = reverse(&challenges);
    proof {
        lemma_reversed_below(lins(challenges@), b4.rows.len());
        lemma_below_grow(lins(rho@), b1.rows.len(), b4.rows.len());
    }
    let sched = fast_eval_block_schedules_trace(b, tables, &rho, &point, live_slots);
    let opened = opened_values(
        &proof.s_in_dec_at_r,
        &proof.s_out_dec_at_r,
        &proof.state_dec_at_r,
        &proof.state_at_r,
        &proof.s_out_lane_dec_at_r,
        &proof.state_lane_dec_at_r,
    );
    proof {
        lemma_below_grow(f, b0.rows.len(), b@.rows.len());
    }
    let e = constraint_trace(b, &sched, &opened, &beta, &gamma);
    let pin = claim.add(&e);
    proof {
        lemma_pinned_none(b0, b@);
    }
    pin_after(b, &pin, Ghost(b0), Ghost(Seq::empty()));
    absorb_all(ch, &opened);
    proof {
        lemma_unified_past(t0, tables@, polys, f, live_slots as nat, b@.values);
        let run = unified_run(t0, tables@, polys, f, live_slots as nat);
        assert(tape(*b, *ch) == run.tape);
        assert(Seq::<Lin>::empty().push(pin@) =~= run.pins);
        lemma_drew_trans(b0, ch0, b1, ch1, b2, ch2);
        lemma_drew_trans(b0, ch0, b2, ch2, b3, ch3);
        lemma_drew_trans(b0, ch0, b3, ch3, b4, ch4);
        lemma_drew_end(b0, ch0, b4, ch4, b@, *ch);
        lemma_below_grow(lins(point@), b4.rows.len(), b@.rows.len());
        lemma_below_grow(f, b0.rows.len(), b@.rows.len());
    }
    BlockSpineUnifiedReductionTrace {
        r_prime: point,
        s_in_dec_at_r: proof.s_in_dec_at_r.dup(),
        s_out_dec_at_r: proof.s_out_dec_at_r.dup(),
        state_dec_at_r: proof.state_dec_at_r.dup(),
        state_at_r: proof.state_at_r.dup(),
        s_out_lane_dec_at_r: dup_lanes(&proof.s_out_lane_dec_at_r),
        state_lane_dec_at_r: dup_lanes(&proof.state_lane_dec_at_r),
    }
}

} // verus!
