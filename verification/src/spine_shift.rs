//! The shift sumcheck: values of the round before, at a point of their own.
//!
//! The unified sumcheck opens columns one round back. The shift sumcheck turns
//! a combination of those values into values of the columns themselves.

use vstd::prelude::*;
use crate::batch_eval::{lemma_reversed_below, reverse, reversed};
use crate::block_spine::{lemma_polys_grow, opened_values, BlockSpineUnifiedReductionTrace};
use crate::channel::{drew, lemma_drew_end, lemma_drew_step, tape, RawChannelTrace, Tape};
use crate::circuit::{
    all_below, group_circuit, group_lin, lemma_prefix_push, lemma_prefix_refl, lemma_prefix_trans,
    lins, mul_rows, pin_rows, prefix, sat, FieldR1csBuilder, Lin, LinExpr, Row,
};
use crate::eval_gadgets::{
    eq_ind_partial_eval_trace, eq_ind_trace, equal_at, equal_rows, lemma_below_at, lemma_below_grow,
    lemma_below_push, lemma_empty_below, lemma_equal_past, lemma_tensor_past, tensor, tensor_rows,
};
use crate::field::{group_field_units, lemma_plus_is_zero, F128};
use crate::gadget::{
    all_zero, computed, holds_past, lemma_computed_refl, lemma_computed_trans, lemma_mul_past,
    lemma_past_split, lemma_pin_prefix, lemma_pinned_none, lemma_sat_past, lemma_sat_pin, pin_after,
    pinned, times,
};
use crate::multilinear::{evals_at, lemma_mle_past, mle, mle_evaluate_small_trace, mle_rows};
use crate::relations::power;
use crate::round_poly::{
    absorbs, lemma_polys_past, poly_claim, poly_lanes, polys_ok, polys_tape, rows_evals, run_polys,
    RoundPolyTrace,
};
use crate::spine_columns::slice_exprs;

verus! {

broadcast use {group_circuit, lemma_computed_trans};

// ---------------------------------------------------------------------------
// The combined target
// ---------------------------------------------------------------------------

/// The opened values under powers of a challenge, without the state itself:
/// input, output and state of the round before, then the first `n` lanes.
pub open spec fn target_at(f: Seq<F128>, d: F128, n: nat) -> F128
    decreases n,
{
    if n == 0 {
        f[0].plus(d.times(f[1])).plus(power(d, 2).times(f[2]))
    } else {
        target_at(f, d, (n - 1) as nat).plus(power(d, n + 2).times(f[3 + n as int]))
    }
}

/// The rows of the combination, its expression, and the next power.
pub open spec fn target_rows(c: Seq<Row>, f: Seq<Lin>, d: Lin, n: nat) -> (Seq<Row>, Lin, Lin)
    decreases n,
{
    if n == 0 {
        let (c1, d2) = mul_rows(c, d, d);
        let (c2, x) = mul_rows(c1, d, f[1]);
        let (c3, y) = mul_rows(c2, d2, f[2]);
        let (c4, p) = mul_rows(c3, d2, d);
        (c4, f[0].plus(x).plus(y), p)
    } else {
        let (c0, sum, p) = target_rows(c, f, d, (n - 1) as nat);
        let (c1, x) = mul_rows(c0, p, f[3 + n as int]);
        let (c2, q) = mul_rows(c1, p, d);
        (c2, sum.plus(x), q)
    }
}

proof fn lemma_target_past(c: Seq<Row>, f: Seq<Lin>, d: Lin, n: nat, z: Seq<F128>)
    requires
        n <= 8,
        f.len() == 12,
    ensures
        prefix(c, target_rows(c, f, d, n).0),
        holds_past(target_rows(c, f, d, n).0, c.len(), z) ==> {
            &&& target_rows(c, f, d, n).1.eval(z) == target_at(evals_at(f, z), d.eval(z), n)
            &&& target_rows(c, f, d, n).2.eval(z) == power(d.eval(z), n + 3)
        },
    decreases n,
{
    broadcast use {lemma_prefix_trans, group_lin, group_field_units};

    if n == 0 {
        let (c1, d2) = mul_rows(c, d, d);
        lemma_mul_past(c, d, d, z);
        let (c2, x) = mul_rows(c1, d, f[1]);
        lemma_mul_past(c1, d, f[1], z);
        let (c3, y) = mul_rows(c2, d2, f[2]);
        lemma_mul_past(c2, d2, f[2], z);
        let (c4, p) = mul_rows(c3, d2, d);
        lemma_mul_past(c3, d2, d, z);
        assert(prefix(c, c2) && prefix(c, c3));
        if holds_past(c4, c.len(), z) {
            lemma_past_split(c4, c3, c.len(), z);
            lemma_past_split(c3, c2, c.len(), z);
            lemma_past_split(c2, c1, c.len(), z);
            reveal_with_fuel(power, 4);
            let v = evals_at(f, z);
            assert(v[0] == f[0].eval(z) && v[1] == f[1].eval(z) && v[2] == f[2].eval(z));
        }
    } else {
        let (c0, sum, p) = target_rows(c, f, d, (n - 1) as nat);
        lemma_target_past(c, f, d, (n - 1) as nat, z);
        let (c1, x) = mul_rows(c0, p, f[3 + n as int]);
        lemma_mul_past(c0, p, f[3 + n as int], z);
        let (c2, q) = mul_rows(c1, p, d);
        lemma_mul_past(c1, p, d, z);
        assert(prefix(c, c1));
        if holds_past(c2, c.len(), z) {
            lemma_past_split(c2, c1, c.len(), z);
            lemma_past_split(c1, c0, c.len(), z);
            assert(evals_at(f, z)[3 + n as int] == f[3 + n as int].eval(z));
        }
    }
}

/// The combined target of a reduction.
fn block_combined_target_trace(
    b: &mut FieldR1csBuilder,
    f: &Vec<LinExpr>,
    delta: &LinExpr,
) -> (r: LinExpr)
    requires
        old(b)@.wf(),
        f@.len() == 12,
        all_below(lins(f@), old(b)@.rows.len()),
        delta@.below(old(b)@.rows.len()),
    ensures
        computed(old(b)@, final(b)@),
        ({
            let (rows, sum, p) = target_rows(old(b)@.rows, lins(f@), delta@, 8);
            final(b)@.rows == rows && r@ == sum
        }),
        r@.below(final(b)@.rows.len()),
{
    let ghost b0 = b@;
    let ghost m = b0.rows.len();
    proof {
        lemma_below_at(f@, m, 0);
        lemma_below_at(f@, m, 1);
        lemma_below_at(f@, m, 2);
    }
    let d2 = times(b, delta, delta);
    let x = times(b, delta, &f[1]);
    let y = times(b, &d2, &f[2]);
    let mut p = times(b, &d2, delta);
    let mut sum = f[0].add(&x).add(&y);
    let mut n: usize = 0;
    while n < 8
        invariant
            n <= 8,
            f@.len() == 12,
            m == b0.rows.len(),
            all_below(lins(f@), m),
            delta@.below(m),
            b@.wf(),
            computed(b0, b@),
            sum@.below(b@.rows.len()),
            p@.below(b@.rows.len()),
            (b@.rows, sum@, p@) == target_rows(b0.rows, lins(f@), delta@, n as nat),
        decreases 8 - n,
    {
        proof {
            lemma_below_at(f@, m, 4 + n as int);
        }
        let x = times(b, &p, &f[4 + n]);
        p = times(b, &p, delta);
        sum = sum.add(&x);
        n += 1;
    }
    sum
}

// ---------------------------------------------------------------------------
// The weights at a point
// ---------------------------------------------------------------------------

/// Every entry gives way to the next, the last to the first.
pub open spec fn rotated<A>(s: Seq<A>) -> Seq<A> {
    Seq::new(s.len(), |i: int| s[(i + 1) % s.len() as int])
}

/// The weights of the three columns.
pub struct ShiftWeights {
    pub s_in: F128,
    pub s_out: F128,
    pub state: F128,
}

/// A weight with the first `n` lanes' parts, under powers from the `from`-th.
pub open spec fn lane_weight(
    start: F128,
    base: F128,
    lanes: Seq<F128>,
    d: F128,
    from: nat,
    n: nat,
) -> F128
    decreases n,
{
    if n == 0 {
        start
    } else {
        lane_weight(start, base, lanes, d, from, (n - 1) as nat).plus(
            power(d, (from + n - 1) as nat).times(base.times(lanes[n - 1])),
        )
    }
}

/// The weight of slot and round: equal slots, and the round before.
pub open spec fn slot_weight(rp: Seq<F128>, r2: Seq<F128>) -> F128 {
    let n = rp.len() as int;
    equal_at(rp.subrange(9, n), r2.subrange(9, n), (n - 9) as nat).times(
        mle(rotated(tensor(rp.subrange(2, 9), 7)), r2.subrange(2, 9)),
    )
}

/// The weights of the columns at `r2` for values opened one round before `rp`.
pub open spec fn shift_weights(rp: Seq<F128>, d: F128, r2: Seq<F128>) -> ShiftWeights {
    let base = slot_weight(rp, r2);
    let dec = base.times(equal_at(rp.subrange(0, 2), r2.subrange(0, 2), 2));
    let lanes = tensor(r2.subrange(0, 2), 2);
    ShiftWeights {
        s_in: dec,
        s_out: lane_weight(d.times(dec), base, lanes, d, 3, 4),
        state: lane_weight(power(d, 2).times(dec), base, lanes, d, 7, 4),
    }
}

/// Powers from a given one on.
pub open spec fn climb_rows(c: Seq<Row>, p: Lin, d: Lin, n: nat) -> (Seq<Row>, Seq<Lin>)
    decreases n,
{
    if n == 0 {
        (c, Seq::empty())
    } else {
        let (c1, s) = climb_rows(c, p, d, (n - 1) as nat);
        let (c2, q) = mul_rows(c1, if n == 1 { p } else { s.last() }, d);
        (c2, s.push(q))
    }
}

proof fn lemma_climb_past(c: Seq<Row>, p: Lin, d: Lin, k: nat, n: nat, z: Seq<F128>)
    ensures
        prefix(c, climb_rows(c, p, d, n).0),
        climb_rows(c, p, d, n).1.len() == n,
        p.eval(z) == power(d.eval(z), k) && holds_past(climb_rows(c, p, d, n).0, c.len(), z)
            ==> forall|i: int|
            0 <= i < n ==> (#[trigger] climb_rows(c, p, d, n).1[i]).eval(z) == power(
                d.eval(z),
                (k + 1 + i) as nat,
            ),
    decreases n,
{
    broadcast use {lemma_prefix_trans, group_lin};

    if n == 0 {
        lemma_prefix_refl(c);
    } else {
        let (c1, s) = climb_rows(c, p, d, (n - 1) as nat);
        lemma_climb_past(c, p, d, k, (n - 1) as nat, z);
        let last = if n == 1 {
            p
        } else {
            s.last()
        };
        lemma_mul_past(c1, last, d, z);
        let (c2, now) = climb_rows(c, p, d, n);
        if p.eval(z) == power(d.eval(z), k) && holds_past(c2, c.len(), z) {
            lemma_past_split(c2, c1, c.len(), z);
            assert(last.eval(z) == power(d.eval(z), (k + n - 1) as nat)) by {
                if n > 1 {
                    assert(s.last() == s[n - 2]);
                }
            }
            assert forall|i: int| 0 <= i < n implies (#[trigger] now[i]).eval(z) == power(
                d.eval(z),
                (k + 1 + i) as nat,
            ) by {
                if i < n - 1 {
                    assert(now[i] == s[i]);
                }
            }
        }
    }
}

/// The lanes' parts of the two weights.
pub open spec fn lane_weight_rows(
    c: Seq<Row>,
    s_out: Lin,
    state: Lin,
    base: Lin,
    lanes: Seq<Lin>,
    powers: Seq<Lin>,
    n: nat,
) -> (Seq<Row>, Lin, Lin)
    decreases n,
{
    if n == 0 {
        (c, s_out, state)
    } else {
        let (c0, x, y) = lane_weight_rows(c, s_out, state, base, lanes, powers, (n - 1) as nat);
        let (c1, w) = mul_rows(c0, base, lanes[n - 1]);
        let (c2, u) = mul_rows(c1, powers[n - 1], w);
        let (c3, v) = mul_rows(c2, powers[n as int + 3], w);
        (c3, x.plus(u), y.plus(v))
    }
}

proof fn lemma_lane_weight_past(
    c: Seq<Row>,
    s_out: Lin,
    state: Lin,
    base: Lin,
    lanes: Seq<Lin>,
    powers: Seq<Lin>,
    d: F128,
    n: nat,
    z: Seq<F128>,
)
    requires
        n <= 4,
        lanes.len() == 4,
        powers.len() == 8,
    ensures
        prefix(c, lane_weight_rows(c, s_out, state, base, lanes, powers, n).0),
        holds_past(lane_weight_rows(c, s_out, state, base, lanes, powers, n).0, c.len(), z) && (
        forall|i: int| 0 <= i < 8 ==> (#[trigger] powers[i]).eval(z) == power(d, (3 + i) as nat))
            ==> {
            let (rows, x, y) = lane_weight_rows(c, s_out, state, base, lanes, powers, n);
            &&& x.eval(z) == lane_weight(
                s_out.eval(z),
                base.eval(z),
                evals_at(lanes, z),
                d,
                3,
                n,
            )
            &&& y.eval(z) == lane_weight(
                state.eval(z),
                base.eval(z),
                evals_at(lanes, z),
                d,
                7,
                n,
            )
        },
    decreases n,
{
    broadcast use {lemma_prefix_trans, group_lin};

    if n == 0 {
        lemma_prefix_refl(c);
    } else {
        let (c0, x, y) = lane_weight_rows(c, s_out, state, base, lanes, powers, (n - 1) as nat);
        lemma_lane_weight_past(c, s_out, state, base, lanes, powers, d, (n - 1) as nat, z);
        let (c1, w) = mul_rows(c0, base, lanes[n - 1]);
        lemma_mul_past(c0, base, lanes[n - 1], z);
        let (c2, u) = mul_rows(c1, powers[n - 1], w);
        lemma_mul_past(c1, powers[n - 1], w, z);
        let (c3, v) = mul_rows(c2, powers[n as int + 3], w);
        lemma_mul_past(c2, powers[n as int + 3], w, z);
        assert(prefix(c, c1) && prefix(c, c2));
        if holds_past(c3, c.len(), z) && (forall|i: int|
            0 <= i < 8 ==> (#[trigger] powers[i]).eval(z) == power(d, (3 + i) as nat)) {
            lemma_past_split(c3, c2, c.len(), z);
            lemma_past_split(c2, c1, c.len(), z);
            lemma_past_split(c1, c0, c.len(), z);
            assert(evals_at(lanes, z)[n - 1] == lanes[n - 1].eval(z));
            assert(powers[n - 1].eval(z) == power(d, (3 + n - 1) as nat));
            assert(powers[n as int + 3].eval(z) == power(d, (3 + (n + 3)) as nat));
        }
    }
}

/// The weights as expressions.
pub struct WeightLins {
    pub s_in: Lin,
    pub s_out: Lin,
    pub state: Lin,
}

pub open spec fn shift_weight_rows(c: Seq<Row>, rp: Seq<Lin>, d: Lin, r2: Seq<Lin>) -> (
    Seq<Row>,
    WeightLins,
) {
    let n = rp.len() as int;
    let (c1, eq_slot) = equal_rows(c, rp.subrange(9, n), r2.subrange(9, n), (n - 9) as nat);
    let (c2, eq_elem) = equal_rows(c1, rp.subrange(0, 2), r2.subrange(0, 2), 2);
    let (c3, rounds) = tensor_rows(c2, rp.subrange(2, 9), 7);
    let (c4, before) = mle_rows(c3, rotated(rounds), r2.subrange(2, 9));
    let (c5, lanes) = tensor_rows(c4, r2.subrange(0, 2), 2);
    let (c6, base) = mul_rows(c5, eq_slot, before);
    let (c7, dec) = mul_rows(c6, base, eq_elem);
    let (c8, d2) = mul_rows(c7, d, d);
    let (c9, powers) = climb_rows(c8, d2, d, 8);
    let (c10, x) = mul_rows(c9, d, dec);
    let (c11, y) = mul_rows(c10, d2, dec);
    let (c12, s_out, state) = lane_weight_rows(c11, x, y, base, lanes, powers, 4);
    (c12, WeightLins { s_in: dec, s_out, state })
}

#[verifier::rlimit(60)]
proof fn lemma_shift_weight_past(c: Seq<Row>, rp: Seq<Lin>, d: Lin, r2: Seq<Lin>, z: Seq<F128>)
    requires
        rp.len() >= 9,
        r2.len() == rp.len(),
    ensures
        prefix(c, shift_weight_rows(c, rp, d, r2).0),
        holds_past(shift_weight_rows(c, rp, d, r2).0, c.len(), z) ==> {
            let w = shift_weight_rows(c, rp, d, r2).1;
            let v = shift_weights(evals_at(rp, z), d.eval(z), evals_at(r2, z));
            w.s_in.eval(z) == v.s_in && w.s_out.eval(z) == v.s_out && w.state.eval(z) == v.state
        },
{
    broadcast use {lemma_prefix_trans, group_lin, group_field_units};

    vstd::arithmetic::power2::lemma2_to64();
    let n = rp.len() as int;
    let (ps, rs) = (rp.subrange(9, n), r2.subrange(9, n));
    let (pe, re) = (rp.subrange(0, 2), r2.subrange(0, 2));
    let (pr, rr) = (rp.subrange(2, 9), r2.subrange(2, 9));
    let (c1, eq_slot) = equal_rows(c, ps, rs, (n - 9) as nat);
    lemma_equal_past(c, ps, rs, (n - 9) as nat, z);
    let (c2, eq_elem) = equal_rows(c1, pe, re, 2);
    lemma_equal_past(c1, pe, re, 2, z);
    let (c3, rounds) = tensor_rows(c2, pr, 7);
    lemma_tensor_past(c2, pr, 7, z);
    let (c4, before) = mle_rows(c3, rotated(rounds), rr);
    lemma_mle_past(c3, rotated(rounds), rr, z);
    let (c5, lanes) = tensor_rows(c4, re, 2);
    lemma_tensor_past(c4, re, 2, z);
    let (c6, base) = mul_rows(c5, eq_slot, before);
    lemma_mul_past(c5, eq_slot, before, z);
    let (c7, dec) = mul_rows(c6, base, eq_elem);
    lemma_mul_past(c6, base, eq_elem, z);
    let (c8, d2) = mul_rows(c7, d, d);
    lemma_mul_past(c7, d, d, z);
    let (c9, powers) = climb_rows(c8, d2, d, 8);
    lemma_climb_past(c8, d2, d, 2, 8, z);
    let (c10, x) = mul_rows(c9, d, dec);
    lemma_mul_past(c9, d, dec, z);
    let (c11, y) = mul_rows(c10, d2, dec);
    lemma_mul_past(c10, d2, dec, z);
    let (c12, s_out, state) = lane_weight_rows(c11, x, y, base, lanes, powers, 4);
    lemma_lane_weight_past(c11, x, y, base, lanes, powers, d.eval(z), 4, z);
    assert(prefix(c, c1) && prefix(c1, c2));
    assert(prefix(c, c2));
    assert(prefix(c, c3));
    assert(prefix(c, c4));
    assert(prefix(c, c5));
    assert(prefix(c, c6));
    assert(prefix(c, c7));
    assert(prefix(c, c8));
    assert(prefix(c, c9));
    assert(prefix(c, c10));
    assert(prefix(c, c11));
    if holds_past(c12, c.len(), z) {
        lemma_past_split(c12, c11, c.len(), z);
        lemma_past_split(c11, c10, c.len(), z);
        lemma_past_split(c10, c9, c.len(), z);
        lemma_past_split(c9, c8, c.len(), z);
        lemma_past_split(c8, c7, c.len(), z);
        lemma_past_split(c7, c6, c.len(), z);
        lemma_past_split(c6, c5, c.len(), z);
        lemma_past_split(c5, c4, c.len(), z);
        lemma_past_split(c4, c3, c.len(), z);
        lemma_past_split(c3, c2, c.len(), z);
        lemma_past_split(c2, c1, c.len(), z);
        let (rpv, r2v) = (evals_at(rp, z), evals_at(r2, z));
        assert(evals_at(ps, z) =~= rpv.subrange(9, n));
        assert(evals_at(rs, z) =~= r2v.subrange(9, n));
        assert(evals_at(pe, z) =~= rpv.subrange(0, 2));
        assert(evals_at(re, z) =~= r2v.subrange(0, 2));
        assert(evals_at(pr, z) =~= rpv.subrange(2, 9));
        assert(evals_at(rr, z) =~= r2v.subrange(2, 9));
        assert(evals_at(rotated(rounds), z) =~= rotated(evals_at(rounds, z)));
        assert(d2.eval(z) == power(d.eval(z), 2)) by {
            reveal_with_fuel(power, 3);
        }
    }
}

/// The weights as wires.
struct WeightExprs {
    s_in: LinExpr,
    s_out: LinExpr,
    state: LinExpr,
}

fn rotate(s: &Vec<LinExpr>, Ghost(n): Ghost<nat>) -> (r: Vec<LinExpr>)
    requires
        s@.len() > 0,
        all_below(lins(s@), n),
    ensures
        lins(r@) == rotated(lins(s@)),
        r@.len() == s@.len(),
        all_below(lins(r@), n),
{
    let mut r: Vec<LinExpr> = Vec::new();
    while r.len() < s.len()
        invariant
            s@.len() > 0,
            r@.len() <= s@.len(),
            forall|i: int|
                0 <= i < r@.len() ==> (#[trigger] r@[i])@ == s@[(i + 1) % s@.len() as int]@,
        decreases s@.len() - r@.len(),
    {
        let i: usize = r.len();
        let next: usize = if i + 1 < s.len() {
            i + 1
        } else {
            0
        };
        proof {
            assert(next == (i + 1) % s@.len() as int) by {
                if i + 1 < s@.len() {
                    vstd::arithmetic::div_mod::lemma_small_mod((i + 1) as nat, s@.len());
                } else {
                    vstd::arithmetic::div_mod::lemma_mod_self_0(s@.len() as int);
                }
            }
        }
        r.push(s[next].dup());
    }
    proof {
        assert(lins(r@) =~= rotated(lins(s@)));
        assert forall|i: int| 0 <= i < r@.len() implies (#[trigger] lins(r@)[i]).below(n) by {
            let k = (i + 1) % s@.len() as int;
            assert(lins(s@)[k].below(n));
        }
    }
    r
}

#[verifier::rlimit(60)]
fn block_combined_weights_at_point_trace(
    b: &mut FieldR1csBuilder,
    r_prime: &Vec<LinExpr>,
    delta: &LinExpr,
    r2: &Vec<LinExpr>,
) -> (r: WeightExprs)
    requires
        old(b)@.wf(),
        r_prime@.len() >= 9,
        r2@.len() == r_prime@.len(),
        all_below(lins(r_prime@), old(b)@.rows.len()),
        all_below(lins(r2@), old(b)@.rows.len()),
        delta@.below(old(b)@.rows.len()),
    ensures
        computed(old(b)@, final(b)@),
        (final(b)@.rows, (WeightLins { s_in: r.s_in@, s_out: r.s_out@, state: r.state@ }))
            == shift_weight_rows(old(b)@.rows, lins(r_prime@), delta@, lins(r2@)),
        r.s_in@.below(final(b)@.rows.len()),
        r.s_out@.below(final(b)@.rows.len()),
        r.state@.below(final(b)@.rows.len()),
{
    let ghost b0 = b@;
    let ghost m = b0.rows.len();
    let n: usize = r_prime.len();
    proof {
        vstd::arithmetic::power2::lemma2_to64();
    }
    let ps = slice_exprs(r_prime, 9, n, Ghost(m));
    let rs = slice_exprs(r2, 9, n, Ghost(m));
    let pe = slice_exprs(r_prime, 0, 2, Ghost(m));
    let re = slice_exprs(r2, 0, 2, Ghost(m));
    let pr = slice_exprs(r_prime, 2, 9, Ghost(m));
    let rr = slice_exprs(r2, 2, 9, Ghost(m));
    let eq_slot = eq_ind_trace(b, &ps, &rs);
    proof {
        lemma_below_grow(lins(pe@), m, b@.rows.len());
        lemma_below_grow(lins(re@), m, b@.rows.len());
    }
    let eq_elem = eq_ind_trace(b, &pe, &re);
    proof {
        lemma_below_grow(lins(pr@), m, b@.rows.len());
    }
    let rounds = eq_ind_partial_eval_trace(b, &pr);
    let ghost m3 = b@.rows.len();
    let turned = rotate(&rounds, Ghost(m3));
    proof {
        lemma_below_grow(lins(rr@), m, m3);
    }
    let before = mle_evaluate_small_trace(b, &turned, &rr);
    proof {
        lemma_below_grow(lins(re@), m, b@.rows.len());
    }
    let lanes = eq_ind_partial_eval_trace(b, &re);
    let ghost m5 = b@.rows.len();
    let base = times(b, &eq_slot, &before);
    let dec = times(b, &base, &eq_elem);
    let d2 = times(b, delta, delta);
    let ghost b8 = b@;
    let mut powers: Vec<LinExpr> = Vec::new();
    let mut p = d2.dup();
    proof {
        lemma_computed_refl(b8);
        lemma_empty_below(b8.rows.len());
    }
    while powers.len() < 8
        invariant
            powers@.len() <= 8,
            delta@.below(b8.rows.len()),
            d2@.below(b8.rows.len()),
            b@.wf(),
            computed(b8, b@),
            p@.below(b@.rows.len()),
            p@ == if powers@.len() == 0 {
                d2@
            } else {
                lins(powers@).last()
            },
            all_below(lins(powers@), b@.rows.len()),
            (b@.rows, lins(powers@)) == climb_rows(b8.rows, d2@, delta@, powers@.len()),
        decreases 8 - powers@.len(),
    {
        let ghost mm = b@.rows.len();
        let ghost prior = powers@;
        let q = times(b, &p, delta);
        proof {
            lemma_below_push(powers@, q, mm, b@.rows.len());
        }
        p = q.dup();
        powers.push(q);
        assert(lins(powers@) =~= lins(prior).push(q@));
    }
    let ghost m9 = b@.rows.len();
    let mut s_out = times(b, delta, &dec);
    let mut state = times(b, &d2, &dec);
    let ghost b11 = b@;
    let ghost (x, y) = (s_out@, state@);
    let mut j: usize = 0;
    proof {
        lemma_computed_refl(b11);
    }
    while j < 4
        invariant
            j <= 4,
            powers@.len() == 8,
            lanes@.len() == 4,
            m5 <= b11.rows.len(),
            m9 <= b11.rows.len(),
            all_below(lins(lanes@), m5),
            all_below(lins(powers@), m9),
            base@.below(b11.rows.len()),
            b@.wf(),
            computed(b11, b@),
            s_out@.below(b@.rows.len()),
            state@.below(b@.rows.len()),
            (b@.rows, s_out@, state@) == lane_weight_rows(
                b11.rows,
                x,
                y,
                base@,
                lins(lanes@),
                lins(powers@),
                j as nat,
            ),
        decreases 4 - j,
    {
        proof {
            lemma_below_at(lanes@, m5, j as int);
            lemma_below_at(powers@, m9, j as int);
            lemma_below_at(powers@, m9, j + 4);
        }
        let w = times(b, &base, &lanes[j]);
        let u = times(b, &powers[j], &w);
        let v = times(b, &powers[j + 4], &w);
        s_out = s_out.add(&u);
        state = state.add(&v);
        j += 1;
    }
    WeightExprs { s_in: dec, s_out, state }
}

// ---------------------------------------------------------------------------
// The shift sumcheck
// ---------------------------------------------------------------------------

/// A shift proof: its rounds, and the three columns at the new point.
#[derive(Debug)]
pub struct BlockSpineShiftProofTrace {
    pub round_polys: Vec<RoundPolyTrace>,
    pub s_in_at_r2: LinExpr,
    pub s_out_at_r2: LinExpr,
    pub state_at_r2: LinExpr,
}

/// The three columns at `r_double_prime`.
#[derive(Debug)]
pub struct BlockSpineShiftReductionTrace {
    pub r_double_prime: Vec<LinExpr>,
    pub s_in_at_r2: LinExpr,
    pub s_out_at_r2: LinExpr,
    pub state_at_r2: LinExpr,
}

impl BlockSpineShiftProofTrace {
    pub open spec fn columns(&self) -> Seq<Lin> {
        seq![self.s_in_at_r2@, self.s_out_at_r2@, self.state_at_r2@]
    }

    pub open spec fn below(&self, n: nat) -> bool {
        &&& polys_ok(self.round_polys@, n)
        &&& self.s_in_at_r2@.below(n)
        &&& self.s_out_at_r2@.below(n)
        &&& self.state_at_r2@.below(n)
    }
}

impl BlockSpineShiftReductionTrace {
    pub open spec fn columns(&self) -> Seq<Lin> {
        seq![self.s_in_at_r2@, self.s_out_at_r2@, self.state_at_r2@]
    }

    pub open spec fn below(&self, n: nat) -> bool {
        &&& all_below(lins(self.r_double_prime@), n)
        &&& self.s_in_at_r2@.below(n)
        &&& self.s_out_at_r2@.below(n)
        &&& self.state_at_r2@.below(n)
    }
}

/// The rows, operations and challenges of a shift sumcheck.
pub struct ShiftRun {
    pub tape: Tape,
    pub delta: Lin,
    pub challenges: Seq<Lin>,
    pub pins: Seq<Lin>,
}

#[verifier::opaque]
pub open spec fn shift_run(
    t: Tape,
    polys: Seq<Seq<Lin>>,
    f: Seq<Lin>,
    rp: Seq<Lin>,
    g: Seq<Lin>,
) -> ShiftRun {
    let d = t.challenge();
    let t1 = t.squeeze();
    let (c2, target, next) = target_rows(t1.rows, f, d, 8);
    let (t3, claim, challenges) = polys_tape(t1.on(c2), polys, target, polys.len());
    let (c4, w) = shift_weight_rows(t3.rows, rp, d, reversed(challenges));
    let (c5, x) = mul_rows(c4, w.s_in, g[0]);
    let (c6, y) = mul_rows(c5, w.s_out, g[1]);
    let (c7, s) = mul_rows(c6, w.state, g[2]);
    let pin = claim.plus(x.plus(y).plus(s));
    ShiftRun {
        tape: Tape { rows: pin_rows(c7, pin), ops: t3.ops + absorbs(g) },
        delta: d,
        challenges,
        pins: seq![pin],
    }
}

/// What a shift sumcheck checks: the claim that its rounds bring the combined
/// target to is the weighted sum of the columns.
#[verifier::opaque]
pub open spec fn shift_checks(
    polys: Seq<Seq<F128>>,
    f: Seq<F128>,
    rp: Seq<F128>,
    g: Seq<F128>,
    delta: F128,
    challenges: Seq<F128>,
) -> bool {
    let w = shift_weights(rp, delta, reversed(challenges));
    poly_claim(polys, target_at(f, delta, 8), challenges, polys.len()) == w.s_in.times(g[0]).plus(
        w.s_out.times(g[1]),
    ).plus(w.state.times(g[2]))
}

/// The checks of a run under given values.
pub open spec fn shift_checked(
    run: ShiftRun,
    polys: Seq<Seq<Lin>>,
    f: Seq<Lin>,
    rp: Seq<Lin>,
    g: Seq<Lin>,
    z: Seq<F128>,
) -> bool {
    shift_checks(
        rows_evals(polys, z),
        evals_at(f, z),
        evals_at(rp, z),
        evals_at(g, z),
        run.delta.eval(z),
        evals_at(run.challenges, z),
    )
}

/// The pinned expression is zero exactly where the sumcheck checks.
#[verifier::rlimit(40)]
pub proof fn lemma_shift_past(
    t: Tape,
    polys: Seq<Seq<Lin>>,
    f: Seq<Lin>,
    rp: Seq<Lin>,
    g: Seq<Lin>,
    z: Seq<F128>,
)
    requires
        polys.len() >= 9,
        rp.len() == polys.len(),
        f.len() == 12,
        g.len() == 3,
        forall|i: int| 0 <= i < polys.len() ==> (#[trigger] polys[i]).len() >= 1,
    ensures
        prefix(t.rows, shift_run(t, polys, f, rp, g).tape.rows),
        shift_run(t, polys, f, rp, g).challenges.len() == polys.len(),
        holds_past(shift_run(t, polys, f, rp, g).tape.rows, t.rows.len(), z) ==> (all_zero(
            shift_run(t, polys, f, rp, g).pins,
            z,
        ) <==> shift_checked(shift_run(t, polys, f, rp, g), polys, f, rp, g, z)),
{
    broadcast use {lemma_prefix_trans, group_lin, lemma_plus_is_zero};

    reveal(shift_run);
    reveal(shift_checks);
    let n = polys.len();
    let d = t.challenge();
    let t1 = t.squeeze();
    lemma_prefix_push(t.rows, crate::circuit::free_row(t.rows.len() as usize));
    let (c2, target, next) = target_rows(t1.rows, f, d, 8);
    lemma_target_past(t1.rows, f, d, 8, z);
    let (t3, claim, challenges) = polys_tape(t1.on(c2), polys, target, n);
    lemma_polys_past(t1.on(c2), polys, target, n, z);
    let point = reversed(challenges);
    let (c4, w) = shift_weight_rows(t3.rows, rp, d, point);
    lemma_shift_weight_past(t3.rows, rp, d, point, z);
    let (c5, x) = mul_rows(c4, w.s_in, g[0]);
    lemma_mul_past(c4, w.s_in, g[0], z);
    let (c6, y) = mul_rows(c5, w.s_out, g[1]);
    lemma_mul_past(c5, w.s_out, g[1], z);
    let (c7, s) = mul_rows(c6, w.state, g[2]);
    lemma_mul_past(c6, w.state, g[2], z);
    let pin = claim.plus(x.plus(y).plus(s));
    lemma_pin_prefix(c7, pin);
    assert(prefix(t.rows, t1.rows) && prefix(t1.rows, c2));
    assert(prefix(t.rows, c2));
    assert(prefix(t.rows, t3.rows));
    assert(prefix(t.rows, c4));
    assert(prefix(t.rows, c5));
    assert(prefix(t.rows, c6));
    assert(prefix(t.rows, c7));
    let rows = pin_rows(c7, pin);
    if holds_past(rows, t.rows.len(), z) {
        lemma_past_split(rows, c7, t.rows.len(), z);
        lemma_past_split(c7, c6, t.rows.len(), z);
        lemma_past_split(c6, c5, t.rows.len(), z);
        lemma_past_split(c5, c4, t.rows.len(), z);
        lemma_past_split(c4, t3.rows, t.rows.len(), z);
        lemma_past_split(t3.rows, c2, t.rows.len(), z);
        lemma_past_split(c2, t1.rows, t.rows.len(), z);
        assert(evals_at(point, z) =~= reversed(evals_at(challenges, z)));
        let gv = evals_at(g, z);
        assert(gv[0] == g[0].eval(z) && gv[1] == g[1].eval(z) && gv[2] == g[2].eval(z));
        let pins = seq![pin];
        assert(pins[0] == pin);
        assert(all_zero(pins, z) <==> pin.eval(z) == F128::zero());
    }
}

/// Soundness: a run whose rows hold, pins and all, has checked its claim.
pub proof fn lemma_shift_sound(
    t: Tape,
    polys: Seq<Seq<Lin>>,
    f: Seq<Lin>,
    rp: Seq<Lin>,
    g: Seq<Lin>,
    z: Seq<F128>,
)
    requires
        polys.len() >= 9,
        rp.len() == polys.len(),
        f.len() == 12,
        g.len() == 3,
        forall|i: int| 0 <= i < polys.len() ==> (#[trigger] polys[i]).len() >= 1,
        sat(shift_run(t, polys, f, rp, g).tape.rows, z),
    ensures
        sat(t.rows, z),
        shift_checked(shift_run(t, polys, f, rp, g), polys, f, rp, g, z),
{
    reveal(shift_run);
    lemma_shift_past(t, polys, f, rp, g, z);
    let run = shift_run(t, polys, f, rp, g);
    lemma_sat_past(run.tape.rows, t.rows.len(), z);
    crate::circuit::lemma_sat_prefix(t.rows, run.tape.rows, z);
    let c = run.tape.rows.drop_last();
    assert(run.tape.rows == pin_rows(c, run.pins[0])) by {
        assert(c.push(run.tape.rows.last()) =~= run.tape.rows);
    }
    lemma_prefix_refl(run.tape.rows);
    lemma_sat_pin(run.tape.rows, c, run.pins[0], z);
}

/// Turns the values of the round before into values of the columns at one
/// point.
pub fn verify_block_spine_shift_trace(
    b: &mut FieldR1csBuilder,
    ch: &mut RawChannelTrace,
    proof: &BlockSpineShiftProofTrace,
    main_reduction: &BlockSpineUnifiedReductionTrace,
    num_vars: usize,
) -> (r: BlockSpineShiftReductionTrace)
    requires
        old(b)@.wf(),
        num_vars >= 9,
        proof.round_polys@.len() == num_vars,
        main_reduction.r_prime@.len() == num_vars,
        proof.below(old(b)@.rows.len()),
        main_reduction.below(old(b)@.rows.len()),
    ensures
        ({
            let run = shift_run(
                tape(*old(b), *old(ch)),
                poly_lanes(proof.round_polys@),
                main_reduction.opened(),
                lins(main_reduction.r_prime@),
                proof.columns(),
            );
            &&& tape(*final(b), *final(ch)) == run.tape
            &&& pinned(old(b)@, final(b)@, run.pins)
            &&& lins(r.r_double_prime@) == reversed(run.challenges)
            &&& final(b)@.honest() <==> old(b)@.honest() && shift_checked(
                run,
                poly_lanes(proof.round_polys@),
                main_reduction.opened(),
                lins(main_reduction.r_prime@),
                proof.columns(),
                final(b)@.values,
            )
        }),
        final(b)@.grows(old(b)@),
        r.r_double_prime@.len() == num_vars,
        r.columns() == proof.columns(),
        r.s_in_at_r2@ == proof.s_in_at_r2@,
        r.s_out_at_r2@ == proof.s_out_at_r2@,
        r.state_at_r2@ == proof.state_at_r2@,
        r.below(final(b)@.rows.len()),
        drew(old(b)@, *old(ch), final(b)@, *final(ch)),
{
    proof {
        reveal(shift_run);
    }
    let ghost b0 = b@;
    let ghost ch0 = *ch;
    let ghost m = b0.rows.len();
    let ghost t0 = tape(*b, *ch);
    let ghost polys = poly_lanes(proof.round_polys@);
    let ghost f = main_reduction.opened();
    let ghost rp = lins(main_reduction.r_prime@);
    let ghost g = proof.columns();
    let delta = ch.squeeze(b);
    let ghost (b1, ch1) = (b@, *ch);
    let opened = opened_values(
        &main_reduction.s_in_dec_at_r,
        &main_reduction.s_out_dec_at_r,
        &main_reduction.state_dec_at_r,
        &main_reduction.state_at_r,
        &main_reduction.s_out_lane_dec_at_r,
        &main_reduction.state_lane_dec_at_r,
    );
    proof {
        lemma_below_grow(f, m, b@.rows.len());
    }
    let target = block_combined_target_trace(b, &opened, &delta);
    proof {
        lemma_polys_grow(proof.round_polys@, m, b@.rows.len());
    }
    let ghost b2 = b@;
    let (claim, challenges) = run_polys(b, ch, &proof.round_polys, target);
    let ghost (b3, ch3) = (b@, *ch);
    let point = reverse(&challenges);
    proof {
        lemma_reversed_below(lins(challenges@), b3.rows.len());
        lemma_below_grow(rp, m, b3.rows.len());
    }
    let w = block_combined_weights_at_point_trace(b, &main_reduction.r_prime, &delta, &point);
    let x = times(b, &w.s_in, &proof.s_in_at_r2);
    let y = times(b, &w.s_out, &proof.s_out_at_r2);
    let s = times(b, &w.state, &proof.state_at_r2);
    let pin = claim.add(&x.add(&y).add(&s));
    proof {
        lemma_pinned_none(b0, b@);
    }
    pin_after(b, &pin, Ghost(b0), Ghost(Seq::empty()));
    let ghost ops = ch@;
    ch.absorb(&proof.s_in_at_r2);
    ch.absorb(&proof.s_out_at_r2);
    ch.absorb(&proof.state_at_r2);
    proof {
        assert(ch@ =~= ops + absorbs(g));
        lemma_shift_past(t0, polys, f, rp, g, b@.values);
        let run = shift_run(t0, polys, f, rp, g);
        assert(tape(*b, *ch) == run.tape);
        assert(Seq::<Lin>::empty().push(pin@) =~= run.pins);
        lemma_drew_step(b0, ch0, b1, ch1, b2, ch1, b3, ch3, b3);
        lemma_drew_end(b0, ch0, b3, ch3, b@, *ch);
        lemma_below_grow(lins(point@), b3.rows.len(), b@.rows.len());
    }
    BlockSpineShiftReductionTrace {
        r_double_prime: point,
        s_in_at_r2: proof.s_in_at_r2.dup(),
        s_out_at_r2: proof.s_out_at_r2.dup(),
        state_at_r2: proof.state_at_r2.dup(),
    }
}

} // verus!
