//! The number of siblings in a state multiproof, bound to sorted actions.
//!
//! For sorted distinct slots `x_0 < ... < x_(T-1)` of a depth-`d` tree, the
//! canonical binary multiproof has `F` siblings with
//! `F + T = d + 1 + sum of msb(x_i XOR x_(i-1))`.

use vstd::prelude::*;
use vstd::arithmetic::power2::{lemma_pow2_pos, pow2};
use crate::action_compaction::wire_rows;
use crate::action_surface::{action_rows, ActionRowTrace};
use crate::bits::{
    all_bits, bits_nat, bits_value, bool_rows, bools, digit, fresh, high_equal, high_value, is_msb,
    lemma_bits_nat_injective, lemma_bits_stable, lemma_bits_value_push, lemma_bool_rows_sound,
    lemma_nat_bits_small, lemma_pow2_128, lemma_pow2_bound, lemma_range_sound, lemma_ripple_prefix,
    lemma_ripple_sound, lemma_value_split, lemma_weighted, lemma_weighted_below, lemma_widened,
    nat_bit, nat_bits, range_check_bits, range_rows, ripple, ripple_bits, weighted, weighted_sum,
    widened, wire_exprs, wire_lins,
};
use crate::circuit::{
    all_below, alloc_bit, gate_rows, group_circuit, lemma_gate_sound, lemma_grows_honest,
    lemma_mul_sound, lemma_pin_sound, lins, mul_rows, pin_eq, pin_product, pin_rows, pin_zero, sat,
    Circuit, FieldR1csBuilder, Lin, LinExpr, Row, Wire,
};
use crate::field::{lemma_plus_is_zero, F128};
use crate::permutation_network::{lane_rows, lemma_rows_stable, rows_shaped};
use crate::segment_compaction::sorted_actions;

verus! {

broadcast use group_circuit;

// ---------------------------------------------------------------------------
// Unsigned sums
// ---------------------------------------------------------------------------

pub open spec fn wider(l: Seq<Lin>, r: Seq<Lin>) -> nat {
    if l.len() >= r.len() {
        l.len()
    } else {
        r.len()
    }
}

/// The rows of an addition that keeps its carry, and its digits.
pub open spec fn add_rows(c: Seq<Row>, l: Seq<Lin>, r: Seq<Lin>) -> (Seq<Row>, Seq<Lin>) {
    let w = wider(l, r);
    let (c1, sum, carry) = ripple(c, widened(l, w), widened(r, w), w);
    (c1, sum.push(carry))
}

pub proof fn lemma_add_prefix(c: Seq<Row>, l: Seq<Lin>, r: Seq<Lin>, z: Seq<F128>)
    requires
        sat(add_rows(c, l, r).0, z),
    ensures
        sat(c, z),
{
    let w = wider(l, r);
    lemma_ripple_prefix(c, widened(l, w), widened(r, w), w, z);
}

/// The digits are those of the sum.
pub proof fn lemma_add_sound(c: Seq<Row>, l: Seq<Lin>, r: Seq<Lin>, z: Seq<F128>)
    requires
        all_bits(l, z),
        all_bits(r, z),
        sat(add_rows(c, l, r).0, z),
    ensures
        sat(c, z),
        all_bits(add_rows(c, l, r).1, z),
        bits_value(add_rows(c, l, r).1, z) == bits_value(l, z) + bits_value(r, z),
{
    let w = wider(l, r);
    let (wl, wr) = (widened(l, w), widened(r, w));
    lemma_widened(l, w, z);
    lemma_widened(r, w, z);
    let (c1, sum, carry) = ripple(c, wl, wr, w);
    lemma_ripple_sound(c, wl, wr, w, z);
    assert(wl.take(w as int) =~= wl);
    assert(wr.take(w as int) =~= wr);
    lemma_bits_value_push(sum, carry, z);
}

/// Digits with zeros above them, as expressions.
fn widen(bits: &Vec<LinExpr>, width: usize) -> (r: Vec<LinExpr>)
    requires
        bits@.len() <= width,
    ensures
        lins(r@) == widened(lins(bits@), width as nat),
        r@.len() == width,
{
    let ghost d = lins(bits@);
    let mut r: Vec<LinExpr> = Vec::with_capacity(width);
    let mut i: usize = 0;
    while i < width
        invariant
            i <= width,
            bits@.len() <= width,
            d == lins(bits@),
            r@.len() == i,
            forall|j: int|
                0 <= j < i ==> (#[trigger] r@[j])@ == widened(d, width as nat)[j],
        decreases width - i,
    {
        if i < bits.len() {
            r.push(bits[i].dup());
        } else {
            r.push(LinExpr::zero());
        }
        i += 1;
    }
    assert(lins(r@) =~= widened(d, width as nat));
    r
}

proof fn lemma_widened_below(bits: Seq<Lin>, width: nat, n: nat)
    requires
        all_below(bits, n),
        bits.len() <= width,
    ensures
        all_below(widened(bits, width), n),
{
    let w = widened(bits, width);
    assert forall|i: int| 0 <= i < w.len() implies (#[trigger] w[i]).below(n) by {
        if i < bits.len() {
            assert(w[i] == bits[i]);
        } else {
            assert(w[i] == Lin::zero());
        }
    }
}

/// Adds two integers given by their digits, and keeps the carry.
fn add_unsigned_bits(b: &mut FieldR1csBuilder, left: &Vec<LinExpr>, right: &Vec<LinExpr>) -> (out:
    Vec<LinExpr>)
    requires
        old(b)@.wf(),
        all_below(lins(left@), old(b)@.rows.len()),
        all_below(lins(right@), old(b)@.rows.len()),
    ensures
        (final(b)@.rows, lins(out@)) == add_rows(old(b)@.rows, lins(left@), lins(right@)),
        final(b)@.grows(old(b)@),
        final(b)@.honest() <==> old(b)@.honest(),
        all_below(lins(out@), final(b)@.rows.len()),
{
    let width: usize = if left.len() >= right.len() {
        left.len()
    } else {
        right.len()
    };
    proof {
        lemma_widened_below(lins(left@), width as nat, old(b)@.rows.len());
        lemma_widened_below(lins(right@), width as nat, old(b)@.rows.len());
    }
    let a = widen(left, width);
    let c = widen(right, width);
    let (sum, carry) = ripple_bits(b, &a, &c);
    let mut out = sum;
    let ghost prior = out@;
    out.push(carry);
    proof {
        assert(lins(out@) =~= lins(prior).push(carry@));
        assert forall|j: int| 0 <= j < lins(out@).len() implies (#[trigger] lins(out@)[j]).below(
            b@.rows.len(),
        ) by {
            if j < prior.len() {
                assert(lins(prior)[j].below(b@.rows.len()));
            }
        }
    }
    out
}

/// The first `m` pairwise sums of one level.
pub open spec fn pair_rows(c: Seq<Row>, vals: Seq<Seq<Lin>>, m: nat) -> (Seq<Row>, Seq<Seq<Lin>>)
    decreases m,
{
    if m == 0 {
        (c, Seq::empty())
    } else {
        let (c1, out) = pair_rows(c, vals, (m - 1) as nat);
        let (c2, sum) = add_rows(c1, vals[2 * m - 2], vals[2 * m - 1]);
        (c2, out.push(sum))
    }
}

/// One level of the balanced sum.
pub open spec fn level_rows(c: Seq<Row>, vals: Seq<Seq<Lin>>) -> (Seq<Row>, Seq<Seq<Lin>>) {
    let (c1, out) = pair_rows(c, vals, vals.len() / 2);
    if vals.len() % 2 == 1 {
        (c1, out.push(vals.last()))
    } else {
        (c1, out)
    }
}

/// The balanced sum of integers within `fuel` levels.
pub open spec fn tree_rows(c: Seq<Row>, vals: Seq<Seq<Lin>>, fuel: nat) -> (Seq<Row>, Seq<Lin>)
    decreases fuel,
{
    if vals.len() == 0 {
        (c, seq![Lin::zero()])
    } else if vals.len() == 1 || fuel == 0 {
        (c, vals[0])
    } else {
        let (c1, next) = level_rows(c, vals);
        tree_rows(c1, next, (fuel - 1) as nat)
    }
}

/// The balanced sum of integers.
pub open spec fn total_rows(c: Seq<Row>, vals: Seq<Seq<Lin>>) -> (Seq<Row>, Seq<Lin>) {
    tree_rows(c, vals, vals.len())
}

/// The sum of the first `n` integers.
pub open spec fn total(vals: Seq<Seq<Lin>>, n: nat, z: Seq<F128>) -> nat
    decreases n,
{
    if n == 0 {
        0
    } else {
        total(vals, (n - 1) as nat, z) + bits_value(vals[n - 1], z)
    }
}

/// Every integer is given by boolean digits.
pub open spec fn rows_bits(vals: Seq<Seq<Lin>>, z: Seq<F128>) -> bool {
    forall|i: int| 0 <= i < vals.len() ==> all_bits(#[trigger] vals[i], z)
}

proof fn lemma_total_push(vals: Seq<Seq<Lin>>, v: Seq<Lin>, n: nat, z: Seq<F128>)
    requires
        n <= vals.len(),
    ensures
        total(vals.push(v), n, z) == total(vals, n, z),
    decreases n,
{
    if n > 0 {
        lemma_total_push(vals, v, (n - 1) as nat, z);
    }
}

proof fn lemma_pair_prefix(c: Seq<Row>, vals: Seq<Seq<Lin>>, m: nat, z: Seq<F128>)
    requires
        sat(pair_rows(c, vals, m).0, z),
    ensures
        sat(c, z),
    decreases m,
{
    if m > 0 {
        let (c1, out) = pair_rows(c, vals, (m - 1) as nat);
        lemma_add_prefix(c1, vals[2 * m - 2], vals[2 * m - 1], z);
        lemma_pair_prefix(c, vals, (m - 1) as nat, z);
    }
}

proof fn lemma_pair_len(c: Seq<Row>, vals: Seq<Seq<Lin>>, m: nat)
    ensures
        pair_rows(c, vals, m).1.len() == m,
    decreases m,
{
    if m > 0 {
        lemma_pair_len(c, vals, (m - 1) as nat);
    }
}

proof fn lemma_pair_sound(c: Seq<Row>, vals: Seq<Seq<Lin>>, m: nat, z: Seq<F128>)
    requires
        2 * m <= vals.len(),
        rows_bits(vals, z),
        sat(pair_rows(c, vals, m).0, z),
    ensures
        sat(c, z),
        pair_rows(c, vals, m).1.len() == m,
        rows_bits(pair_rows(c, vals, m).1, z),
        total(pair_rows(c, vals, m).1, m, z) == total(vals, 2 * m, z),
    decreases m,
{
    if m > 0 {
        let (c1, out) = pair_rows(c, vals, (m - 1) as nat);
        assert(all_bits(vals[2 * m - 2], z) && all_bits(vals[2 * m - 1], z));
        lemma_add_sound(c1, vals[2 * m - 2], vals[2 * m - 1], z);
        lemma_pair_sound(c, vals, (m - 1) as nat, z);
        let sum = add_rows(c1, vals[2 * m - 2], vals[2 * m - 1]).1;
        let all = out.push(sum);
        lemma_total_push(out, sum, (m - 1) as nat, z);
        assert forall|i: int| 0 <= i < all.len() implies all_bits(#[trigger] all[i], z) by {
            if i < out.len() {
                assert(all[i] == out[i]);
            }
        }
        assert(total(vals, 2 * m, z) == total(vals, (2 * m - 2) as nat, z) + bits_value(
            vals[2 * m - 2],
            z,
        ) + bits_value(vals[2 * m - 1], z)) by {
            assert(total(vals, (2 * m - 1) as nat, z) == total(vals, (2 * m - 2) as nat, z)
                + bits_value(vals[2 * m - 2], z));
        }
    }
}

proof fn lemma_tree_prefix(c: Seq<Row>, vals: Seq<Seq<Lin>>, fuel: nat, z: Seq<F128>)
    requires
        sat(tree_rows(c, vals, fuel).0, z),
    ensures
        sat(c, z),
    decreases fuel,
{
    if vals.len() > 1 && fuel > 0 {
        let (c1, next) = level_rows(c, vals);
        lemma_tree_prefix(c1, next, (fuel - 1) as nat, z);
        lemma_pair_prefix(c, vals, vals.len() / 2, z);
    }
}

/// The digits are those of the sum of all integers.
pub proof fn lemma_tree_sound(c: Seq<Row>, vals: Seq<Seq<Lin>>, fuel: nat, z: Seq<F128>)
    requires
        vals.len() <= fuel,
        rows_bits(vals, z),
        sat(tree_rows(c, vals, fuel).0, z),
    ensures
        sat(c, z),
        all_bits(tree_rows(c, vals, fuel).1, z),
        bits_value(tree_rows(c, vals, fuel).1, z) == total(vals, vals.len(), z),
    decreases fuel,
{
    if vals.len() == 0 {
        reveal(all_bits);
        let s = seq![Lin::zero()];
        assert(bools(s, z).drop_last() =~= Seq::<bool>::empty());
        assert(bits_nat(bools(s, z).drop_last()) == 0);
    } else if vals.len() == 1 {
        assert(all_bits(vals[0], z));
        assert(total(vals, 0, z) == 0);
        assert(total(vals, 1, z) == bits_value(vals[0], z));
    } else {
        let m = vals.len() / 2;
        let (c1, out) = pair_rows(c, vals, m);
        let (_, next) = level_rows(c, vals);
        lemma_pair_len(c, vals, m);
        lemma_tree_prefix(c1, next, (fuel - 1) as nat, z);
        lemma_pair_sound(c, vals, m, z);
        if vals.len() % 2 == 1 {
            lemma_total_push(out, vals.last(), m, z);
            assert(all_bits(vals[vals.len() - 1], z));
            assert forall|i: int| 0 <= i < next.len() implies all_bits(#[trigger] next[i], z) by {
                if i < out.len() {
                    assert(next[i] == out[i]);
                }
            }
            assert(2 * m == vals.len() - 1);
        }
        lemma_tree_sound(c1, next, (fuel - 1) as nat, z);
    }
}

/// Every integer speaks of wires below `n`.
pub open spec fn rows_below(vals: Seq<Seq<Lin>>, n: nat) -> bool {
    forall|i: int| 0 <= i < vals.len() ==> all_below(#[trigger] vals[i], n)
}

proof fn lemma_rows_below_grow(old: Circuit, new: Circuit, vals: Seq<Seq<Lin>>)
    requires
        new.grows(old),
        rows_below(vals, old.rows.len()),
    ensures
        rows_below(vals, new.rows.len()),
{
    assert forall|i: int| 0 <= i < vals.len() implies all_below(
        #[trigger] vals[i],
        new.rows.len(),
    ) by {
        assert(all_below(vals[i], old.rows.len()));
        assert forall|j: int| 0 <= j < vals[i].len() implies (#[trigger] vals[i][j]).below(
            new.rows.len(),
        ) by {
            assert(vals[i][j].below(old.rows.len()));
        }
    }
}

fn dup_row(s: &Vec<LinExpr>) -> (r: Vec<LinExpr>)
    ensures
        lins(r@) == lins(s@),
{
    let mut r: Vec<LinExpr> = Vec::with_capacity(s.len());
    let mut i: usize = 0;
    while i < s.len()
        invariant
            i <= s@.len(),
            r@.len() == i,
            forall|j: int| 0 <= j < i ==> (#[trigger] r@[j])@ == s@[j]@,
        decreases s@.len() - i,
    {
        r.push(s[i].dup());
        i += 1;
    }
    assert(lins(r@) =~= lins(s@));
    r
}

/// The balanced sum of integers given by their digits.
fn sum_unsigned_bit_vectors(b: &mut FieldR1csBuilder, values: Vec<Vec<LinExpr>>) -> (r: Vec<
    LinExpr,
>)
    requires
        old(b)@.wf(),
        rows_below(lane_rows(values@), old(b)@.rows.len()),
    ensures
        (final(b)@.rows, lins(r@)) == total_rows(old(b)@.rows, lane_rows(values@)),
        final(b)@.grows(old(b)@),
        final(b)@.honest() <==> old(b)@.honest(),
        all_below(lins(r@), final(b)@.rows.len()),
{
    let ghost vals = lane_rows(values@);
    if values.len() == 0 {
        let mut r: Vec<LinExpr> = Vec::new();
        r.push(LinExpr::zero());
        assert(lins(r@) =~= seq![Lin::zero()]);
        return r;
    }
    let mut level = values;
    let ghost mut fuel: nat = vals.len();
    while level.len() > 1
        invariant
            level@.len() >= 1,
            level@.len() <= fuel,
            b@.grows(old(b)@),
            b@.honest() <==> old(b)@.honest(),
            rows_below(lane_rows(level@), b@.rows.len()),
            tree_rows(b@.rows, lane_rows(level@), fuel) == total_rows(old(b)@.rows, vals),
        decreases level@.len(),
    {
        let ghost start = b@;
        let ghost here = lane_rows(level@);
        let count: usize = level.len();
        let half: usize = count / 2;
        let mut next: Vec<Vec<LinExpr>> = Vec::with_capacity(half + 1);
        let mut i: usize = 0;
        assert(lane_rows(next@) =~= Seq::empty());
        while i < half
            invariant
                i <= half,
                half == count / 2,
                count == level@.len(),
                here == lane_rows(level@),
                rows_below(here, start.rows.len()),
                b@.grows(start),
                b@.honest() <==> start.honest(),
                next@.len() == i,
                (b@.rows, lane_rows(next@)) == pair_rows(start.rows, here, i as nat),
                rows_below(lane_rows(next@), b@.rows.len()),
            decreases half - i,
        {
            let ghost before = b@;
            let ghost prior = next@;
            proof {
                lemma_rows_below_grow(start, before, here);
                assert(here[2 * i] == lins(level@[2 * i]@) && here[2 * i + 1] == lins(
                    level@[2 * i + 1]@,
                ));
                assert(all_below(here[2 * i], before.rows.len()));
                assert(all_below(here[2 * i + 1], before.rows.len()));
                assert(2 * (i + 1) - 2 == 2 * i);
            }
            let sum = add_unsigned_bits(b, &level[2 * i], &level[2 * i + 1]);
            next.push(sum);
            proof {
                assert(lane_rows(next@) =~= lane_rows(prior).push(lins(sum@)));
                lemma_rows_below_grow(before, b@, lane_rows(prior));
                let all = lane_rows(next@);
                assert forall|j: int| 0 <= j < all.len() implies all_below(
                    #[trigger] all[j],
                    b@.rows.len(),
                ) by {
                    if j < prior.len() {
                        assert(all[j] == lane_rows(prior)[j]);
                    }
                }
            }
            i += 1;
        }
        if level.len() % 2 == 1 {
            let ghost prior = next@;
            let last = dup_row(&level[level.len() - 1]);
            next.push(last);
            proof {
                lemma_rows_below_grow(start, b@, here);
                assert(lins(last@) == here.last());
                assert(all_below(here[here.len() - 1], b@.rows.len()));
                assert(lane_rows(next@) =~= lane_rows(prior).push(here.last()));
                let all = lane_rows(next@);
                assert forall|j: int| 0 <= j < all.len() implies all_below(
                    #[trigger] all[j],
                    b@.rows.len(),
                ) by {
                    if j < prior.len() {
                        assert(all[j] == lane_rows(prior)[j]);
                    }
                }
            }
        }
        proof {
            assert((b@.rows, lane_rows(next@)) == level_rows(start.rows, here));
            fuel = (fuel - 1) as nat;
        }
        level = next;
    }
    assert(lane_rows(level@)[0] == lins(level@[0]@));
    dup_row(&level[0])
}

// ---------------------------------------------------------------------------
// Depth
// ---------------------------------------------------------------------------

/// The least depth of the state tree.
pub const MIN_EXACT_STATE_DEPTH: usize = 24;

/// The greatest depth of the state tree.
pub const MAX_EXACT_STATE_DEPTH: usize = 32;

/// Depths to choose from.
pub const EXACT_STATE_DEPTH_CHOICES: usize = 9;

/// A state depth as a one-hot choice among 24 to 32.
pub struct StateDepthTrace {
    pub value: LinExpr,
    /// Index zero selects depth 24, index eight depth 32.
    pub one_hot: Vec<LinExpr>,
}

/// Exactly choice `k` is one under `z`.
pub open spec fn one_hot_at(hot: Seq<Lin>, k: int, z: Seq<F128>) -> bool {
    forall|i: int| 0 <= i < hot.len() ==> (#[trigger] hot[i]).eval(z) == F128::of_bool(i == k)
}

/// The sum of expressions with weights `base, base + 1, ...`.
pub open spec fn scaled_sum(hot: Seq<Lin>, base: nat, n: nat) -> Lin
    decreases n,
{
    if n == 0 {
        Lin::zero()
    } else {
        scaled_sum(hot, base, (n - 1) as nat).plus(
            hot[n - 1].scale(F128::of_nat((base + n - 1) as nat)),
        )
    }
}

/// The rows that bind the first `n` choices to be exclusive, and their sum.
pub open spec fn overlap_rows(c: Seq<Row>, hot: Seq<Lin>, n: nat) -> (Seq<Row>, Lin)
    decreases n,
{
    if n == 0 {
        (c, Lin::zero())
    } else {
        let (c1, seen) = overlap_rows(c, hot, (n - 1) as nat);
        (gate_rows(c1, hot[n - 1], seen), seen.plus(hot[n - 1]))
    }
}

/// The rows that bind a depth, and its choices.
pub open spec fn depth_rows(c: Seq<Row>, value: Lin) -> (Seq<Row>, Seq<Lin>) {
    let hot = fresh(c, 9);
    let (c1, seen) = overlap_rows(bool_rows(c, 9), hot, 9);
    let c2 = pin_rows(c1, seen.plus(Lin::constant(F128::one())));
    (pin_rows(c2, value.plus(scaled_sum(hot, 24, 9))), hot)
}

/// Some choice below `n` is one.
spec fn some_hot(hot: Seq<Lin>, n: nat, z: Seq<F128>) -> bool {
    exists|i: int| 0 <= i < n && (#[trigger] hot[i]).eval(z) == F128::one()
}

proof fn lemma_overlap_sound(c: Seq<Row>, hot: Seq<Lin>, n: nat, z: Seq<F128>)
    requires
        n <= hot.len(),
        all_bits(hot, z),
        sat(overlap_rows(c, hot, n).0, z),
    ensures
        sat(c, z),
        overlap_rows(c, hot, n).1.eval(z) == F128::of_bool(some_hot(hot, n, z)),
        forall|i: int, j: int|
            0 <= i < j < n && (#[trigger] hot[i]).eval(z) == F128::one() ==> (
            #[trigger] hot[j]).eval(z) == F128::zero(),
    decreases n,
{
    reveal(all_bits);
    if n > 0 {
        let (c1, seen) = overlap_rows(c, hot, (n - 1) as nat);
        lemma_gate_sound(c1, hot[n - 1], seen, z);
        lemma_overlap_sound(c, hot, (n - 1) as nat, z);
        let m = (n - 1) as nat;
        assert(hot[m as int].eval(z).is_bit());
        if some_hot(hot, m, z) {
            let i = choose|i: int| 0 <= i < m && (#[trigger] hot[i]).eval(z) == F128::one();
            assert(0 <= i < n && hot[i].eval(z) == F128::one());
            assert(some_hot(hot, n, z));
        } else if hot[m as int].eval(z) == F128::one() {
            assert(some_hot(hot, n, z));
        } else {
            assert(!some_hot(hot, n, z));
        }
        assert forall|i: int, j: int|
            0 <= i < j < n && (#[trigger] hot[i]).eval(z) == F128::one() implies (
        #[trigger] hot[j]).eval(z) == F128::zero() by {
            if j == m {
                assert(some_hot(hot, m, z));
            }
        }
    }
}

proof fn lemma_overlap_prefix(c: Seq<Row>, hot: Seq<Lin>, n: nat, z: Seq<F128>)
    requires
        sat(overlap_rows(c, hot, n).0, z),
    ensures
        sat(c, z),
    decreases n,
{
    if n > 0 {
        let (c1, seen) = overlap_rows(c, hot, (n - 1) as nat);
        lemma_gate_sound(c1, hot[n - 1], seen, z);
        lemma_overlap_prefix(c, hot, (n - 1) as nat, z);
    }
}

proof fn lemma_scaled_sum(hot: Seq<Lin>, base: nat, n: nat, k: int, z: Seq<F128>)
    requires
        n <= hot.len(),
        one_hot_at(hot, k, z),
    ensures
        scaled_sum(hot, base, n).eval(z) == if 0 <= k < n {
            F128::of_nat((base + k) as nat)
        } else {
            F128::zero()
        },
    decreases n,
{
    if n > 0 {
        lemma_scaled_sum(hot, base, (n - 1) as nat, k, z);
        assert(hot[n - 1].eval(z) == F128::of_bool(n - 1 == k));
    }
}

/// Under every satisfying assignment exactly one choice is one, and the value
/// is its depth.
pub proof fn lemma_depth_sound(c: Seq<Row>, value: Lin, z: Seq<F128>) -> (k: int)
    requires
        sat(depth_rows(c, value).0, z),
    ensures
        sat(c, z),
        0 <= k < 9,
        depth_rows(c, value).1.len() == 9,
        one_hot_at(depth_rows(c, value).1, k, z),
        value.eval(z) == F128::of_nat((24 + k) as nat),
{
    broadcast use lemma_plus_is_zero;

    let hot = fresh(c, 9);
    let c0 = bool_rows(c, 9);
    let (c1, seen) = overlap_rows(c0, hot, 9);
    let c2 = pin_rows(c1, seen.plus(Lin::constant(F128::one())));
    lemma_pin_sound(c2, value.plus(scaled_sum(hot, 24, 9)), z);
    lemma_pin_sound(c1, seen.plus(Lin::constant(F128::one())), z);
    lemma_overlap_prefix(c0, hot, 9, z);
    lemma_bool_rows_sound(c, 9, z);
    lemma_overlap_sound(c0, hot, 9, z);
    assert(some_hot(hot, 9, z));
    let k = choose|i: int| 0 <= i < 9 && (#[trigger] hot[i]).eval(z) == F128::one();
    reveal(all_bits);
    assert forall|i: int| 0 <= i < hot.len() implies (#[trigger] hot[i]).eval(z) == F128::of_bool(
        i == k,
    ) by {
        assert(hot[i].eval(z).is_bit());
        assert(hot[k].eval(z) == F128::one());
        if i < k && hot[i].eval(z) == F128::one() {
            assert(hot[k].eval(z) == F128::zero());
        }
    }
    lemma_scaled_sum(hot, 24, 9, k, z);
    k
}

impl StateDepthTrace {
    /// Binds an expression to be a depth from 24 to 32.
    pub fn bind(b: &mut FieldR1csBuilder, value: &LinExpr) -> (r: StateDepthTrace)
        requires
            old(b)@.wf(),
            value@.below(old(b)@.rows.len()),
        ensures
            r.value@ == value@,
            r.one_hot@.len() == 9,
            (final(b)@.rows, lins(r.one_hot@)) == depth_rows(old(b)@.rows, value@),
            final(b)@.grows(old(b)@),
            all_below(lins(r.one_hot@), final(b)@.rows.len()),
            all_bits(lins(r.one_hot@), final(b)@.values),
            ({
                let d = value@.eval(old(b)@.values).bits;
                &&& final(b)@.honest() <==> old(b)@.honest() && 24 <= d <= 32
                &&& one_hot_at(lins(r.one_hot@), d - 24, final(b)@.values)
            }),
    {
        broadcast use lemma_plus_is_zero;

        let native: u128 = value.eval(&b.values).bits;
        let ghost d = native as int;
        let mut one_hot: Vec<LinExpr> = Vec::with_capacity(EXACT_STATE_DEPTH_CHOICES);
        let mut i: usize = 0;
        while i < EXACT_STATE_DEPTH_CHOICES
            invariant
                i <= 9,
                d == native,
                one_hot@.len() == i,
                b@.grows(old(b)@),
                b@.rows == bool_rows(old(b)@.rows, i as nat),
                b@.rows.len() == old(b)@.rows.len() + i,
                b@.honest() <==> old(b)@.honest(),
                forall|j: int|
                    0 <= j < i ==> (#[trigger] one_hot@[j])@ == Lin::wire(
                        (old(b)@.rows.len() + j) as usize,
                    ) && one_hot@[j]@.below(b@.rows.len()) && one_hot@[j]@.eval(b@.values)
                        == F128::of_bool(j == d - 24),
            decreases 9 - i,
        {
            let ghost before = b@;
            let ghost prior = one_hot@;
            let depth: usize = MIN_EXACT_STATE_DEPTH + i;
            let bit = alloc_bit(b, native == depth as u128);
            one_hot.push(bit);
            proof {
                assert forall|j: int| 0 <= j <= i implies (#[trigger] one_hot@[j])@ == Lin::wire(
                    (old(b)@.rows.len() + j) as usize,
                ) && one_hot@[j]@.below(b@.rows.len()) && one_hot@[j]@.eval(b@.values)
                    == F128::of_bool(j == d - 24) by {
                    if j < i {
                        assert(one_hot@[j] == prior[j]);
                        assert(prior[j]@.below(before.rows.len()));
                    }
                }
            }
            i += 1;
        }
        let ghost hot = lins(one_hot@);
        let ghost b1 = b@;
        proof {
            assert(hot =~= fresh(old(b)@.rows, 9));
            reveal(all_bits);
            assert(one_hot_at(hot, d - 24, b1.values));
        }
        let mut seen = LinExpr::zero();
        let mut j: usize = 0;
        while j < EXACT_STATE_DEPTH_CHOICES
            invariant
                j <= 9,
                one_hot@.len() == 9,
                hot == lins(one_hot@),
                all_below(hot, b1.rows.len()),
                one_hot_at(hot, d - 24, b1.values),
                b@.grows(b1),
                b@.honest() <==> b1.honest(),
                (b@.rows, seen@) == overlap_rows(b1.rows, hot, j as nat),
                seen@.below(b@.rows.len()),
                seen@.eval(b@.values) == F128::of_bool(0 <= d - 24 < j),
            decreases 9 - j,
        {
            let ghost before = b@;
            assert(hot[j as int].below(b1.rows.len()));
            assert(hot[j as int].eval(b1.values) == F128::of_bool(j == d - 24));
            pin_product(b, &one_hot[j], &seen);
            seen.add_assign(&one_hot[j]);
            j += 1;
        }
        let ghost b2 = b@;
        let one = LinExpr::constant(F128::one());
        pin_eq(b, &seen, &one);
        let ghost b3 = b@;
        let mut selected = LinExpr::zero();
        let mut k: usize = 0;
        while k < EXACT_STATE_DEPTH_CHOICES
            invariant
                k <= 9,
                one_hot@.len() == 9,
                hot == lins(one_hot@),
                all_below(hot, b1.rows.len()),
                selected@ == scaled_sum(hot, 24, k as nat),
                selected@.below(b1.rows.len()),
            decreases 9 - k,
        {
            assert(hot[k as int].below(b1.rows.len()));
            let depth: usize = MIN_EXACT_STATE_DEPTH + k;
            let term = one_hot[k].scale(F128::from_u128(depth as u128));
            selected.add_assign(&term);
            k += 1;
        }
        pin_eq(b, value, &selected);
        proof {
            lemma_bits_stable(b1, b@, hot);
            lemma_scaled_sum(hot, 24, 9, d - 24, b1.values);
            assert(one_hot_at(hot, d - 24, b@.values)) by {
                assert forall|i: int| 0 <= i < hot.len() implies (#[trigger] hot[i]).eval(
                    b@.values,
                ) == F128::of_bool(i == d - 24) by {
                    assert(hot[i].below(b1.rows.len()));
                    assert(hot[i].eval(b1.values) == F128::of_bool(i == d - 24));
                }
            }
        }
        StateDepthTrace { value: value.dup(), one_hot }
    }
}

// ---------------------------------------------------------------------------
// Constant digits
// ---------------------------------------------------------------------------

/// Digits of an integer below 64, at least one.
pub open spec fn bit_len(v: nat) -> nat {
    if v < 2 {
        1
    } else if v < 4 {
        2
    } else if v < 8 {
        3
    } else if v < 16 {
        4
    } else if v < 32 {
        5
    } else {
        6
    }
}

fn bit_length(v: usize) -> (r: usize)
    requires
        v < 64,
    ensures
        r == bit_len(v as nat),
{
    if v < 2 {
        1
    } else if v < 4 {
        2
    } else if v < 8 {
        3
    } else if v < 16 {
        4
    } else if v < 32 {
        5
    } else {
        6
    }
}

proof fn lemma_bit_len(v: nat)
    requires
        v < 64,
    ensures
        v < pow2(bit_len(v)),
{
    vstd::arithmetic::power2::lemma2_to64();
}

/// The digits of a constant.
pub open spec fn const_digits(v: nat) -> Seq<Lin> {
    Seq::new(bit_len(v), |i: int| Lin::constant(F128::of_bool(nat_bit(v, i as nat))))
}

proof fn lemma_const_digits(v: nat, z: Seq<F128>)
    requires
        v < 64,
    ensures
        all_bits(const_digits(v), z),
        bits_value(const_digits(v), z) == v,
{
    reveal(all_bits);
    lemma_bit_len(v);
    lemma_nat_bits_small(v, bit_len(v));
    assert(bools(const_digits(v), z) =~= nat_bits(v, bit_len(v)));
}

fn constant_unsigned_bits(value: usize) -> (r: Vec<LinExpr>)
    requires
        value < 64,
    ensures
        lins(r@) == const_digits(value as nat),
{
    let width: usize = bit_length(value);
    let mut r: Vec<LinExpr> = Vec::with_capacity(width);
    let mut i: usize = 0;
    while i < width
        invariant
            i <= width <= 6,
            width == bit_len(value as nat),
            r@.len() == i,
            forall|j: int|
                0 <= j < i ==> (#[trigger] r@[j])@ == Lin::constant(
                    F128::of_bool(nat_bit(value as nat, j as nat)),
                ),
        decreases width - i,
    {
        r.push(LinExpr::constant(F128::from_bool(digit(value as u128, i))));
        i += 1;
    }
    assert(lins(r@) =~= const_digits(value as nat));
    r
}

/// The sum of the choices whose number, counted from `base`, has digit `bit`.
pub open spec fn picked_sum(s: Seq<Lin>, base: nat, bit: nat, n: nat) -> Lin
    decreases n,
{
    if n == 0 {
        Lin::zero()
    } else if nat_bit((base + n - 1) as nat, bit) {
        picked_sum(s, base, bit, (n - 1) as nat).plus(s[n - 1])
    } else {
        picked_sum(s, base, bit, (n - 1) as nat)
    }
}

/// Digit `bit` of the number of the one choice, if there is one.
proof fn lemma_picked_sum(s: Seq<Lin>, base: nat, bit: nat, n: nat, k: int, z: Seq<F128>)
    requires
        n <= s.len(),
        one_hot_at(s, k, z),
    ensures
        picked_sum(s, base, bit, n).eval(z) == F128::of_bool(
            0 <= k < n && nat_bit((base + k) as nat, bit),
        ),
    decreases n,
{
    if n > 0 {
        lemma_picked_sum(s, base, bit, (n - 1) as nat, k, z);
        assert(s[n - 1].eval(z) == F128::of_bool(n - 1 == k));
    }
}

proof fn lemma_picked_below(s: Seq<Lin>, base: nat, bit: nat, n: nat, m: nat)
    requires
        n <= s.len(),
        all_below(s, m),
    ensures
        picked_sum(s, base, bit, n).below(m),
    decreases n,
{
    if n > 0 {
        lemma_picked_below(s, base, bit, (n - 1) as nat, m);
        assert(s[n - 1].below(m));
    }
}

/// The sum of the choices whose number has a digit.
fn pick(s: &Vec<LinExpr>, base: usize, bit: usize) -> (r: LinExpr)
    requires
        s@.len() + base <= 1000,
        bit < 128,
    ensures
        r@ == picked_sum(lins(s@), base as nat, bit as nat, s@.len()),
{
    let mut r = LinExpr::zero();
    let mut i: usize = 0;
    while i < s.len()
        invariant
            i <= s@.len(),
            s@.len() + base <= 1000,
            bit < 128,
            r@ == picked_sum(lins(s@), base as nat, bit as nat, i as nat),
        decreases s@.len() - i,
    {
        if digit((base + i) as u128, bit) {
            r.add_assign(&s[i]);
        }
        i += 1;
    }
    r
}

/// The digits of a selected depth plus `addend`.
pub open spec fn depth_digits(hot: Seq<Lin>, addend: nat) -> Seq<Lin> {
    Seq::new(bit_len(32 + addend), |bit: int| picked_sum(hot, 24 + addend, bit as nat, 9))
}

proof fn lemma_depth_digits(hot: Seq<Lin>, addend: nat, k: int, z: Seq<F128>)
    requires
        hot.len() == 9,
        addend <= 31,
        0 <= k < 9,
        one_hot_at(hot, k, z),
    ensures
        all_bits(depth_digits(hot, addend), z),
        bits_value(depth_digits(hot, addend), z) == 24 + k + addend,
{
    reveal(all_bits);
    let v = (24 + k + addend) as nat;
    let w = bit_len(32 + addend);
    lemma_bit_len(32 + addend);
    lemma_nat_bits_small(v, w);
    let d = depth_digits(hot, addend);
    assert forall|i: int| 0 <= i < d.len() implies (#[trigger] d[i]).eval(z) == F128::of_bool(
        nat_bit(v, i as nat),
    ) by {
        lemma_picked_sum(hot, 24 + addend, i as nat, 9, k, z);
    }
    assert(bools(d, z) =~= nat_bits(v, w));
}

impl StateDepthTrace {
    /// The digits of the depth plus `addend`.
    fn selected_unsigned_bits(&self, addend: usize) -> (r: Vec<LinExpr>)
        requires
            self.one_hot@.len() == 9,
            addend <= 31,
        ensures
            lins(r@) == depth_digits(lins(self.one_hot@), addend as nat),
    {
        let width: usize = bit_length(MAX_EXACT_STATE_DEPTH + addend);
        let mut r: Vec<LinExpr> = Vec::with_capacity(width);
        let mut bit: usize = 0;
        while bit < width
            invariant
                bit <= width <= 6,
                width == bit_len((32 + addend) as nat),
                self.one_hot@.len() == 9,
                addend <= 31,
                r@.len() == bit,
                forall|j: int|
                    0 <= j < bit ==> (#[trigger] r@[j])@ == picked_sum(
                        lins(self.one_hot@),
                        (24 + addend) as nat,
                        j as nat,
                        9,
                    ),
            decreases width - bit,
        {
            r.push(pick(&self.one_hot, MIN_EXACT_STATE_DEPTH + addend, bit));
            bit += 1;
        }
        assert(lins(r@) =~= depth_digits(lins(self.one_hot@), addend as nat));
        r
    }
}

// ---------------------------------------------------------------------------
// Differences of adjacent slots
// ---------------------------------------------------------------------------

/// The highest digit below `n` in which two integers differ.
pub open spec fn top_diff(l: Seq<Lin>, r: Seq<Lin>, n: nat, z: Seq<F128>) -> nat
    decreases n,
{
    if n == 0 {
        0
    } else if l[n - 1].eval(z) != r[n - 1].eval(z) {
        (n - 1) as nat
    } else {
        top_diff(l, r, (n - 1) as nat, z)
    }
}

proof fn lemma_top_diff(l: Seq<Lin>, r: Seq<Lin>, n: nat, z: Seq<F128>)
    requires
        l.len() == r.len(),
        n <= l.len(),
        high_equal(l, r, n, z),
        !high_equal(l, r, 0, z),
    ensures
        is_msb(l, r, top_diff(l, r, n, z), z),
    decreases n,
{
    if n > 0 && l[n - 1].eval(z) == r[n - 1].eval(z) {
        assert(high_equal(l, r, (n - 1) as nat, z));
        lemma_top_diff(l, r, (n - 1) as nat, z);
    }
}

proof fn lemma_msb_unique(l: Seq<Lin>, r: Seq<Lin>, i: nat, j: nat, z: Seq<F128>)
    requires
        is_msb(l, r, i, z),
        is_msb(l, r, j, z),
    ensures
        i == j,
{
    if i < j {
        assert(l[j as int].eval(z) == r[j as int].eval(z));
    } else if j < i {
        assert(l[i as int].eval(z) == r[i as int].eval(z));
    }
}

/// The contribution of the pair after action `i`: the highest difference of
/// the two slots when the second is live.
pub open spec fn pair_msb(
    acts: Seq<Seq<Lin>>,
    bits: Seq<Seq<Lin>>,
    i: int,
    z: Seq<F128>,
) -> nat {
    if acts[i + 1][0].eval(z) == F128::one() {
        top_diff(bits[i], bits[i + 1], 32, z)
    } else {
        0
    }
}

/// The sum of the highest differences of the first `n` adjacent pairs.
pub open spec fn msb_total(
    acts: Seq<Seq<Lin>>,
    bits: Seq<Seq<Lin>>,
    n: nat,
    z: Seq<F128>,
) -> nat
    decreases n,
{
    if n == 0 {
        0
    } else {
        msb_total(acts, bits, (n - 1) as nat, z) + pair_msb(acts, bits, n - 1, z)
    }
}

/// The number of live actions among the first `n`.
pub open spec fn live_total(acts: Seq<Seq<Lin>>, n: nat, z: Seq<F128>) -> nat
    decreases n,
{
    if n == 0 {
        0
    } else {
        live_total(acts, (n - 1) as nat, z) + if acts[n - 1][0].eval(z) == F128::one() {
            1nat
        } else {
            0
        }
    }
}

/// The first `n` digits of one gated difference.
pub open spec fn term_rows(c: Seq<Row>, live: Lin, highest: Seq<Lin>, n: nat) -> (
    Seq<Row>,
    Seq<Lin>,
)
    decreases n,
{
    if n == 0 {
        (c, Seq::empty())
    } else {
        let (c1, out) = term_rows(c, live, highest, (n - 1) as nat);
        let (c2, here) = mul_rows(c1, live, picked_sum(highest, 0, (n - 1) as nat, 32));
        (c2, out.push(here))
    }
}

/// The gated differences of the first `n` adjacent pairs.
pub open spec fn terms_rows(
    c: Seq<Row>,
    acts: Seq<Seq<Lin>>,
    highest: Seq<Seq<Lin>>,
    n: nat,
) -> (Seq<Row>, Seq<Seq<Lin>>)
    decreases n,
{
    if n == 0 {
        (c, Seq::empty())
    } else {
        let (c1, out) = terms_rows(c, acts, highest, (n - 1) as nat);
        let (c2, here) = term_rows(c1, acts[n as int][0], highest[n - 1], 5);
        (c2, out.push(here))
    }
}

proof fn lemma_term_prefix(c: Seq<Row>, live: Lin, highest: Seq<Lin>, n: nat, z: Seq<F128>)
    requires
        sat(term_rows(c, live, highest, n).0, z),
    ensures
        sat(c, z),
    decreases n,
{
    if n > 0 {
        let (c1, out) = term_rows(c, live, highest, (n - 1) as nat);
        lemma_mul_sound(c1, live, picked_sum(highest, 0, (n - 1) as nat, 32), z);
        lemma_term_prefix(c, live, highest, (n - 1) as nat, z);
    }
}

proof fn lemma_term_sound(
    c: Seq<Row>,
    live: Lin,
    highest: Seq<Lin>,
    n: nat,
    k: nat,
    z: Seq<F128>,
)
    requires
        highest.len() == 32,
        k < 32,
        live.eval(z).is_bit(),
        live.eval(z) == F128::one() ==> one_hot_at(highest, k as int, z),
        sat(term_rows(c, live, highest, n).0, z),
    ensures
        sat(c, z),
        term_rows(c, live, highest, n).1.len() == n,
        forall|i: int|
            0 <= i < n ==> (#[trigger] term_rows(c, live, highest, n).1[i]).eval(z)
                == F128::of_bool(live.eval(z) == F128::one() && nat_bit(k, i as nat)),
    decreases n,
{
    if n > 0 {
        let (c1, out) = term_rows(c, live, highest, (n - 1) as nat);
        lemma_mul_sound(c1, live, picked_sum(highest, 0, (n - 1) as nat, 32), z);
        lemma_term_sound(c, live, highest, (n - 1) as nat, k, z);
        if live.eval(z) == F128::one() {
            lemma_picked_sum(highest, 0, (n - 1) as nat, 32, k as int, z);
        }
        let all = term_rows(c, live, highest, n).1;
        assert forall|i: int| 0 <= i < n implies (#[trigger] all[i]).eval(z) == F128::of_bool(
            live.eval(z) == F128::one() && nat_bit(k, i as nat),
        ) by {
            if i < n - 1 {
                assert(all[i] == out[i]);
            }
        }
    }
}

/// A live adjacent pair differs, and its one-hot vector marks the highest
/// difference.
proof fn lemma_pair_one_hot(
    acts: Seq<Seq<Lin>>,
    bits: Seq<Seq<Lin>>,
    highest: Seq<Seq<Lin>>,
    both: Seq<Lin>,
    i: int,
    z: Seq<F128>,
)
    requires
        sorted_actions(acts, bits, highest, both, z),
        0 <= i < acts.len() - 1,
    ensures
        highest[i].len() == 32,
        top_diff(bits[i], bits[i + 1], 32, z) < 32,
        acts[i + 1][0].eval(z) == F128::one() ==> one_hot_at(
            highest[i],
            top_diff(bits[i], bits[i + 1], 32, z) as int,
            z,
        ),
{
    assert(crate::action_compaction::pair_bound(acts, bits, highest, both, i, z));
    assert(bits[i].len() == 32 && bits[i + 1].len() == 32);
    lemma_top_diff_bound(bits[i], bits[i + 1], 32, z);
    if acts[i + 1][0].eval(z) == F128::one() {
        assert(crate::action_compaction::follows(acts, i, z));
        assert(acts[i][0].eval(z) == F128::one());
        assert(F128::one().times(F128::one()) == F128::one());
        assert(bits_value(bits[i], z) < bits_value(bits[i + 1], z));
        crate::bits::lemma_high_equal(bits[i], bits[i + 1], 0, z);
        assert(bits[i].skip(0) =~= bits[i]);
        assert(bits[i + 1].skip(0) =~= bits[i + 1]);
        lemma_top_diff(bits[i], bits[i + 1], 32, z);
        let t = top_diff(bits[i], bits[i + 1], 32, z);
        assert forall|j: int| 0 <= j < highest[i].len() implies (#[trigger] highest[i][j]).eval(z)
            == F128::of_bool(j == t as int) by {
            assert(highest[i][j].eval(z) == F128::of_bool(
                is_msb(bits[i], bits[i + 1], j as nat, z),
            ));
            if is_msb(bits[i], bits[i + 1], j as nat, z) {
                lemma_msb_unique(bits[i], bits[i + 1], j as nat, t, z);
            }
        }
    }
}

proof fn lemma_top_diff_bound(l: Seq<Lin>, r: Seq<Lin>, n: nat, z: Seq<F128>)
    requires
        n > 0,
    ensures
        top_diff(l, r, n, z) < n,
    decreases n,
{
    if n > 1 {
        lemma_top_diff_bound(l, r, (n - 1) as nat, z);
    } else {
        assert(top_diff(l, r, 0, z) == 0);
    }
}

proof fn lemma_terms_prefix(
    c: Seq<Row>,
    acts: Seq<Seq<Lin>>,
    highest: Seq<Seq<Lin>>,
    n: nat,
    z: Seq<F128>,
)
    requires
        sat(terms_rows(c, acts, highest, n).0, z),
    ensures
        sat(c, z),
    decreases n,
{
    if n > 0 {
        let (c1, out) = terms_rows(c, acts, highest, (n - 1) as nat);
        lemma_term_prefix(c1, acts[n as int][0], highest[n - 1], 5, z);
        lemma_terms_prefix(c, acts, highest, (n - 1) as nat, z);
    }
}

proof fn lemma_terms_sound(
    c: Seq<Row>,
    acts: Seq<Seq<Lin>>,
    bits: Seq<Seq<Lin>>,
    highest: Seq<Seq<Lin>>,
    both: Seq<Lin>,
    n: nat,
    z: Seq<F128>,
)
    requires
        sorted_actions(acts, bits, highest, both, z),
        n <= acts.len() - 1,
        sat(terms_rows(c, acts, highest, n).0, z),
    ensures
        sat(c, z),
        terms_rows(c, acts, highest, n).1.len() == n,
        rows_bits(terms_rows(c, acts, highest, n).1, z),
        total(terms_rows(c, acts, highest, n).1, n, z) == msb_total(acts, bits, n, z),
    decreases n,
{
    if n > 0 {
        let i = n - 1;
        let (c1, out) = terms_rows(c, acts, highest, i as nat);
        let (c2, here) = term_rows(c1, acts[n as int][0], highest[i], 5);
        let k = top_diff(bits[i], bits[i + 1], 32, z);
        lemma_pair_one_hot(acts, bits, highest, both, i, z);
        assert(acts[n as int][0].eval(z).is_bit());
        lemma_term_sound(c1, acts[n as int][0], highest[i], 5, k, z);
        lemma_terms_sound(c, acts, bits, highest, both, i as nat, z);
        reveal(all_bits);
        let live = acts[n as int][0].eval(z) == F128::one();
        let v: nat = if live {
            k
        } else {
            0
        };
        vstd::arithmetic::power2::lemma2_to64();
        lemma_nat_bits_small(v, 5);
        assert forall|j: int| 0 <= j < 5 implies bools(here, z)[j] == nat_bits(v, 5)[j] by {
            assert(here[j].eval(z) == F128::of_bool(live && nat_bit(k, j as nat)));
            if !live {
                lemma_pow2_pos(j as nat);
                assert(0nat / pow2(j as nat) == 0) by (nonlinear_arith)
                    requires
                        pow2(j as nat) > 0,
                ;
            }
        }
        assert(bools(here, z) =~= nat_bits(v, 5));
        lemma_total_push(out, here, i as nat, z);
        let all = out.push(here);
        assert forall|j: int| 0 <= j < all.len() implies all_bits(#[trigger] all[j], z) by {
            if j < out.len() {
                assert(all[j] == out[j]);
            } else {
                assert forall|q: int| 0 <= q < here.len() implies (#[trigger] here[q]).eval(
                    z,
                ).is_bit() by {}
            }
        }
    }
}

/// Live actions as integers of one digit.
pub open spec fn live_digits(acts: Seq<Seq<Lin>>) -> Seq<Seq<Lin>> {
    Seq::new(acts.len(), |i: int| seq![acts[i][0]])
}

proof fn lemma_live_total(acts: Seq<Seq<Lin>>, n: nat, z: Seq<F128>)
    requires
        n <= acts.len(),
        forall|i: int| 0 <= i < acts.len() ==> (#[trigger] acts[i])[0].eval(z).is_bit(),
    ensures
        total(live_digits(acts), n, z) == live_total(acts, n, z),
        rows_bits(live_digits(acts), z),
    decreases n,
{
    reveal(all_bits);
    let l = live_digits(acts);
    assert forall|i: int| 0 <= i < l.len() implies all_bits(#[trigger] l[i], z) by {
        assert(acts[i][0].eval(z).is_bit());
    }
    if n > 0 {
        lemma_live_total(acts, (n - 1) as nat, z);
        let e = Seq::<Lin>::empty();
        assert(l[n - 1] =~= e.push(acts[n - 1][0]));
        lemma_bits_value_push(e, acts[n - 1][0], z);
        vstd::arithmetic::power2::lemma2_to64();
        assert(bits_value(e, z) == 0);
    }
}

// ---------------------------------------------------------------------------
// The count
// ---------------------------------------------------------------------------

/// The rows that bind the first `n` digits of two integers to agree.
pub open spec fn agree_rows(c: Seq<Row>, l: Seq<Lin>, r: Seq<Lin>, n: nat) -> Seq<Row>
    decreases n,
{
    if n == 0 {
        c
    } else {
        pin_rows(agree_rows(c, l, r, (n - 1) as nat), l[n - 1].plus(r[n - 1]))
    }
}

proof fn lemma_agree_sound(c: Seq<Row>, l: Seq<Lin>, r: Seq<Lin>, n: nat, z: Seq<F128>)
    requires
        sat(agree_rows(c, l, r, n), z),
    ensures
        sat(c, z),
        forall|i: int| 0 <= i < n ==> (#[trigger] l[i]).eval(z) == r[i].eval(z),
    decreases n,
{
    broadcast use lemma_plus_is_zero;

    if n > 0 {
        lemma_pin_sound(agree_rows(c, l, r, (n - 1) as nat), l[n - 1].plus(r[n - 1]), z);
        lemma_agree_sound(c, l, r, (n - 1) as nat, z);
    }
}

/// Equal digits are equal integers.
proof fn lemma_agree_value(l: Seq<Lin>, r: Seq<Lin>, w: nat, z: Seq<F128>)
    requires
        l.len() <= w,
        r.len() <= w,
        all_bits(l, z),
        all_bits(r, z),
    ensures
        (forall|i: int|
            0 <= i < w ==> (#[trigger] widened(l, w)[i]).eval(z) == widened(r, w)[i].eval(z))
            <==> bits_value(l, z) == bits_value(r, z),
{
    lemma_widened(l, w, z);
    lemma_widened(r, w, z);
    let (a, d) = (widened(l, w), widened(r, w));
    reveal(all_bits);
    if forall|i: int| 0 <= i < w ==> (#[trigger] a[i]).eval(z) == d[i].eval(z) {
        assert forall|i: int| 0 <= i < w implies bools(a, z)[i] == bools(d, z)[i] by {
            assert(a[i].eval(z) == d[i].eval(z));
        }
        assert(bools(a, z) =~= bools(d, z));
    }
    if bits_value(l, z) == bits_value(r, z) {
        lemma_bits_nat_injective(bools(a, z), bools(d, z));
        assert forall|i: int| 0 <= i < w implies (#[trigger] a[i]).eval(z) == d[i].eval(z) by {
            assert(bools(a, z)[i] == bools(d, z)[i]);
            assert(a[i].eval(z).is_bit() && d[i].eval(z).is_bit());
        }
    }
}

/// The rows that bind a claimed sibling count to sorted actions, where
/// `target` are the digits of the depth plus one.
pub open spec fn count_rows(
    c: Seq<Row>,
    acts: Seq<Seq<Lin>>,
    highest: Seq<Seq<Lin>>,
    target: Seq<Lin>,
    claimed: Lin,
) -> Seq<Row> {
    let (c1, terms) = terms_rows(c, acts, highest, (acts.len() - 1) as nat);
    let (c2, msb_sum) = total_rows(c1, terms);
    let (c3, touched) = total_rows(c2, live_digits(acts));
    let (c4, rhs) = add_rows(c3, msb_sum, target);
    let (c5, frontier) = range_rows(c4, claimed, 16);
    let (c6, lhs) = add_rows(c5, frontier, touched);
    let w = wider(lhs, rhs);
    agree_rows(c6, widened(lhs, w), widened(rhs, w), w)
}

/// The claimed count has 16 digits and satisfies the multiproof equation, where
/// `depth_plus_one` is the tree depth plus one.
pub open spec fn count_holds(
    acts: Seq<Seq<Lin>>,
    bits: Seq<Seq<Lin>>,
    depth_plus_one: nat,
    claimed: Lin,
    z: Seq<F128>,
) -> bool {
    &&& claimed.eval(z).bits < pow2(16)
    &&& claimed.eval(z).bits + live_total(acts, acts.len(), z) == depth_plus_one + msb_total(
        acts,
        bits,
        (acts.len() - 1) as nat,
        z,
    )
}

proof fn lemma_count_prefix(
    c: Seq<Row>,
    acts: Seq<Seq<Lin>>,
    highest: Seq<Seq<Lin>>,
    target: Seq<Lin>,
    claimed: Lin,
    z: Seq<F128>,
)
    requires
        sat(count_rows(c, acts, highest, target, claimed), z),
    ensures
        sat(c, z),
{
    let (c1, terms) = terms_rows(c, acts, highest, (acts.len() - 1) as nat);
    let (c2, msb_sum) = total_rows(c1, terms);
    let (c3, touched) = total_rows(c2, live_digits(acts));
    let (c4, rhs) = add_rows(c3, msb_sum, target);
    let (c5, frontier) = range_rows(c4, claimed, 16);
    let (c6, lhs) = add_rows(c5, frontier, touched);
    let w = wider(lhs, rhs);
    lemma_agree_sound(c6, widened(lhs, w), widened(rhs, w), w, z);
    lemma_add_prefix(c5, frontier, touched, z);
    lemma_range_sound(c4, claimed, 16, z);
    lemma_add_prefix(c3, msb_sum, target, z);
    lemma_tree_prefix(c2, live_digits(acts), acts.len(), z);
    lemma_tree_prefix(c1, terms, terms.len(), z);
    lemma_terms_prefix(c, acts, highest, (acts.len() - 1) as nat, z);
}

/// Everything that a count binds but the final agreement.
proof fn lemma_count_parts(
    c: Seq<Row>,
    acts: Seq<Seq<Lin>>,
    bits: Seq<Seq<Lin>>,
    highest: Seq<Seq<Lin>>,
    both: Seq<Lin>,
    target: Seq<Lin>,
    claimed: Lin,
    z: Seq<F128>,
)
    requires
        sorted_actions(acts, bits, highest, both, z),
        all_bits(target, z),
        ({
            let (c1, terms) = terms_rows(c, acts, highest, (acts.len() - 1) as nat);
            let (c2, msb_sum) = total_rows(c1, terms);
            let (c3, touched) = total_rows(c2, live_digits(acts));
            let (c4, rhs) = add_rows(c3, msb_sum, target);
            let (c5, frontier) = range_rows(c4, claimed, 16);
            sat(add_rows(c5, frontier, touched).0, z)
        }),
    ensures
        ({
            let (c1, terms) = terms_rows(c, acts, highest, (acts.len() - 1) as nat);
            let (c2, msb_sum) = total_rows(c1, terms);
            let (c3, touched) = total_rows(c2, live_digits(acts));
            let (c4, rhs) = add_rows(c3, msb_sum, target);
            let (c5, frontier) = range_rows(c4, claimed, 16);
            let lhs = add_rows(c5, frontier, touched).1;
            &&& all_bits(lhs, z)
            &&& all_bits(rhs, z)
            &&& claimed.eval(z).bits < pow2(16)
            &&& bits_value(lhs, z) == claimed.eval(z).bits + live_total(acts, acts.len(), z)
            &&& bits_value(rhs, z) == msb_total(acts, bits, (acts.len() - 1) as nat, z)
                + bits_value(target, z)
        }),
{
    let n = (acts.len() - 1) as nat;
    let (c1, terms) = terms_rows(c, acts, highest, n);
    let (c2, msb_sum) = total_rows(c1, terms);
    let (c3, touched) = total_rows(c2, live_digits(acts));
    let (c4, rhs) = add_rows(c3, msb_sum, target);
    let (c5, frontier) = range_rows(c4, claimed, 16);
    lemma_add_prefix(c5, frontier, touched, z);
    lemma_range_sound(c4, claimed, 16, z);
    lemma_add_prefix(c3, msb_sum, target, z);
    lemma_tree_prefix(c2, live_digits(acts), acts.len(), z);
    lemma_tree_prefix(c1, terms, terms.len(), z);
    lemma_terms_sound(c, acts, bits, highest, both, n, z);
    lemma_tree_sound(c1, terms, terms.len(), z);
    lemma_live_total(acts, acts.len(), z);
    lemma_tree_sound(c2, live_digits(acts), acts.len(), z);
    lemma_add_sound(c3, msb_sum, target, z);
    lemma_add_sound(c5, frontier, touched, z);
}

/// Under every satisfying assignment the claimed count satisfies the
/// multiproof equation.
pub proof fn lemma_count_sound(
    c: Seq<Row>,
    acts: Seq<Seq<Lin>>,
    bits: Seq<Seq<Lin>>,
    highest: Seq<Seq<Lin>>,
    both: Seq<Lin>,
    target: Seq<Lin>,
    claimed: Lin,
    z: Seq<F128>,
)
    requires
        sorted_actions(acts, bits, highest, both, z),
        all_bits(target, z),
        sat(count_rows(c, acts, highest, target, claimed), z),
    ensures
        sat(c, z),
        count_holds(acts, bits, bits_value(target, z), claimed, z),
{
    let (c1, terms) = terms_rows(c, acts, highest, (acts.len() - 1) as nat);
    let (c2, msb_sum) = total_rows(c1, terms);
    let (c3, touched) = total_rows(c2, live_digits(acts));
    let (c4, rhs) = add_rows(c3, msb_sum, target);
    let (c5, frontier) = range_rows(c4, claimed, 16);
    let (c6, lhs) = add_rows(c5, frontier, touched);
    let w = wider(lhs, rhs);
    lemma_count_prefix(c, acts, highest, target, claimed, z);
    lemma_agree_sound(c6, widened(lhs, w), widened(rhs, w), w, z);
    lemma_count_parts(c, acts, bits, highest, both, target, claimed, z);
    lemma_agree_value(lhs, rhs, w, z);
}

/// The gated difference of one adjacent pair.
fn gated_difference(b: &mut FieldR1csBuilder, live: &LinExpr, highest: &Vec<LinExpr>) -> (out: Vec<
    LinExpr,
>)
    requires
        old(b)@.wf(),
        highest@.len() == 32,
        live@.below(old(b)@.rows.len()),
        all_below(lins(highest@), old(b)@.rows.len()),
    ensures
        out@.len() == 5,
        (final(b)@.rows, lins(out@)) == term_rows(old(b)@.rows, live@, lins(highest@), 5),
        final(b)@.grows(old(b)@),
        final(b)@.honest() <==> old(b)@.honest(),
        all_below(lins(out@), final(b)@.rows.len()),
{
    let ghost hl = lins(highest@);
    let mut out: Vec<LinExpr> = Vec::with_capacity(5);
    let mut bit: usize = 0;
    assert(lins(out@) =~= Seq::empty());
    while bit < 5
        invariant
            bit <= 5,
            highest@.len() == 32,
            hl == lins(highest@),
            live@.below(old(b)@.rows.len()),
            all_below(hl, old(b)@.rows.len()),
            out@.len() == bit,
            (b@.rows, lins(out@)) == term_rows(old(b)@.rows, live@, hl, bit as nat),
            b@.grows(old(b)@),
            b@.honest() <==> old(b)@.honest(),
            all_below(lins(out@), b@.rows.len()),
        decreases 5 - bit,
    {
        let ghost before = b@;
        let ghost prior = out@;
        let raw = pick(highest, 0, bit);
        proof {
            lemma_picked_below(hl, 0, bit as nat, 32, old(b)@.rows.len());
        }
        let here = crate::circuit::mul(b, live, &raw);
        out.push(here);
        proof {
            assert(lins(out@) =~= lins(prior).push(here@));
            lemma_bits_stable(before, b@, lins(prior));
            assert forall|j: int| 0 <= j < lins(out@).len() implies (
            #[trigger] lins(out@)[j]).below(b@.rows.len()) by {
                if j < prior.len() {
                    assert(lins(prior)[j].below(b@.rows.len()));
                }
            }
        }
        bit += 1;
    }
    out
}

/// The gated differences of all adjacent pairs.
fn gated_differences(
    b: &mut FieldR1csBuilder,
    actions: &Vec<ActionRowTrace>,
    highest: &Vec<Vec<LinExpr>>,
) -> (out: Vec<Vec<LinExpr>>)
    requires
        old(b)@.wf(),
        actions@.len() == highest@.len() + 1,
        rows_shaped(action_rows(actions@), 6, old(b)@.rows.len()),
        rows_shaped(lane_rows(highest@), 32, old(b)@.rows.len()),
    ensures
        (final(b)@.rows, lane_rows(out@)) == terms_rows(
            old(b)@.rows,
            action_rows(actions@),
            lane_rows(highest@),
            highest@.len(),
        ),
        final(b)@.grows(old(b)@),
        final(b)@.honest() <==> old(b)@.honest(),
        rows_below(lane_rows(out@), final(b)@.rows.len()),
{
    let ghost acts = action_rows(actions@);
    let ghost hl = lane_rows(highest@);
    let ghost n0 = old(b)@.rows.len();
    let mut out: Vec<Vec<LinExpr>> = Vec::with_capacity(highest.len());
    let mut i: usize = 0;
    assert(lane_rows(out@) =~= Seq::empty());
    while i < highest.len()
        invariant
            i <= highest@.len(),
            actions@.len() == highest@.len() + 1,
            acts == action_rows(actions@),
            hl == lane_rows(highest@),
            n0 == old(b)@.rows.len(),
            rows_shaped(acts, 6, n0),
            rows_shaped(hl, 32, n0),
            out@.len() == i,
            (b@.rows, lane_rows(out@)) == terms_rows(old(b)@.rows, acts, hl, i as nat),
            b@.grows(old(b)@),
            b@.honest() <==> old(b)@.honest(),
            rows_below(lane_rows(out@), b@.rows.len()),
        decreases highest@.len() - i,
    {
        let ghost before = b@;
        let ghost prior = out@;
        proof {
            assert(acts[i + 1] == actions@[i + 1].lanes());
            assert(acts[i + 1].len() == 6 && all_below(acts[i + 1], n0));
            assert(acts[i + 1][0].below(n0));
            assert(hl[i as int] == lins(highest@[i as int]@));
            assert(hl[i as int].len() == 32 && all_below(hl[i as int], n0));
            lemma_bits_stable(old(b)@, before, hl[i as int]);
        }
        let here = gated_difference(b, &actions[i + 1].live, &highest[i]);
        out.push(here);
        proof {
            assert(lane_rows(out@) =~= lane_rows(prior).push(lins(here@)));
            lemma_rows_below_grow(before, b@, lane_rows(prior));
            let all = lane_rows(out@);
            assert forall|j: int| 0 <= j < all.len() implies all_below(
                #[trigger] all[j],
                b@.rows.len(),
            ) by {
                if j < prior.len() {
                    assert(all[j] == lane_rows(prior)[j]);
                }
            }
        }
        i += 1;
    }
    out
}

/// Binds two integers given by their digits to be equal.
fn pin_agree(b: &mut FieldR1csBuilder, left: &Vec<LinExpr>, right: &Vec<LinExpr>)
    requires
        old(b)@.wf(),
        all_below(lins(left@), old(b)@.rows.len()),
        all_below(lins(right@), old(b)@.rows.len()),
    ensures
        ({
            let w = wider(lins(left@), lins(right@));
            final(b)@.rows == agree_rows(
                old(b)@.rows,
                widened(lins(left@), w),
                widened(lins(right@), w),
                w,
            )
        }),
        final(b)@.grows(old(b)@),
        ({
            let z = old(b)@.values;
            all_bits(lins(left@), z) && all_bits(lins(right@), z) ==> (final(b)@.honest()
                <==> old(b)@.honest() && bits_value(lins(left@), z) == bits_value(
                lins(right@),
                z,
            ))
        }),
{
    let width: usize = if left.len() >= right.len() {
        left.len()
    } else {
        right.len()
    };
    let ghost w = width as nat;
    let a = widen(left, width);
    let c = widen(right, width);
    let ghost la = lins(a@);
    let ghost lc = lins(c@);
    let ghost z0 = old(b)@.values;
    proof {
        lemma_widened_below(lins(left@), w, old(b)@.rows.len());
        lemma_widened_below(lins(right@), w, old(b)@.rows.len());
    }
    let mut i: usize = 0;
    while i < width
        invariant
            i <= width,
            a@.len() == width,
            c@.len() == width,
            la == lins(a@),
            lc == lins(c@),
            z0 == old(b)@.values,
            all_below(la, old(b)@.rows.len()),
            all_below(lc, old(b)@.rows.len()),
            b@.rows == agree_rows(old(b)@.rows, la, lc, i as nat),
            b@.grows(old(b)@),
            b@.honest() <==> old(b)@.honest() && forall|j: int|
                0 <= j < i ==> (#[trigger] la[j]).eval(z0) == lc[j].eval(z0),
        decreases width - i,
    {
        assert(la[i as int].below(old(b)@.rows.len()) && lc[i as int].below(old(b)@.rows.len()));
        pin_eq(b, &a[i], &c[i]);
        i += 1;
    }
    proof {
        if all_bits(lins(left@), z0) && all_bits(lins(right@), z0) {
            lemma_agree_value(lins(left@), lins(right@), w, z0);
        }
    }
}

fn live_vectors(actions: &Vec<ActionRowTrace>) -> (r: Vec<Vec<LinExpr>>)
    ensures
        lane_rows(r@) == live_digits(action_rows(actions@)),
{
    let mut r: Vec<Vec<LinExpr>> = Vec::with_capacity(actions.len());
    let mut i: usize = 0;
    while i < actions.len()
        invariant
            i <= actions@.len(),
            r@.len() == i,
            forall|j: int| 0 <= j < i ==> lins((#[trigger] r@[j])@) == seq![actions@[j].live@],
        decreases actions@.len() - i,
    {
        let mut one: Vec<LinExpr> = Vec::with_capacity(1);
        one.push(actions[i].live.dup());
        assert(lins(one@) =~= seq![actions@[i as int].live@]);
        r.push(one);
        i += 1;
    }
    assert(lane_rows(r@) =~= live_digits(action_rows(actions@)));
    r
}

/// Binds a claimed sibling count to sorted actions, where `target` are the
/// digits of the depth plus one.
fn bind_count(
    b: &mut FieldR1csBuilder,
    actions: &Vec<ActionRowTrace>,
    highest: &Vec<Vec<LinExpr>>,
    target: &Vec<LinExpr>,
    claimed: &LinExpr,
)
    requires
        old(b)@.wf(),
        actions@.len() == highest@.len() + 1,
        rows_shaped(action_rows(actions@), 6, old(b)@.rows.len()),
        rows_shaped(lane_rows(highest@), 32, old(b)@.rows.len()),
        all_below(lins(target@), old(b)@.rows.len()),
        claimed@.below(old(b)@.rows.len()),
    ensures
        final(b)@.rows == count_rows(
            old(b)@.rows,
            action_rows(actions@),
            lane_rows(highest@),
            lins(target@),
            claimed@,
        ),
        final(b)@.grows(old(b)@),
        forall|bits: Seq<Seq<Lin>>, both: Seq<Lin>| #[trigger]
            sorted_actions(
                action_rows(actions@),
                bits,
                lane_rows(highest@),
                both,
                final(b)@.values,
            ) && all_bits(lins(target@), final(b)@.values) ==> (final(b)@.honest()
                <==> old(b)@.honest() && count_holds(
                action_rows(actions@),
                bits,
                bits_value(lins(target@), final(b)@.values),
                claimed@,
                final(b)@.values,
            )),
{
    let ghost b0 = b@;
    let ghost acts = action_rows(actions@);
    let ghost hl = lane_rows(highest@);
    let ghost tl = lins(target@);
    let terms = gated_differences(b, actions, highest);
    let ghost b1 = b@;
    let msb_sum = sum_unsigned_bit_vectors(b, terms);
    let ghost b2 = b@;
    let lives = live_vectors(actions);
    proof {
        let l = lane_rows(lives@);
        assert forall|i: int| 0 <= i < l.len() implies all_below(#[trigger] l[i], b2.rows.len()) by {
            assert(acts[i].len() == 6 && all_below(acts[i], b0.rows.len()));
            assert(acts[i][0].below(b0.rows.len()));
        }
    }
    let touched = sum_unsigned_bit_vectors(b, lives);
    let ghost b3 = b@;
    proof {
        lemma_bits_stable(b2, b3, lins(msb_sum@));
        lemma_bits_stable(b0, b3, tl);
    }
    let rhs = add_unsigned_bits(b, &msb_sum, target);
    let ghost b4 = b@;
    let frontier_wires = range_check_bits(b, claimed, 16);
    let ghost b5 = b@;
    let frontier = wire_exprs(&frontier_wires);
    proof {
        lemma_bits_stable(b3, b5, lins(touched@));
    }
    let lhs = add_unsigned_bits(b, &frontier, &touched);
    let ghost b6 = b@;
    proof {
        lemma_bits_stable(b4, b6, lins(rhs@));
    }
    pin_agree(b, &lhs, &rhs);
    proof {
        let z = b@.values;
        assert forall|bits: Seq<Seq<Lin>>, both: Seq<Lin>| #[trigger]
            sorted_actions(acts, bits, hl, both, z) && all_bits(tl, z) implies (b@.honest()
            <==> b0.honest() && count_holds(
            acts,
            bits,
            bits_value(tl, z),
            claimed@,
            z,
        )) by {
            if b6.honest() {
                crate::circuit::lemma_sat_stable(b6.rows, b6.values, z);
                lemma_count_parts(b0.rows, acts, bits, hl, both, tl, claimed@, z);
                lemma_bits_stable(b6, b@, lins(lhs@));
                lemma_bits_stable(b6, b@, lins(rhs@));
            } else if b@.honest() {
                lemma_grows_honest(b6, b@);
            }
        }
    }
}

// ---------------------------------------------------------------------------
// Slots within the tree
// ---------------------------------------------------------------------------

/// The slot of action `i` lies in a tree of depth `d`.
pub open spec fn slot_fits(bits: Seq<Seq<Lin>>, d: nat, i: int, z: Seq<F128>) -> bool {
    bits_value(bits[i], z) < pow2(d)
}

pub open spec fn slots_fit(bits: Seq<Seq<Lin>>, d: nat, n: nat, z: Seq<F128>) -> bool {
    forall|i: int| 0 <= i < n ==> #[trigger] slot_fits(bits, d, i, z)
}

proof fn lemma_slots_fit_step(bits: Seq<Seq<Lin>>, d: nat, n: nat, z: Seq<F128>)
    ensures
        slots_fit(bits, d, n + 1, z) <==> slots_fit(bits, d, n, z) && slot_fits(
            bits,
            d,
            n as int,
            z,
        ),
{
    if slots_fit(bits, d, n + 1, z) {
        assert(slot_fits(bits, d, n as int, z));
    }
}

/// An integer is below `2^d` exactly when its digits from `d` on are zero.
proof fn lemma_high_zero(bits: Seq<Lin>, d: nat, z: Seq<F128>)
    requires
        d <= bits.len(),
    ensures
        bits_value(bits, z) < pow2(d) <==> high_value(bits, d, z) == 0,
{
    lemma_value_split(bits, d, z);
    lemma_pow2_pos(d);
    let p = pow2(d);
    let h = high_value(bits, d, z);
    assert(h == 0 ==> p * h == 0) by (nonlinear_arith);
    assert(h > 0 ==> p * h >= p) by (nonlinear_arith)
        requires
            p > 0,
    ;
}

/// The rows that bind the first `n` slots to a tree of fixed depth.
pub open spec fn fixed_high_rows(c: Seq<Row>, bits: Seq<Seq<Lin>>, d: nat, n: nat) -> Seq<Row>
    decreases n,
{
    if n == 0 {
        c
    } else {
        pin_rows(
            fixed_high_rows(c, bits, d, (n - 1) as nat),
            weighted(bits[n - 1].skip(d as int), d),
        )
    }
}

proof fn lemma_upper_weighted(bits: Seq<Lin>, d: nat, z: Seq<F128>)
    requires
        bits.len() == 32,
        d <= 32,
        all_bits(bits, z),
    ensures
        weighted(bits.skip(d as int), d).eval(z) == F128::zero() <==> bits_value(bits, z) < pow2(d),
{
    reveal(all_bits);
    let upper = bits.skip(d as int);
    assert forall|i: int| 0 <= i < upper.len() implies (#[trigger] upper[i]).eval(z).is_bit() by {
        assert(upper[i] == bits[i + d]);
    }
    lemma_weighted(upper, d, z);
    lemma_high_zero(bits, d, z);
    lemma_pow2_pos(d);
    let h = high_value(bits, d, z);
    let p = pow2(d);
    lemma_pow2_bound((upper.len() + d) as nat, 128);
    lemma_pow2_128();
    assert(p * h == 0 <==> h == 0) by (nonlinear_arith)
        requires
            p > 0,
    ;
}

pub proof fn lemma_fixed_high_sound(
    c: Seq<Row>,
    bits: Seq<Seq<Lin>>,
    d: nat,
    n: nat,
    z: Seq<F128>,
)
    requires
        d <= 32,
        n <= bits.len(),
        forall|i: int|
            0 <= i < bits.len() ==> (#[trigger] bits[i]).len() == 32 && all_bits(bits[i], z),
        sat(fixed_high_rows(c, bits, d, n), z),
    ensures
        sat(c, z),
        slots_fit(bits, d, n, z),
    decreases n,
{
    if n > 0 {
        let m = (n - 1) as nat;
        lemma_pin_sound(
            fixed_high_rows(c, bits, d, m),
            weighted(bits[n - 1].skip(d as int), d),
            z,
        );
        lemma_fixed_high_sound(c, bits, d, m, z);
        assert(bits[n - 1].len() == 32 && all_bits(bits[n - 1], z));
        lemma_upper_weighted(bits[n - 1], d, z);
        lemma_slots_fit_step(bits, d, m, z);
    }
}

proof fn lemma_fixed_high_prefix(
    c: Seq<Row>,
    bits: Seq<Seq<Lin>>,
    d: nat,
    n: nat,
    z: Seq<F128>,
)
    requires
        sat(fixed_high_rows(c, bits, d, n), z),
    ensures
        sat(c, z),
    decreases n,
{
    if n > 0 {
        lemma_pin_sound(
            fixed_high_rows(c, bits, d, (n - 1) as nat),
            weighted(bits[n - 1].skip(d as int), d),
            z,
        );
        lemma_fixed_high_prefix(c, bits, d, (n - 1) as nat, z);
    }
}

/// The wires from `d` on.
fn wires_from(wires: &Vec<Wire>, d: usize) -> (r: Vec<LinExpr>)
    requires
        d <= wires@.len(),
    ensures
        lins(r@) == wire_lins(wires@).skip(d as int),
{
    let mut r: Vec<LinExpr> = Vec::with_capacity(wires.len() - d);
    let mut i: usize = d;
    while i < wires.len()
        invariant
            d <= i <= wires@.len(),
            r@.len() == i - d,
            forall|j: int| 0 <= j < i - d ==> (#[trigger] r@[j])@ == wire_lins(wires@)[j + d],
        decreases wires@.len() - i,
    {
        r.push(LinExpr::from_wire(wires[i]));
        i += 1;
    }
    assert(lins(r@) =~= wire_lins(wires@).skip(d as int));
    r
}

proof fn lemma_skip_below(bits: Seq<Lin>, d: nat, n: nat)
    requires
        d <= bits.len(),
        all_below(bits, n),
    ensures
        all_below(bits.skip(d as int), n),
{
    let u = bits.skip(d as int);
    assert forall|i: int| 0 <= i < u.len() implies (#[trigger] u[i]).below(n) by {
        assert(u[i] == bits[i + d]);
    }
}

/// Slot digits are boolean under the assignment built so far.
pub open spec fn digits_hold(bits: Seq<Seq<Lin>>, z: Seq<F128>) -> bool {
    forall|i: int|
        0 <= i < bits.len() ==> (#[trigger] bits[i]).len() == 32 && all_bits(bits[i], z)
}

proof fn lemma_digits_hold_stable(old: Circuit, new: Circuit, bits: Seq<Seq<Lin>>)
    requires
        new.grows(old),
        rows_shaped(bits, 32, old.rows.len()),
    ensures
        digits_hold(bits, new.values) == digits_hold(bits, old.values),
        forall|i: int|
            0 <= i < bits.len() ==> bits_value(#[trigger] bits[i], new.values) == bits_value(
                bits[i],
                old.values,
            ),
{
    assert forall|i: int| 0 <= i < bits.len() implies bits_value(#[trigger] bits[i], new.values)
        == bits_value(bits[i], old.values) && all_bits(bits[i], new.values) == all_bits(
        bits[i],
        old.values,
    ) by {
        lemma_bits_stable(old, new, bits[i]);
    }
    if digits_hold(bits, old.values) {
        assert forall|i: int| 0 <= i < bits.len() implies (#[trigger] bits[i]).len() == 32
            && all_bits(bits[i], new.values) by {
            assert(all_bits(bits[i], old.values));
        }
    }
    if digits_hold(bits, new.values) {
        assert forall|i: int| 0 <= i < bits.len() implies (#[trigger] bits[i]).len() == 32
            && all_bits(bits[i], old.values) by {
            assert(all_bits(bits[i], new.values));
        }
    }
}

/// Binds every slot to a tree of fixed depth.
fn pin_fixed_high(b: &mut FieldR1csBuilder, slot_bits: &Vec<Vec<Wire>>, depth: usize)
    requires
        old(b)@.wf(),
        depth <= 32,
        rows_shaped(wire_rows(slot_bits@), 32, old(b)@.rows.len()),
    ensures
        final(b)@.rows == fixed_high_rows(
            old(b)@.rows,
            wire_rows(slot_bits@),
            depth as nat,
            slot_bits@.len(),
        ),
        final(b)@.grows(old(b)@),
        digits_hold(wire_rows(slot_bits@), old(b)@.values) ==> (final(b)@.honest()
            <==> old(b)@.honest() && slots_fit(
            wire_rows(slot_bits@),
            depth as nat,
            slot_bits@.len(),
            old(b)@.values,
        )),
{
    let ghost bl = wire_rows(slot_bits@);
    let ghost z0 = old(b)@.values;
    let ghost n0 = old(b)@.rows.len();
    let ghost d = depth as nat;
    let mut i: usize = 0;
    while i < slot_bits.len()
        invariant
            i <= slot_bits@.len(),
            depth <= 32,
            d == depth,
            bl == wire_rows(slot_bits@),
            z0 == old(b)@.values,
            n0 == old(b)@.rows.len(),
            rows_shaped(bl, 32, n0),
            b@.rows == fixed_high_rows(old(b)@.rows, bl, d, i as nat),
            b@.grows(old(b)@),
            digits_hold(bl, z0) ==> (b@.honest() <==> old(b)@.honest() && slots_fit(
                bl,
                d,
                i as nat,
                z0,
            )),
        decreases slot_bits@.len() - i,
    {
        let ghost start = b@;
        proof {
            assert(bl[i as int] == wire_lins(slot_bits@[i as int]@));
            assert(bl[i as int].len() == 32 && all_below(bl[i as int], n0));
            lemma_skip_below(bl[i as int], d, n0);
            lemma_weighted_below(bl[i as int].skip(d as int), d, n0);
        }
        let upper = wires_from(&slot_bits[i], depth);
        let packed = weighted_sum(&upper, depth);
        pin_zero(b, &packed);
        proof {
            lemma_slots_fit_step(bl, d, i as nat, z0);
            if digits_hold(bl, z0) {
                assert(all_bits(bl[i as int], z0));
                lemma_upper_weighted(bl[i as int], d, z0);
                assert(packed@.eval(start.values) == packed@.eval(z0));
                assert(b@.honest() <==> start.honest() && slot_fits(bl, d, i as int, z0));
            }
        }
        i += 1;
    }
}

/// Gated digits above a selected depth of one slot.
pub open spec fn violation_rows(c: Seq<Row>, bits: Seq<Lin>, hot: Seq<Lin>, n: nat) -> (
    Seq<Row>,
    Seq<Lin>,
)
    decreases n,
{
    if n == 0 {
        (c, Seq::empty())
    } else {
        let (c1, out) = violation_rows(c, bits, hot, (n - 1) as nat);
        let (c2, here) = mul_rows(
            c1,
            bits[24 + n - 1],
            crate::segment_compaction::lin_sum(hot, n),
        );
        (c2, out.push(here))
    }
}

/// The rows that bind the first `n` slots to a tree of selected depth.
pub open spec fn selected_high_rows(
    c: Seq<Row>,
    bits: Seq<Seq<Lin>>,
    hot: Seq<Lin>,
    n: nat,
) -> Seq<Row>
    decreases n,
{
    if n == 0 {
        c
    } else {
        let (c1, v) = violation_rows(
            selected_high_rows(c, bits, hot, (n - 1) as nat),
            bits[n - 1],
            hot,
            8,
        );
        pin_rows(c1, weighted(v, 24))
    }
}

proof fn lemma_hot_sum(hot: Seq<Lin>, n: nat, k: int, z: Seq<F128>)
    requires
        n <= hot.len(),
        one_hot_at(hot, k, z),
    ensures
        crate::segment_compaction::lin_sum(hot, n).eval(z) == F128::of_bool(0 <= k < n),
    decreases n,
{
    if n > 0 {
        lemma_hot_sum(hot, (n - 1) as nat, k, z);
        assert(hot[n - 1].eval(z) == F128::of_bool(n - 1 == k));
    }
}

proof fn lemma_violation_prefix(c: Seq<Row>, bits: Seq<Lin>, hot: Seq<Lin>, n: nat, z: Seq<F128>)
    requires
        sat(violation_rows(c, bits, hot, n).0, z),
    ensures
        sat(c, z),
        violation_rows(c, bits, hot, n).1.len() == n,
    decreases n,
{
    if n > 0 {
        let (c1, out) = violation_rows(c, bits, hot, (n - 1) as nat);
        lemma_mul_sound(
            c1,
            bits[24 + n - 1],
            crate::segment_compaction::lin_sum(hot, n),
            z,
        );
        lemma_violation_prefix(c, bits, hot, (n - 1) as nat, z);
    }
}

proof fn lemma_violation_sound(
    c: Seq<Row>,
    bits: Seq<Lin>,
    hot: Seq<Lin>,
    n: nat,
    k: int,
    z: Seq<F128>,
)
    requires
        n <= 8,
        bits.len() == 32,
        hot.len() == 9,
        all_bits(bits, z),
        0 <= k < 9,
        one_hot_at(hot, k, z),
        sat(violation_rows(c, bits, hot, n).0, z),
    ensures
        sat(c, z),
        violation_rows(c, bits, hot, n).1.len() == n,
        forall|i: int|
            0 <= i < n ==> (#[trigger] violation_rows(c, bits, hot, n).1[i]).eval(z)
                == F128::of_bool(k <= i && bits[24 + i].eval(z) == F128::one()),
    decreases n,
{
    reveal(all_bits);
    if n > 0 {
        let (c1, out) = violation_rows(c, bits, hot, (n - 1) as nat);
        lemma_mul_sound(
            c1,
            bits[24 + n - 1],
            crate::segment_compaction::lin_sum(hot, n),
            z,
        );
        lemma_violation_sound(c, bits, hot, (n - 1) as nat, k, z);
        lemma_hot_sum(hot, n, k, z);
        assert(bits[24 + n - 1].eval(z).is_bit());
        let all = violation_rows(c, bits, hot, n).1;
        assert forall|i: int| 0 <= i < n implies (#[trigger] all[i]).eval(z) == F128::of_bool(
            k <= i && bits[24 + i].eval(z) == F128::one(),
        ) by {
            if i < n - 1 {
                assert(all[i] == out[i]);
            }
        }
    }
}

/// An integer is zero exactly when all its digits are.
proof fn lemma_value_zero(bits: Seq<Lin>, z: Seq<F128>)
    requires
        all_bits(bits, z),
    ensures
        bits_value(bits, z) == 0 <==> forall|i: int|
            0 <= i < bits.len() ==> (#[trigger] bits[i]).eval(z) == F128::zero(),
    decreases bits.len(),
{
    reveal(all_bits);
    if bits.len() > 0 {
        let m = (bits.len() - 1) as nat;
        let low = bits.take(m as int);
        assert(bits =~= low.push(bits[m as int]));
        lemma_bits_value_push(low, bits[m as int], z);
        lemma_value_zero(low, z);
        lemma_pow2_pos(m);
        let p = pow2(m);
        assert(1 * p == p && 0 * p == 0) by (nonlinear_arith);
        assert(bits[m as int].eval(z).is_bit());
        if bits_value(bits, z) == 0 {
            assert forall|i: int| 0 <= i < bits.len() implies (#[trigger] bits[i]).eval(z)
                == F128::zero() by {
                if i < m {
                    assert(low[i].eval(z) == F128::zero());
                }
            }
        }
        if forall|i: int|
            0 <= i < bits.len() ==> (#[trigger] bits[i]).eval(z) == F128::zero() {
            assert forall|i: int| 0 <= i < low.len() implies (#[trigger] low[i]).eval(z)
                == F128::zero() by {
                assert(low[i] == bits[i]);
            }
            assert(bits[m as int].eval(z) == F128::zero());
        }
    }
}

proof fn lemma_violation_exact(
    bits: Seq<Lin>,
    v: Seq<Lin>,
    k: int,
    z: Seq<F128>,
)
    requires
        bits.len() == 32,
        v.len() == 8,
        0 <= k < 9,
        all_bits(bits, z),
        forall|i: int|
            0 <= i < 8 ==> (#[trigger] v[i]).eval(z) == F128::of_bool(
                k <= i && bits[24 + i].eval(z) == F128::one(),
            ),
    ensures
        weighted(v, 24).eval(z) == F128::zero() <==> bits_value(bits, z) < pow2((24 + k) as nat),
{
    reveal(all_bits);
    let d = (24 + k) as nat;
    let upper = bits.skip(d as int);
    assert forall|i: int| 0 <= i < upper.len() implies (#[trigger] upper[i]).eval(z).is_bit() by {
        assert(upper[i] == bits[i + d]);
    }
    lemma_value_zero(upper, z);
    lemma_value_zero(v, z);
    lemma_high_zero(bits, d, z);
    lemma_weighted(v, 24, z);
    lemma_pow2_pos(24);
    lemma_pow2_bound(32, 128);
    lemma_pow2_128();
    let p = pow2(24);
    let h = bits_value(v, z);
    assert(p * h == 0 <==> h == 0) by (nonlinear_arith)
        requires
            p > 0,
    ;
    if h == 0 {
        assert forall|i: int| 0 <= i < upper.len() implies (#[trigger] upper[i]).eval(z)
            == F128::zero() by {
            let q = i + k;
            assert(v[q].eval(z) == F128::zero());
            assert(upper[i] == bits[24 + q]);
            assert(bits[24 + q].eval(z).is_bit());
        }
    }
    if high_value(bits, d, z) == 0 {
        assert forall|i: int| 0 <= i < v.len() implies (#[trigger] v[i]).eval(z) == F128::zero() by {
            if k <= i {
                assert(upper[i - k] == bits[24 + i]);
                assert(upper[i - k].eval(z) == F128::zero());
            }
        }
    }
}

proof fn lemma_selected_high_prefix(
    c: Seq<Row>,
    bits: Seq<Seq<Lin>>,
    hot: Seq<Lin>,
    n: nat,
    z: Seq<F128>,
)
    requires
        sat(selected_high_rows(c, bits, hot, n), z),
    ensures
        sat(c, z),
    decreases n,
{
    if n > 0 {
        let c0 = selected_high_rows(c, bits, hot, (n - 1) as nat);
        let (c1, v) = violation_rows(c0, bits[n - 1], hot, 8);
        lemma_pin_sound(c1, weighted(v, 24), z);
        lemma_violation_prefix(c0, bits[n - 1], hot, 8, z);
        lemma_selected_high_prefix(c, bits, hot, (n - 1) as nat, z);
    }
}

pub proof fn lemma_selected_high_sound(
    c: Seq<Row>,
    bits: Seq<Seq<Lin>>,
    hot: Seq<Lin>,
    n: nat,
    k: int,
    z: Seq<F128>,
)
    requires
        n <= bits.len(),
        hot.len() == 9,
        0 <= k < 9,
        one_hot_at(hot, k, z),
        digits_hold(bits, z),
        sat(selected_high_rows(c, bits, hot, n), z),
    ensures
        sat(c, z),
        slots_fit(bits, (24 + k) as nat, n, z),
    decreases n,
{
    if n > 0 {
        let m = (n - 1) as nat;
        let c0 = selected_high_rows(c, bits, hot, m);
        let (c1, v) = violation_rows(c0, bits[n - 1], hot, 8);
        lemma_pin_sound(c1, weighted(v, 24), z);
        assert(bits[n - 1].len() == 32 && all_bits(bits[n - 1], z));
        lemma_violation_sound(c0, bits[n - 1], hot, 8, k, z);
        lemma_violation_exact(bits[n - 1], v, k, z);
        lemma_selected_high_sound(c, bits, hot, m, k, z);
        lemma_slots_fit_step(bits, (24 + k) as nat, m, z);
    }
}

/// The gated digits of one slot above the selected depth.
fn violations(b: &mut FieldR1csBuilder, bits: &Vec<Wire>, one_hot: &Vec<LinExpr>) -> (v: Vec<
    LinExpr,
>)
    requires
        old(b)@.wf(),
        bits@.len() == 32,
        one_hot@.len() == 9,
        all_below(wire_lins(bits@), old(b)@.rows.len()),
        all_below(lins(one_hot@), old(b)@.rows.len()),
    ensures
        v@.len() == 8,
        (final(b)@.rows, lins(v@)) == violation_rows(
            old(b)@.rows,
            wire_lins(bits@),
            lins(one_hot@),
            8,
        ),
        final(b)@.grows(old(b)@),
        final(b)@.honest() <==> old(b)@.honest(),
        all_below(lins(v@), final(b)@.rows.len()),
{
    let ghost bl = wire_lins(bits@);
    let ghost hot = lins(one_hot@);
    let mut v: Vec<LinExpr> = Vec::with_capacity(8);
    let mut forbidden = LinExpr::zero();
    let mut i: usize = 0;
    assert(lins(v@) =~= Seq::empty());
    while i < 8
        invariant
            i <= 8,
            bits@.len() == 32,
            one_hot@.len() == 9,
            bl == wire_lins(bits@),
            hot == lins(one_hot@),
            all_below(bl, old(b)@.rows.len()),
            all_below(hot, old(b)@.rows.len()),
            v@.len() == i,
            (b@.rows, lins(v@)) == violation_rows(old(b)@.rows, bl, hot, i as nat),
            b@.grows(old(b)@),
            b@.honest() <==> old(b)@.honest(),
            all_below(lins(v@), b@.rows.len()),
            forbidden@ == crate::segment_compaction::lin_sum(hot, i as nat),
            forbidden@.below(old(b)@.rows.len()),
        decreases 8 - i,
    {
        let ghost before = b@;
        let ghost prior = v@;
        assert(hot[i as int].below(old(b)@.rows.len()));
        assert(bl[24 + i].below(old(b)@.rows.len()));
        forbidden.add_assign(&one_hot[i]);
        let bit = LinExpr::from_wire(bits[MIN_EXACT_STATE_DEPTH + i]);
        let here = crate::circuit::mul(b, &bit, &forbidden);
        v.push(here);
        proof {
            assert(lins(v@) =~= lins(prior).push(here@));
            lemma_bits_stable(before, b@, lins(prior));
            assert forall|j: int| 0 <= j < lins(v@).len() implies (#[trigger] lins(v@)[j]).below(
                b@.rows.len(),
            ) by {
                if j < prior.len() {
                    assert(lins(prior)[j].below(b@.rows.len()));
                }
            }
        }
        i += 1;
    }
    v
}

/// Binds every slot to a tree of selected depth.
fn pin_selected_high(
    b: &mut FieldR1csBuilder,
    slot_bits: &Vec<Vec<Wire>>,
    one_hot: &Vec<LinExpr>,
)
    requires
        old(b)@.wf(),
        one_hot@.len() == 9,
        rows_shaped(wire_rows(slot_bits@), 32, old(b)@.rows.len()),
        all_below(lins(one_hot@), old(b)@.rows.len()),
    ensures
        final(b)@.rows == selected_high_rows(
            old(b)@.rows,
            wire_rows(slot_bits@),
            lins(one_hot@),
            slot_bits@.len(),
        ),
        final(b)@.grows(old(b)@),
        forall|k: int|
            #![trigger one_hot_at(lins(one_hot@), k, old(b)@.values)]
            digits_hold(wire_rows(slot_bits@), old(b)@.values) && 0 <= k < 9 && one_hot_at(
                lins(one_hot@),
                k,
                old(b)@.values,
            ) ==> (final(b)@.honest() <==> old(b)@.honest() && slots_fit(
                wire_rows(slot_bits@),
                (24 + k) as nat,
                slot_bits@.len(),
                old(b)@.values,
            )),
{
    let ghost bl = wire_rows(slot_bits@);
    let ghost hot = lins(one_hot@);
    let ghost z0 = old(b)@.values;
    let ghost n0 = old(b)@.rows.len();
    let ghost k: int = if exists|j: int| 0 <= j < 9 && #[trigger] one_hot_at(hot, j, z0) {
        choose|j: int| 0 <= j < 9 && #[trigger] one_hot_at(hot, j, z0)
    } else {
        -1
    };
    let ghost d = (24 + k) as nat;
    let ghost sure = digits_hold(bl, z0) && 0 <= k < 9 && one_hot_at(hot, k, z0);
    let mut i: usize = 0;
    while i < slot_bits.len()
        invariant
            i <= slot_bits@.len(),
            one_hot@.len() == 9,
            d == (24 + k) as nat,
            bl == wire_rows(slot_bits@),
            hot == lins(one_hot@),
            z0 == old(b)@.values,
            n0 == old(b)@.rows.len(),
            sure == (digits_hold(bl, z0) && 0 <= k < 9 && one_hot_at(hot, k, z0)),
            rows_shaped(bl, 32, n0),
            all_below(hot, n0),
            b@.rows == selected_high_rows(old(b)@.rows, bl, hot, i as nat),
            b@.grows(old(b)@),
            sure ==> (b@.honest() <==> old(b)@.honest() && slots_fit(bl, d, i as nat, z0)),
        decreases slot_bits@.len() - i,
    {
        let ghost start = b@;
        proof {
            assert(bl[i as int] == wire_lins(slot_bits@[i as int]@));
            assert(bl[i as int].len() == 32 && all_below(bl[i as int], n0));
            lemma_bits_stable(old(b)@, start, bl[i as int]);
            lemma_bits_stable(old(b)@, start, hot);
        }
        let v = violations(b, &slot_bits[i], one_hot);
        let ghost mid = b@;
        proof {
            lemma_weighted_below(lins(v@), 24, mid.rows.len());
        }
        let packed = weighted_sum(&v, MIN_EXACT_STATE_DEPTH);
        pin_zero(b, &packed);
        proof {
            lemma_slots_fit_step(bl, d, i as nat, z0);
            if sure {
                if start.honest() {
                    assert(all_bits(bl[i as int], z0));
                    lemma_bits_stable(old(b)@, mid, bl[i as int]);
                    assert(one_hot_at(hot, k, mid.values)) by {
                        assert forall|j: int| 0 <= j < hot.len() implies (#[trigger] hot[j]).eval(
                            mid.values,
                        ) == F128::of_bool(j == k) by {
                            assert(hot[j].below(n0));
                            assert(hot[j].eval(z0) == F128::of_bool(j == k));
                        }
                    }
                    lemma_violation_sound(
                        start.rows,
                        bl[i as int],
                        hot,
                        8,
                        k,
                        mid.values,
                    );
                    lemma_violation_exact(bl[i as int], lins(v@), k, mid.values);
                } else if b@.honest() {
                    lemma_grows_honest(start, b@);
                }
                assert(b@.honest() <==> start.honest() && slot_fits(bl, d, i as int, z0));
            }
        }
        i += 1;
    }
    proof {
        assert forall|j: int|
            #![trigger one_hot_at(hot, j, z0)]
            digits_hold(bl, z0) && 0 <= j < 9 && one_hot_at(hot, j, z0) implies (b@.honest()
            <==> old(b)@.honest() && slots_fit(bl, (24 + j) as nat, slot_bits@.len(), z0)) by {
            assert(hot[j].eval(z0) == F128::of_bool(true));
            assert(hot[j].eval(z0) == F128::of_bool(j == k));
        }
    }
}

// ---------------------------------------------------------------------------
// The bindings
// ---------------------------------------------------------------------------

/// The rows that bind a sibling count at fixed depth.
pub open spec fn fixed_count_rows(
    c: Seq<Row>,
    acts: Seq<Seq<Lin>>,
    bits: Seq<Seq<Lin>>,
    highest: Seq<Seq<Lin>>,
    depth: nat,
    claimed: Lin,
) -> Seq<Row> {
    let c1 = fixed_high_rows(c, bits, depth, bits.len());
    count_rows(c1, acts, highest, const_digits(depth + 1), claimed)
}

/// The rows that bind a sibling count at selected depth.
pub open spec fn selected_count_rows(
    c: Seq<Row>,
    acts: Seq<Seq<Lin>>,
    bits: Seq<Seq<Lin>>,
    highest: Seq<Seq<Lin>>,
    hot: Seq<Lin>,
    claimed: Lin,
) -> Seq<Row> {
    let c1 = selected_high_rows(c, bits, hot, bits.len());
    count_rows(c1, acts, highest, depth_digits(hot, 1), claimed)
}

/// Under every satisfying assignment all slots lie in the tree and the claimed
/// count satisfies the multiproof equation at the fixed depth.
pub proof fn lemma_fixed_count_sound(
    c: Seq<Row>,
    acts: Seq<Seq<Lin>>,
    bits: Seq<Seq<Lin>>,
    highest: Seq<Seq<Lin>>,
    both: Seq<Lin>,
    depth: nat,
    claimed: Lin,
    z: Seq<F128>,
)
    requires
        depth <= 32,
        sorted_actions(acts, bits, highest, both, z),
        sat(fixed_count_rows(c, acts, bits, highest, depth, claimed), z),
    ensures
        sat(c, z),
        slots_fit(bits, depth, bits.len(), z),
        count_holds(acts, bits, depth + 1, claimed, z),
{
    let c1 = fixed_high_rows(c, bits, depth, bits.len());
    lemma_const_digits(depth + 1, z);
    lemma_count_sound(c1, acts, bits, highest, both, const_digits(depth + 1), claimed, z);
    lemma_fixed_high_sound(c, bits, depth, bits.len(), z);
}

/// Under every satisfying assignment all slots lie in the tree and the claimed
/// count satisfies the multiproof equation at the selected depth.
pub proof fn lemma_selected_count_sound(
    c: Seq<Row>,
    acts: Seq<Seq<Lin>>,
    bits: Seq<Seq<Lin>>,
    highest: Seq<Seq<Lin>>,
    both: Seq<Lin>,
    hot: Seq<Lin>,
    k: int,
    claimed: Lin,
    z: Seq<F128>,
)
    requires
        hot.len() == 9,
        0 <= k < 9,
        one_hot_at(hot, k, z),
        sorted_actions(acts, bits, highest, both, z),
        sat(selected_count_rows(c, acts, bits, highest, hot, claimed), z),
    ensures
        sat(c, z),
        slots_fit(bits, (24 + k) as nat, bits.len(), z),
        count_holds(acts, bits, (25 + k) as nat, claimed, z),
{
    let c1 = selected_high_rows(c, bits, hot, bits.len());
    lemma_depth_digits(hot, 1, k, z);
    lemma_count_sound(c1, acts, bits, highest, both, depth_digits(hot, 1), claimed, z);
    assert(digits_hold(bits, z));
    lemma_selected_high_sound(c, bits, hot, bits.len(), k, z);
}

/// Binds a claimed sibling count to sorted actions in a tree of fixed depth.
///
/// See [`lemma_fixed_count_sound`] for what the constraints bind.
pub fn bind_structural_frontier_count_from_actions(
    b: &mut FieldR1csBuilder,
    actions: &Vec<ActionRowTrace>,
    slot_bits: &Vec<Vec<Wire>>,
    adjacent_msb_one_hot: &Vec<Vec<LinExpr>>,
    active_depth: usize,
    claimed_frontier_count: &LinExpr,
)
    requires
        old(b)@.wf(),
        actions@.len() > 0,
        slot_bits@.len() == actions@.len(),
        adjacent_msb_one_hot@.len() == actions@.len() - 1,
        active_depth <= 32,
        rows_shaped(action_rows(actions@), 6, old(b)@.rows.len()),
        rows_shaped(wire_rows(slot_bits@), 32, old(b)@.rows.len()),
        rows_shaped(lane_rows(adjacent_msb_one_hot@), 32, old(b)@.rows.len()),
        claimed_frontier_count@.below(old(b)@.rows.len()),
    ensures
        final(b)@.rows == fixed_count_rows(
            old(b)@.rows,
            action_rows(actions@),
            wire_rows(slot_bits@),
            lane_rows(adjacent_msb_one_hot@),
            active_depth as nat,
            claimed_frontier_count@,
        ),
        final(b)@.grows(old(b)@),
        forall|both: Seq<Lin>| #[trigger]
            sorted_actions(
                action_rows(actions@),
                wire_rows(slot_bits@),
                lane_rows(adjacent_msb_one_hot@),
                both,
                final(b)@.values,
            ) ==> (final(b)@.honest() <==> {
                let z = final(b)@.values;
                &&& old(b)@.honest()
                &&& slots_fit(wire_rows(slot_bits@), active_depth as nat, actions@.len(), z)
                &&& count_holds(
                    action_rows(actions@),
                    wire_rows(slot_bits@),
                    (active_depth + 1) as nat,
                    claimed_frontier_count@,
                    z,
                )
            }),
{
    let ghost b0 = b@;
    let ghost acts = action_rows(actions@);
    let ghost bl = wire_rows(slot_bits@);
    let ghost hl = lane_rows(adjacent_msb_one_hot@);
    let ghost d = active_depth as nat;
    pin_fixed_high(b, slot_bits, active_depth);
    let ghost b1 = b@;
    let target = constant_unsigned_bits(active_depth + 1);
    proof {
        lemma_rows_stable(b0, b1, acts, 6);
        lemma_rows_stable(b0, b1, hl, 32);
        assert(all_below(lins(target@), b1.rows.len()));
    }
    bind_count(b, actions, adjacent_msb_one_hot, &target, claimed_frontier_count);
    proof {
        let z = b@.values;
        assert forall|both: Seq<Lin>| #[trigger]
            sorted_actions(acts, bl, hl, both, z) implies (b@.honest() <==> {
            &&& b0.honest()
            &&& slots_fit(bl, d, acts.len(), z)
            &&& count_holds(acts, bl, d + 1, claimed_frontier_count@, z)
        }) by {
            lemma_const_digits(d + 1, z);
            assert(digits_hold(bl, z));
            lemma_digits_hold_stable(b0, b@, bl);
            assert(slots_fit(bl, d, bl.len(), z) == slots_fit(bl, d, bl.len(), b0.values)) by {
                assert forall|i: int| 0 <= i < bl.len() implies #[trigger] slot_fits(bl, d, i, z)
                    == slot_fits(bl, d, i, b0.values) by {
                    let _ = bl[i];
                }
                assert forall|i: int| 0 <= i < bl.len() implies #[trigger] slot_fits(
                    bl,
                    d,
                    i,
                    b0.values,
                ) == slot_fits(bl, d, i, z) by {}
            }
        }
    }
}

/// Binds a claimed sibling count to sorted actions in a tree of selected depth.
///
/// See [`lemma_selected_count_sound`] for what the constraints bind.
pub fn bind_structural_frontier_count_from_actions_dynamic(
    b: &mut FieldR1csBuilder,
    actions: &Vec<ActionRowTrace>,
    slot_bits: &Vec<Vec<Wire>>,
    adjacent_msb_one_hot: &Vec<Vec<LinExpr>>,
    depth: &StateDepthTrace,
    claimed_frontier_count: &LinExpr,
)
    requires
        old(b)@.wf(),
        actions@.len() > 0,
        slot_bits@.len() == actions@.len(),
        adjacent_msb_one_hot@.len() == actions@.len() - 1,
        depth.one_hot@.len() == 9,
        rows_shaped(action_rows(actions@), 6, old(b)@.rows.len()),
        rows_shaped(wire_rows(slot_bits@), 32, old(b)@.rows.len()),
        rows_shaped(lane_rows(adjacent_msb_one_hot@), 32, old(b)@.rows.len()),
        all_below(lins(depth.one_hot@), old(b)@.rows.len()),
        claimed_frontier_count@.below(old(b)@.rows.len()),
    ensures
        final(b)@.rows == selected_count_rows(
            old(b)@.rows,
            action_rows(actions@),
            wire_rows(slot_bits@),
            lane_rows(adjacent_msb_one_hot@),
            lins(depth.one_hot@),
            claimed_frontier_count@,
        ),
        final(b)@.grows(old(b)@),
        forall|both: Seq<Lin>, k: int|
            #![trigger sorted_actions(
                action_rows(actions@),
                wire_rows(slot_bits@),
                lane_rows(adjacent_msb_one_hot@),
                both,
                final(b)@.values,
            ), one_hot_at(lins(depth.one_hot@), k, final(b)@.values)]
            0 <= k < 9 && one_hot_at(lins(depth.one_hot@), k, final(b)@.values)
                && sorted_actions(
                action_rows(actions@),
                wire_rows(slot_bits@),
                lane_rows(adjacent_msb_one_hot@),
                both,
                final(b)@.values,
            ) ==> (final(b)@.honest() <==> {
                let z = final(b)@.values;
                &&& old(b)@.honest()
                &&& slots_fit(wire_rows(slot_bits@), (24 + k) as nat, actions@.len(), z)
                &&& count_holds(
                    action_rows(actions@),
                    wire_rows(slot_bits@),
                    (25 + k) as nat,
                    claimed_frontier_count@,
                    z,
                )
            }),
{
    let ghost b0 = b@;
    let ghost acts = action_rows(actions@);
    let ghost bl = wire_rows(slot_bits@);
    let ghost hl = lane_rows(adjacent_msb_one_hot@);
    let ghost hot = lins(depth.one_hot@);
    pin_selected_high(b, slot_bits, &depth.one_hot);
    let ghost b1 = b@;
    let target = depth.selected_unsigned_bits(1);
    proof {
        lemma_rows_stable(b0, b1, acts, 6);
        lemma_rows_stable(b0, b1, hl, 32);
        lemma_bits_stable(b0, b1, hot);
        let t = lins(target@);
        assert forall|i: int| 0 <= i < t.len() implies (#[trigger] t[i]).below(b1.rows.len()) by {
            lemma_picked_below(hot, 25, i as nat, 9, b1.rows.len());
        }
    }
    bind_count(b, actions, adjacent_msb_one_hot, &target, claimed_frontier_count);
    proof {
        let z = b@.values;
        assert forall|both: Seq<Lin>, k: int|
            #![trigger sorted_actions(acts, bl, hl, both, z), one_hot_at(hot, k, z)]
            0 <= k < 9 && one_hot_at(hot, k, z) && sorted_actions(
                acts,
                bl,
                hl,
                both,
                z,
            ) implies (b@.honest() <==> {
            &&& b0.honest()
            &&& slots_fit(bl, (24 + k) as nat, acts.len(), z)
            &&& count_holds(acts, bl, (25 + k) as nat, claimed_frontier_count@, z)
        }) by {
            let d = (24 + k) as nat;
            lemma_depth_digits(hot, 1, k, z);
            assert(digits_hold(bl, z));
            lemma_digits_hold_stable(b0, b@, bl);
            assert(one_hot_at(hot, k, b0.values)) by {
                assert forall|i: int| 0 <= i < hot.len() implies (#[trigger] hot[i]).eval(
                    b0.values,
                ) == F128::of_bool(i == k) by {
                    assert(hot[i].below(b0.rows.len()));
                    assert(hot[i].eval(z) == F128::of_bool(i == k));
                }
            }
            assert(slots_fit(bl, d, bl.len(), z) == slots_fit(bl, d, bl.len(), b0.values)) by {
                assert forall|i: int| 0 <= i < bl.len() implies #[trigger] slot_fits(bl, d, i, z)
                    == slot_fits(bl, d, i, b0.values) by {
                    let _ = bl[i];
                }
                assert forall|i: int| 0 <= i < bl.len() implies #[trigger] slot_fits(
                    bl,
                    d,
                    i,
                    b0.values,
                ) == slot_fits(bl, d, i, z) by {}
            }
        }
    }
}

} // verus!
