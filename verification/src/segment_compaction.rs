//! Fixed-shape compaction of local exact-state updates into segment updates.
//!
//! Slots in order fall into segments of `2^16`. Inside a segment the local
//! roots chain from one action to the next; the segment hands on the first
//! root before and the last root after. One network routes these tuples to a
//! live prefix in ascending segment order. Liveness and segment id travel in
//! one key of 17 digits.

use vstd::prelude::*;
use vstd::arithmetic::power2::pow2;
use crate::action_compaction::{
    ascends, dead_rows, decompose_keys, digits_shaped, follows, in_order, key_rows, keyed,
    lemma_dead_sound, lemma_digits_stable, lemma_in_order, lemma_key_sound, lemma_order_prefix,
    lemma_order_sound, lemma_prefix_sound, live_follows, order_rows, orderable, pair_bound,
    pin_dead_suffix, pin_key_order, pin_live_prefix, prefix_rows, slots_ascend, wire_rows,
};
use crate::action_surface::{action_rows, ActionRowTrace};
use crate::bits::{
    all_bits, bits_value, bools, high_equal, high_value, is_msb, lemma_bits_nat_bound,
    lemma_bits_stable, lemma_high_equal, lemma_of_nat_top, lemma_top_digit, lemma_value_split,
    lemma_weighted_below, lemma_weighted_value, weight, weighted, weighted_sum, wire_exprs,
    wire_lins,
};
use crate::circuit::{
    all_below, gate_rows, group_circuit, lemma_gate_sound, lemma_grows_honest, lemma_mul_sound,
    lemma_pin_sound, lins, mul_rows, pin_eq, pin_product, pin_rows, sat, Circuit, FieldR1csBuilder,
    Lin, LinExpr, Row, Wire,
};
use crate::field::{lemma_plus_comm, lemma_plus_is_zero, F128};
use crate::permutation_network::{
    invert, inverses, lane_rows, lemma_inverse_permutation, lemma_network_len,
    lemma_network_permutes, lemma_rows_stable, log2, network_rows, route_permutation_network,
    row_eval, rows_eval, rows_shaped, rows_wide,
};
use crate::sorting::{
    count_live, lemma_count_mapped, lemma_count_same, lemma_next_pow2, next_pow2, next_power_of_two,
    sort_live_first,
};

verus! {

broadcast use group_circuit;

/// Digits of a slot below its segment id.
pub const LOCAL_BITS: usize = 16;

/// Digits of a segment id.
pub const SEGMENT_BITS: usize = 16;

/// Digits of a routing key: the segment id and liveness above it.
pub const SEGMENT_KEY_BITS: usize = 17;

/// A digest as two lanes.
pub open spec fn pair(p: [LinExpr; 2]) -> Seq<Lin> {
    seq![p@[0]@, p@[1]@]
}

pub open spec fn pairs(ps: Seq<[LinExpr; 2]>) -> Seq<Seq<Lin>> {
    Seq::new(ps.len(), |i: int| pair(ps[i]))
}

/// The sum of the first `n` expressions.
pub open spec fn lin_sum(s: Seq<Lin>, n: nat) -> Lin
    decreases n,
{
    if n == 0 {
        Lin::zero()
    } else {
        lin_sum(s, (n - 1) as nat).plus(s[n - 1])
    }
}

// ---------------------------------------------------------------------------
// Segments of sorted actions
// ---------------------------------------------------------------------------

/// Actions in slot order, with their slot digits and adjacent differences, as
/// a compaction hands them on.
pub open spec fn sorted_actions(
    acts: Seq<Seq<Lin>>,
    bits: Seq<Seq<Lin>>,
    highest: Seq<Seq<Lin>>,
    both: Seq<Lin>,
    z: Seq<F128>,
) -> bool {
    &&& acts.len() > 0
    &&& bits.len() == acts.len()
    &&& highest.len() == acts.len() - 1
    &&& both.len() == acts.len() - 1
    &&& forall|i: int| 0 <= i < acts.len() ==> (#[trigger] acts[i])[0].eval(z).is_bit()
    &&& forall|i: int|
        0 <= i < acts.len() ==> (#[trigger] bits[i]).len() == 32 && all_bits(bits[i], z)
    &&& forall|i: int| 0 <= i < acts.len() - 1 ==> #[trigger] follows(acts, i, z)
    &&& forall|i: int|
        0 <= i < acts.len() - 1 ==> #[trigger] pair_bound(acts, bits, highest, both, i, z)
}

/// The segment of action `i`: its slot without the low 16 digits.
pub open spec fn segment(bits: Seq<Seq<Lin>>, i: int, z: Seq<F128>) -> nat {
    high_value(bits[i], 16, z)
}

/// Action `i` and the next one are live and in the same segment.
pub open spec fn same(acts: Seq<Seq<Lin>>, bits: Seq<Seq<Lin>>, i: int, z: Seq<F128>) -> bool {
    &&& 0 <= i < acts.len() - 1
    &&& acts[i][0].eval(z) == F128::one()
    &&& acts[i + 1][0].eval(z) == F128::one()
    &&& segment(bits, i, z) == segment(bits, i + 1, z)
}

/// The first action of the run of equal segments that reaches action `i`.
pub open spec fn first_of(
    acts: Seq<Seq<Lin>>,
    bits: Seq<Seq<Lin>>,
    i: int,
    z: Seq<F128>,
) -> int
    decreases i,
{
    if i <= 0 || !same(acts, bits, i - 1, z) {
        i
    } else {
        first_of(acts, bits, i - 1, z)
    }
}

/// Action `i` is the last one of its segment.
pub open spec fn is_last(acts: Seq<Seq<Lin>>, bits: Seq<Seq<Lin>>, i: int, z: Seq<F128>) -> bool {
    acts[i][0].eval(z) == F128::one() && !same(acts, bits, i, z)
}

/// What action `i` hands to the network: the key, the first root before and
/// the last root after of its segment, or zeros.
pub open spec fn segment_tuple(
    acts: Seq<Seq<Lin>>,
    bits: Seq<Seq<Lin>>,
    before: Seq<Seq<Lin>>,
    after: Seq<Seq<Lin>>,
    i: int,
    z: Seq<F128>,
) -> Seq<F128> {
    if is_last(acts, bits, i, z) {
        let f = first_of(acts, bits, i, z);
        seq![
            F128::of_nat(segment(bits, i, z) + pow2(16)),
            before[f][0].eval(z),
            before[f][1].eval(z),
            after[i][0].eval(z),
            after[i][1].eval(z),
        ]
    } else {
        seq![F128::zero(), F128::zero(), F128::zero(), F128::zero(), F128::zero()]
    }
}

/// The roots inside every segment chain.
pub open spec fn local_chain(
    acts: Seq<Seq<Lin>>,
    bits: Seq<Seq<Lin>>,
    before: Seq<Seq<Lin>>,
    after: Seq<Seq<Lin>>,
    n: nat,
    z: Seq<F128>,
) -> bool {
    forall|i: int|
        #![trigger after[i]]
        0 <= i < n && same(acts, bits, i, z) ==> after[i][0].eval(z) == before[i + 1][0].eval(z)
            && after[i][1].eval(z) == before[i + 1][1].eval(z)
}

// ---------------------------------------------------------------------------
// Same-segment selectors
// ---------------------------------------------------------------------------

/// The selectors of the first `n` adjacent pairs that share a segment.
pub open spec fn same_rows(c: Seq<Row>, highest: Seq<Seq<Lin>>, both: Seq<Lin>, n: nat) -> (
    Seq<Row>,
    Seq<Lin>,
)
    decreases n,
{
    if n == 0 {
        (c, Seq::empty())
    } else {
        let (c1, sel) = same_rows(c, highest, both, (n - 1) as nat);
        let (c2, here) = mul_rows(c1, both[n - 1], lin_sum(highest[n - 1], 16));
        (c2, sel.push(here))
    }
}

/// Of the digits below `n`, the highest difference is one exactly when the
/// digits from `n` on agree and the integers differ.
proof fn lemma_msb_sum(
    l: Seq<Lin>,
    r: Seq<Lin>,
    high: Seq<Lin>,
    n: nat,
    z: Seq<F128>,
)
    requires
        l.len() == r.len(),
        high.len() == l.len(),
        n <= l.len(),
        forall|j: int|
            0 <= j < l.len() ==> (#[trigger] high[j]).eval(z) == F128::of_bool(
                is_msb(l, r, j as nat, z),
            ),
    ensures
        lin_sum(high, n).eval(z) == F128::of_bool(
            high_equal(l, r, n, z) && !high_equal(l, r, 0, z),
        ),
    decreases n,
{
    if n > 0 {
        let m = (n - 1) as nat;
        lemma_msb_sum(l, r, high, m, z);
        assert(high[m as int].eval(z) == F128::of_bool(is_msb(l, r, m, z)));
        assert(high_equal(l, r, m, z) <==> high_equal(l, r, n, z) && l[m as int].eval(z)
            == r[m as int].eval(z));
        assert(high_equal(l, r, 0, z) ==> l[m as int].eval(z) == r[m as int].eval(z));
    }
}

proof fn lemma_same_sound(
    c: Seq<Row>,
    acts: Seq<Seq<Lin>>,
    bits: Seq<Seq<Lin>>,
    highest: Seq<Seq<Lin>>,
    both: Seq<Lin>,
    n: nat,
    z: Seq<F128>,
)
    requires
        n <= acts.len() - 1,
        sorted_actions(acts, bits, highest, both, z),
        sat(same_rows(c, highest, both, n).0, z),
    ensures
        sat(c, z),
        same_rows(c, highest, both, n).1.len() == n,
        forall|i: int|
            0 <= i < n ==> (#[trigger] same_rows(c, highest, both, n).1[i]).eval(z)
                == F128::of_bool(same(acts, bits, i, z)),
    decreases n,
{
    if n > 0 {
        let m = n - 1;
        let (c1, sel) = same_rows(c, highest, both, m as nat);
        lemma_mul_sound(c1, both[m], lin_sum(highest[m], 16), z);
        lemma_same_sound(c, acts, bits, highest, both, m as nat, z);
        assert(pair_bound(acts, bits, highest, both, m, z));
        assert(bits[m].len() == 32 && bits[m + 1].len() == 32);
        lemma_msb_sum(bits[m], bits[m + 1], highest[m], 16, z);
        lemma_high_equal(bits[m], bits[m + 1], 16, z);
        lemma_high_equal(bits[m], bits[m + 1], 0, z);
        assert(bits[m].skip(0) =~= bits[m]);
        assert(bits[m + 1].skip(0) =~= bits[m + 1]);
        assert(acts[m][0].eval(z).is_bit() && acts[m + 1][0].eval(z).is_bit());
        let all = same_rows(c, highest, both, n).1;
        assert forall|i: int| 0 <= i < n implies (#[trigger] all[i]).eval(z) == F128::of_bool(
            same(acts, bits, i, z),
        ) by {
            if i < m {
                assert(all[i] == sel[i]);
            }
        }
    }
}

/// The continuity checks of the first `n` adjacent pairs.
pub open spec fn chain_rows(
    c: Seq<Row>,
    sel: Seq<Lin>,
    before: Seq<Seq<Lin>>,
    after: Seq<Seq<Lin>>,
    n: nat,
) -> Seq<Row>
    decreases n,
{
    if n == 0 {
        c
    } else {
        let i = n - 1;
        let c1 = chain_rows(c, sel, before, after, i as nat);
        let c2 = gate_rows(c1, sel[i], after[i][0].plus(before[i + 1][0]));
        gate_rows(c2, sel[i], after[i][1].plus(before[i + 1][1]))
    }
}

proof fn lemma_chain_sound(
    c: Seq<Row>,
    acts: Seq<Seq<Lin>>,
    bits: Seq<Seq<Lin>>,
    sel: Seq<Lin>,
    before: Seq<Seq<Lin>>,
    after: Seq<Seq<Lin>>,
    n: nat,
    z: Seq<F128>,
)
    requires
        sat(chain_rows(c, sel, before, after, n), z),
    ensures
        sat(c, z),
        (forall|i: int|
            0 <= i < n ==> (#[trigger] sel[i]).eval(z) == F128::of_bool(same(acts, bits, i, z)))
            ==> local_chain(acts, bits, before, after, n, z),
    decreases n,
{
    broadcast use lemma_plus_is_zero;

    if n > 0 {
        let i = n - 1;
        let c1 = chain_rows(c, sel, before, after, i as nat);
        let c2 = gate_rows(c1, sel[i], after[i][0].plus(before[i + 1][0]));
        lemma_gate_sound(c2, sel[i], after[i][1].plus(before[i + 1][1]), z);
        lemma_gate_sound(c1, sel[i], after[i][0].plus(before[i + 1][0]), z);
        lemma_chain_sound(c, acts, bits, sel, before, after, i as nat, z);
        if forall|j: int|
            0 <= j < n ==> (#[trigger] sel[j]).eval(z) == F128::of_bool(
                same(acts, bits, j, z),
            ) {
            assert(sel[i].eval(z) == F128::of_bool(same(acts, bits, i, z)));
            assert forall|j: int|
                #![trigger after[j]]
                0 <= j < n && same(acts, bits, j, z) implies after[j][0].eval(z) == before[j
                + 1][0].eval(z) && after[j][1].eval(z) == before[j + 1][1].eval(z) by {
                if j < i {
                    let _ = after[j];
                }
            }
        }
    }
}

// ---------------------------------------------------------------------------
// Segment tuples
// ---------------------------------------------------------------------------

/// One tuple: the rows, the carried first root, and the routed lanes.
pub open spec fn tuple_rows(
    c: Seq<Row>,
    act: Seq<Lin>,
    slot_bits: Seq<Lin>,
    next_same: Lin,
    first: Seq<Lin>,
    after: Seq<Lin>,
) -> (Seq<Row>, Seq<Lin>) {
    let (c1, last) = mul_rows(c, act[0], next_same.plus_const(F128::one()));
    let (c2, id) = mul_rows(c1, last, weighted(slot_bits.skip(16), 0));
    let (c3, b0) = mul_rows(c2, last, first[0]);
    let (c4, b1) = mul_rows(c3, last, first[1]);
    let (c5, a0) = mul_rows(c4, last, after[0]);
    let (c6, a1) = mul_rows(c5, last, after[1]);
    (c6, seq![id.plus(last.scale(F128::of_nat(pow2(16)))), b0, b1, a0, a1])
}

/// The first root before, carried over a same-segment boundary.
pub open spec fn carry_rows(c: Seq<Row>, sel: Lin, first: Seq<Lin>, before: Seq<Lin>) -> (
    Seq<Row>,
    Seq<Lin>,
) {
    let (c1, t0) = mul_rows(c, sel, first[0].plus(before[0]));
    let (c2, t1) = mul_rows(c1, sel, first[1].plus(before[1]));
    (c2, seq![before[0].plus(t0), before[1].plus(t1)])
}

/// The tuples of the first `n` actions.
pub open spec fn tuples_rows(
    c: Seq<Row>,
    acts: Seq<Seq<Lin>>,
    bits: Seq<Seq<Lin>>,
    sel: Seq<Lin>,
    before: Seq<Seq<Lin>>,
    after: Seq<Seq<Lin>>,
    n: nat,
) -> (Seq<Row>, Seq<Lin>, Seq<Seq<Lin>>)
    decreases n,
{
    if n == 0 {
        (c, before[0], Seq::empty())
    } else {
        let i = n - 1;
        let (c1, carried, tuples) = tuples_rows(c, acts, bits, sel, before, after, i as nat);
        let (c2, first) = if i > 0 {
            carry_rows(c1, sel[i - 1], carried, before[i])
        } else {
            (c1, carried)
        };
        let next_same = if i < sel.len() {
            sel[i]
        } else {
            Lin::zero()
        };
        let (c3, tuple) = tuple_rows(c2, acts[i], bits[i], next_same, first, after[i]);
        (c3, first, tuples.push(tuple))
    }
}

proof fn lemma_mux_keep(s: F128, x: F128, y: F128)
    requires
        s.is_bit(),
    ensures
        y.plus(s.times(x.plus(y))) == if s == F128::one() {
            x
        } else {
            y
        },
{
    broadcast use lemma_plus_is_zero;

    lemma_plus_comm(x, y);
}

proof fn lemma_tuple_sound(
    c: Seq<Row>,
    act: Seq<Lin>,
    slot_bits: Seq<Lin>,
    next_same: Lin,
    first: Seq<Lin>,
    after: Seq<Lin>,
    z: Seq<F128>,
)
    requires
        act[0].eval(z).is_bit(),
        next_same.eval(z).is_bit(),
        slot_bits.len() == 32,
        all_bits(slot_bits, z),
        sat(tuple_rows(c, act, slot_bits, next_same, first, after).0, z),
    ensures
        sat(c, z),
        ({
            let last = act[0].eval(z) == F128::one() && next_same.eval(z) == F128::zero();
            let t = tuple_rows(c, act, slot_bits, next_same, first, after).1;
            row_eval(t, z) == if last {
                seq![
                    F128::of_nat(high_value(slot_bits, 16, z) + pow2(16)),
                    first[0].eval(z),
                    first[1].eval(z),
                    after[0].eval(z),
                    after[1].eval(z),
                ]
            } else {
                seq![F128::zero(), F128::zero(), F128::zero(), F128::zero(), F128::zero()]
            }
        }),
{
    let id_expr = weighted(slot_bits.skip(16), 0);
    let (c1, last) = mul_rows(c, act[0], next_same.plus_const(F128::one()));
    let (c2, id) = mul_rows(c1, last, id_expr);
    let (c3, b0) = mul_rows(c2, last, first[0]);
    let (c4, b1) = mul_rows(c3, last, first[1]);
    let (c5, a0) = mul_rows(c4, last, after[0]);
    let (c6, a1) = mul_rows(c5, last, after[1]);
    lemma_mul_sound(c5, last, after[1], z);
    lemma_mul_sound(c4, last, after[0], z);
    lemma_mul_sound(c3, last, first[1], z);
    lemma_mul_sound(c2, last, first[0], z);
    lemma_mul_sound(c1, last, id_expr, z);
    lemma_mul_sound(c, act[0], next_same.plus_const(F128::one()), z);
    reveal(all_bits);
    let upper = slot_bits.skip(16);
    assert forall|i: int| 0 <= i < upper.len() implies (#[trigger] upper[i]).eval(z).is_bit() by {
        assert(upper[i] == slot_bits[i + 16]);
    }
    lemma_weighted_value(upper, z);
    lemma_of_nat_top(high_value(slot_bits, 16, z), 16);
    let t = tuple_rows(c, act, slot_bits, next_same, first, after).1;
    let on = act[0].eval(z) == F128::one() && next_same.eval(z) == F128::zero();
    assert(last.eval(z) == F128::of_bool(on));
    let want = if on {
        seq![
            F128::of_nat(high_value(slot_bits, 16, z) + pow2(16)),
            first[0].eval(z),
            first[1].eval(z),
            after[0].eval(z),
            after[1].eval(z),
        ]
    } else {
        seq![F128::zero(), F128::zero(), F128::zero(), F128::zero(), F128::zero()]
    };
    assert(row_eval(t, z) =~= want);
}

proof fn lemma_tuples_sound(
    c: Seq<Row>,
    acts: Seq<Seq<Lin>>,
    bits: Seq<Seq<Lin>>,
    sel: Seq<Lin>,
    before: Seq<Seq<Lin>>,
    after: Seq<Seq<Lin>>,
    n: nat,
    z: Seq<F128>,
)
    requires
        n <= acts.len(),
        sel.len() == acts.len() - 1,
        bits.len() == acts.len(),
        forall|i: int| 0 <= i < acts.len() ==> (#[trigger] acts[i])[0].eval(z).is_bit(),
        forall|i: int|
            0 <= i < acts.len() ==> (#[trigger] bits[i]).len() == 32 && all_bits(bits[i], z),
        forall|i: int|
            0 <= i < sel.len() ==> (#[trigger] sel[i]).eval(z) == F128::of_bool(
                same(acts, bits, i, z),
            ),
        sat(tuples_rows(c, acts, bits, sel, before, after, n).0, z),
    ensures
        sat(c, z),
        ({
            let (_, first, tuples) = tuples_rows(c, acts, bits, sel, before, after, n);
            &&& tuples.len() == n
            &&& n > 0 ==> first[0].eval(z) == before[first_of(acts, bits, n - 1, z)][0].eval(z)
            &&& n > 0 ==> first[1].eval(z) == before[first_of(acts, bits, n - 1, z)][1].eval(z)
            &&& forall|i: int|
                0 <= i < n ==> (#[trigger] tuples[i]).len() == 5 && row_eval(tuples[i], z)
                    == segment_tuple(acts, bits, before, after, i, z)
        }),
    decreases n,
{
    if n > 0 {
        let i = n - 1;
        let (c1, carried, tuples) = tuples_rows(c, acts, bits, sel, before, after, i as nat);
        let (c2, first) = if i > 0 {
            carry_rows(c1, sel[i - 1], carried, before[i])
        } else {
            (c1, carried)
        };
        let next_same = if i < sel.len() {
            sel[i]
        } else {
            Lin::zero()
        };
        assert(acts[i][0].eval(z).is_bit());
        assert(bits[i].len() == 32 && all_bits(bits[i], z));
        if i < sel.len() {
            assert(sel[i].eval(z) == F128::of_bool(same(acts, bits, i, z)));
        }
        lemma_tuple_sound(c2, acts[i], bits[i], next_same, first, after[i], z);
        if i > 0 {
            let (d1, t0) = mul_rows(c1, sel[i - 1], carried[0].plus(before[i][0]));
            lemma_mul_sound(d1, sel[i - 1], carried[1].plus(before[i][1]), z);
            lemma_mul_sound(c1, sel[i - 1], carried[0].plus(before[i][0]), z);
            assert(sel[i - 1].eval(z) == F128::of_bool(same(acts, bits, i - 1, z)));
            lemma_mux_keep(sel[i - 1].eval(z), carried[0].eval(z), before[i][0].eval(z));
            lemma_mux_keep(sel[i - 1].eval(z), carried[1].eval(z), before[i][1].eval(z));
        }
        lemma_tuples_sound(c, acts, bits, sel, before, after, i as nat, z);
        let (_, _, all) = tuples_rows(c, acts, bits, sel, before, after, n);
        assert forall|j: int| 0 <= j < n implies (#[trigger] all[j]).len() == 5 && row_eval(
            all[j],
            z,
        ) == segment_tuple(acts, bits, before, after, j, z) by {
            if j < i {
                assert(all[j] == tuples[j]);
            }
        }
    }
}

// ---------------------------------------------------------------------------
// The compaction
// ---------------------------------------------------------------------------

/// A tuple of zeros.
pub open spec fn zero_tuple() -> Seq<Lin> {
    seq![Lin::zero(), Lin::zero(), Lin::zero(), Lin::zero(), Lin::zero()]
}

pub open spec fn padded_tuples(tuples: Seq<Seq<Lin>>, m: nat) -> Seq<Seq<Lin>> {
    tuples + Seq::new((m - tuples.len()) as nat, |i: int| zero_tuple())
}

/// Routed tuples by their key digits: liveness, segment id, roots.
pub open spec fn split_keys(routed: Seq<Seq<Lin>>, key_bits: Seq<Seq<Lin>>) -> Seq<Seq<Lin>> {
    Seq::new(
        key_bits.len(),
        |j: int|
            seq![
                key_bits[j][16],
                weighted(key_bits[j].take(16), 0),
                routed[j][1],
                routed[j][2],
                routed[j][3],
                routed[j][4],
            ],
    )
}

/// The segment id digits of every key.
pub open spec fn id_digits(key_bits: Seq<Seq<Lin>>) -> Seq<Seq<Lin>> {
    Seq::new(key_bits.len(), |j: int| key_bits[j].take(16))
}

/// A segment compaction: its rows and what it hands on.
pub struct Segmentation {
    pub rows: Seq<Row>,
    pub network_rows: nat,
    pub tuples: Seq<Seq<Lin>>,
    pub routed: Seq<Seq<Lin>>,
    pub key_bits: Seq<Seq<Lin>>,
    pub out: Seq<Seq<Lin>>,
    pub id_bits: Seq<Seq<Lin>>,
}

/// The compaction of sorted actions into at most `max` segments. It depends on
/// the input expressions and the capacity alone.
pub open spec fn segmentation(
    c: Seq<Row>,
    acts: Seq<Seq<Lin>>,
    bits: Seq<Seq<Lin>>,
    highest: Seq<Seq<Lin>>,
    both: Seq<Lin>,
    before: Seq<Seq<Lin>>,
    after: Seq<Seq<Lin>>,
    max: nat,
) -> Segmentation {
    let n = acts.len();
    let m = next_pow2(n);
    let (c1, sel) = same_rows(c, highest, both, (n - 1) as nat);
    let c2 = chain_rows(c1, sel, before, after, (n - 1) as nat);
    let (c3, _, tuples) = tuples_rows(c2, acts, bits, sel, before, after, n);
    let (c4, routed) = network_rows(c3, padded_tuples(tuples, m), log2(m));
    let c5 = dead_rows(c4, routed, max, m);
    let (c6, key_bits) = key_rows(c5, routed, 0, 17, max);
    let out = split_keys(routed, key_bits);
    let id_bits = id_digits(key_bits);
    let c7 = prefix_rows(c6, out, max);
    let (c8, _, _) = order_rows(c7, out, id_bits, max);
    Segmentation {
        rows: c8,
        network_rows: (c4.len() - c3.len()) as nat,
        tuples,
        routed,
        key_bits,
        out,
        id_bits,
    }
}

/// What is bound of one row of the output: its liveness, its identifier by digits,
/// and where it stands among the routed tuples.
pub open spec fn segment_slot(s: Segmentation, j: int, z: Seq<F128>) -> bool {
    let live = s.out[j][0].eval(z);
    let id = bits_value(s.id_bits[j], z);
    &&& live.is_bit()
    &&& s.id_bits[j].len() == 16
    &&& all_bits(s.id_bits[j], z)
    &&& s.out[j][1].eval(z) == F128::of_nat(id)
    &&& id < pow2(16)
    &&& s.routed[j][0].eval(z) == F128::of_nat(
        id + if live == F128::one() {
            pow2(16)
        } else {
            0
        },
    )
    &&& s.out[j].skip(2) == s.routed[j].skip(1)
}

/// The segment slots come out live first and in ascending order, and nothing is
/// live past the capacity.
pub open spec fn segments_bound(s: Segmentation, max: nat, z: Seq<F128>) -> bool {
    &&& s.out.len() == max
    &&& s.id_bits.len() == max
    &&& forall|j: int|
        max <= j < s.routed.len() ==> (#[trigger] s.routed[j])[0].eval(z) == F128::zero()
    &&& forall|j: int| 0 <= j < max ==> #[trigger] segment_slot(s, j, z)
    &&& forall|j: int| 0 <= j < max - 1 ==> #[trigger] follows(s.out, j, z)
    &&& forall|j: int| 0 <= j < max - 1 ==> #[trigger] ascends(s.out, s.id_bits, j, z)
}

proof fn lemma_padded_tuples(tuples: Seq<Seq<Lin>>, m: nat)
    requires
        rows_wide(tuples, 5),
        tuples.len() <= m,
    ensures
        rows_wide(padded_tuples(tuples, m), 5),
        padded_tuples(tuples, m).len() == m,
{
    let p = padded_tuples(tuples, m);
    assert forall|i: int| 0 <= i < p.len() implies (#[trigger] p[i]).len() == 5 by {
        if i < tuples.len() {
            assert(p[i] == tuples[i]);
        }
    }
}

proof fn lemma_tuples_wide(
    c: Seq<Row>,
    acts: Seq<Seq<Lin>>,
    bits: Seq<Seq<Lin>>,
    sel: Seq<Lin>,
    before: Seq<Seq<Lin>>,
    after: Seq<Seq<Lin>>,
    n: nat,
)
    ensures
        tuples_rows(c, acts, bits, sel, before, after, n).2.len() == n,
        rows_wide(tuples_rows(c, acts, bits, sel, before, after, n).2, 5),
    decreases n,
{
    if n > 0 {
        lemma_tuples_wide(c, acts, bits, sel, before, after, (n - 1) as nat);
    }
}

/// The digits of a key are liveness above the segment id.
proof fn lemma_split_key(key: F128, bits: Seq<Lin>, z: Seq<F128>)
    requires
        bits.len() == 17,
        all_bits(bits, z),
        key == F128::of_nat(bits_value(bits, z)),
    ensures
        bits[16].eval(z).is_bit(),
        all_bits(bits.take(16), z),
        bits_value(bits.take(16), z) < pow2(16),
        weighted(bits.take(16), 0).eval(z) == F128::of_nat(bits_value(bits.take(16), z)),
        key.bits < pow2(17),
        key.bits == bits_value(bits.take(16), z) + if bits[16].eval(z) == F128::one() {
            pow2(16)
        } else {
            0
        },
        bits[16].eval(z) == F128::of_bool(key.bits >= pow2(16)),
        bits_value(bits.take(16), z) == key.bits as nat % pow2(16),
{
    lemma_top_digit(bits, 16, z);
    lemma_weighted_value(bits.take(16), z);
    lemma_weighted_value(bits, z);
    crate::bits::lemma_bits_value_take(bits, 17, z);
    assert(bits.take(17) =~= bits);
    assert(1 * pow2(16) == pow2(16) && 0 * pow2(16) == 0) by (nonlinear_arith);
}

/// Under every satisfying assignment the roots inside each segment chain, the
/// routed tuples are those of the segments, one for each, and they come out as
/// a live prefix in ascending segment order that fits the capacity.
pub proof fn lemma_segments_sound(
    c: Seq<Row>,
    acts: Seq<Seq<Lin>>,
    bits: Seq<Seq<Lin>>,
    highest: Seq<Seq<Lin>>,
    both: Seq<Lin>,
    before: Seq<Seq<Lin>>,
    after: Seq<Seq<Lin>>,
    max: nat,
    z: Seq<F128>,
)
    requires
        sorted_actions(acts, bits, highest, both, z),
        1 <= max <= acts.len(),
        sat(segmentation(c, acts, bits, highest, both, before, after, max).rows, z),
    ensures
        sat(c, z),
        local_chain(acts, bits, before, after, (acts.len() - 1) as nat, z),
        ({
            let s = segmentation(c, acts, bits, highest, both, before, after, max);
            &&& s.tuples.len() == acts.len()
            &&& forall|i: int|
                0 <= i < acts.len() ==> row_eval(#[trigger] s.tuples[i], z) == segment_tuple(
                    acts,
                    bits,
                    before,
                    after,
                    i,
                    z,
                )
            &&& s.routed.len() == next_pow2(acts.len())
            &&& rows_eval(s.routed, z).to_multiset() == rows_eval(
                padded_tuples(s.tuples, next_pow2(acts.len())),
                z,
            ).to_multiset()
            &&& segments_bound(s, max, z)
        }),
{
    let s = segmentation(c, acts, bits, highest, both, before, after, max);
    let n = acts.len();
    let m = next_pow2(n);
    let (c1, sel) = same_rows(c, highest, both, (n - 1) as nat);
    let c2 = chain_rows(c1, sel, before, after, (n - 1) as nat);
    let (c3, _, tuples) = tuples_rows(c2, acts, bits, sel, before, after, n);
    let pad = padded_tuples(tuples, m);
    let (c4, routed) = network_rows(c3, pad, log2(m));
    let c5 = dead_rows(c4, routed, max, m);
    let (c6, key_bits) = key_rows(c5, routed, 0, 17, max);
    let c7 = prefix_rows(c6, s.out, max);
    lemma_next_pow2(n);
    lemma_tuples_wide(c2, acts, bits, sel, before, after, n);
    lemma_padded_tuples(tuples, m);
    lemma_network_len(c3, pad, log2(m), 5);
    crate::action_compaction::lemma_key_rows_len(c5, routed, 0, 17, max);
    lemma_order_prefix(c7, s.out, s.id_bits, max, z);
    lemma_prefix_sound(c6, s.out, max, z);
    lemma_key_sound(c5, routed, 0, 17, max, z);
    assert forall|j: int| 0 <= j < max implies (#[trigger] s.id_bits[j]).len() == 16 && all_bits(
        s.id_bits[j],
        z,
    ) by {
        let _ = key_bits[j];
        lemma_split_key(routed[j][0].eval(z), key_bits[j], z);
    }
    lemma_order_sound(c7, s.out, s.id_bits, max, 16, z);
    lemma_dead_sound(c4, routed, max, m, z);
    lemma_network_permutes(c3, pad, log2(m), 5, z);
    lemma_tuples_prefix(c2, acts, bits, sel, before, after, n, z);
    lemma_chain_sound(c1, acts, bits, sel, before, after, (n - 1) as nat, z);
    lemma_same_sound(c, acts, bits, highest, both, (n - 1) as nat, z);
    lemma_tuples_sound(c2, acts, bits, sel, before, after, n, z);
    assert forall|j: int| 0 <= j < max implies #[trigger] segment_slot(s, j, z) by {
        let _ = key_bits[j];
        lemma_split_key(routed[j][0].eval(z), key_bits[j], z);
        assert(routed[j].len() == 5);
        assert(s.out[j].skip(2) =~= routed[j].skip(1));
    }
    assert forall|j: int| 0 <= j < max - 1 implies #[trigger] ascends(
        s.out,
        s.id_bits,
        j,
        z,
    ) by {
        let (_, hs, bs) = order_rows(c7, s.out, s.id_bits, max);
        assert(pair_bound(s.out, s.id_bits, hs, bs, j, z));
    }
    assert(s.tuples == tuples && s.routed == routed && s.key_bits == key_bits);
    assert(s.out.len() == max && s.id_bits.len() == max);
    assert forall|j: int| max <= j < s.routed.len() implies (#[trigger] s.routed[j])[0].eval(z)
        == F128::zero() by {
        assert(s.routed.len() == m);
        assert(routed[j][0].eval(z) == F128::zero());
    }
    assert forall|j: int| 0 <= j < max - 1 implies #[trigger] follows(s.out, j, z) by {}
    assert(segments_bound(s, max, z));
    assert forall|i: int| 0 <= i < acts.len() implies row_eval(#[trigger] s.tuples[i], z)
        == segment_tuple(acts, bits, before, after, i, z) by {
        assert(tuples[i].len() == 5);
    }
}

proof fn lemma_tuples_prefix(
    c: Seq<Row>,
    acts: Seq<Seq<Lin>>,
    bits: Seq<Seq<Lin>>,
    sel: Seq<Lin>,
    before: Seq<Seq<Lin>>,
    after: Seq<Seq<Lin>>,
    n: nat,
    z: Seq<F128>,
)
    requires
        sat(tuples_rows(c, acts, bits, sel, before, after, n).0, z),
    ensures
        sat(c, z),
    decreases n,
{
    if n > 0 {
        let i = n - 1;
        let (c1, carried, tuples) = tuples_rows(c, acts, bits, sel, before, after, i as nat);
        let (c2, first) = if i > 0 {
            carry_rows(c1, sel[i - 1], carried, before[i])
        } else {
            (c1, carried)
        };
        let next_same = if i < sel.len() {
            sel[i]
        } else {
            Lin::zero()
        };
        let id_expr = weighted(bits[i].skip(16), 0);
        let (d1, last) = mul_rows(c2, acts[i][0], next_same.plus_const(F128::one()));
        let (d2, id) = mul_rows(d1, last, id_expr);
        let (d3, b0) = mul_rows(d2, last, first[0]);
        let (d4, b1) = mul_rows(d3, last, first[1]);
        let (d5, a0) = mul_rows(d4, last, after[i][0]);
        lemma_mul_sound(d5, last, after[i][1], z);
        lemma_mul_sound(d4, last, after[i][0], z);
        lemma_mul_sound(d3, last, first[1], z);
        lemma_mul_sound(d2, last, first[0], z);
        lemma_mul_sound(d1, last, id_expr, z);
        lemma_mul_sound(c2, acts[i][0], next_same.plus_const(F128::one()), z);
        if i > 0 {
            let (e1, t0) = mul_rows(c1, sel[i - 1], carried[0].plus(before[i][0]));
            lemma_mul_sound(e1, sel[i - 1], carried[1].plus(before[i][1]), z);
            lemma_mul_sound(c1, sel[i - 1], carried[0].plus(before[i][0]), z);
        }
        lemma_tuples_prefix(c, acts, bits, sel, before, after, i as nat, z);
    }
}

/// One upper-tree update of a segment.
pub struct SegmentUpdateTrace {
    pub live: LinExpr,
    pub segment_id: LinExpr,
    pub root_before: [LinExpr; 2],
    pub root_after: [LinExpr; 2],
}

impl SegmentUpdateTrace {
    /// The lanes `live, segment_id, root_before, root_after`.
    pub open spec fn lanes(&self) -> Seq<Lin> {
        seq![
            self.live@,
            self.segment_id@,
            self.root_before@[0]@,
            self.root_before@[1]@,
            self.root_after@[0]@,
            self.root_after@[1]@,
        ]
    }
}

pub open spec fn segment_lanes(rows: Seq<SegmentUpdateTrace>) -> Seq<Seq<Lin>> {
    Seq::new(rows.len(), |i: int| rows[i].lanes())
}

/// Segment updates as a live prefix in ascending segment order.
pub struct CompactedSegmentTrace {
    pub rows: Vec<SegmentUpdateTrace>,
    /// The 16 digits of each returned row's segment id.
    pub segment_id_bits: Vec<Vec<Wire>>,
    pub source_rows: usize,
    pub sort_rows: usize,
    /// Rows that the network alone takes.
    pub network_rows: usize,
}

/// The sum of the first `n` expressions.
fn sum_first(s: &Vec<LinExpr>, n: usize) -> (r: LinExpr)
    requires
        n <= s@.len(),
    ensures
        r@ == lin_sum(lins(s@), n as nat),
{
    let mut r = LinExpr::zero();
    let mut i: usize = 0;
    while i < n
        invariant
            i <= n <= s@.len(),
            r@ == lin_sum(lins(s@), i as nat),
        decreases n - i,
    {
        r.add_assign(&s[i]);
        i += 1;
    }
    r
}

pub proof fn lemma_lin_sum_below(s: Seq<Lin>, n: nat, m: nat)
    requires
        n <= s.len(),
        all_below(s, m),
    ensures
        lin_sum(s, n).below(m),
    decreases n,
{
    if n > 0 {
        lemma_lin_sum_below(s, (n - 1) as nat, m);
        assert(s[n - 1].below(m));
    }
}

/// Expressions for adjacent actions in one segment.
fn same_selectors(
    b: &mut FieldR1csBuilder,
    highest: &Vec<Vec<LinExpr>>,
    both: &Vec<LinExpr>,
) -> (sel: Vec<LinExpr>)
    requires
        old(b)@.wf(),
        highest@.len() == both@.len(),
        rows_shaped(lane_rows(highest@), 32, old(b)@.rows.len()),
        all_below(lins(both@), old(b)@.rows.len()),
    ensures
        sel@.len() == both@.len(),
        (final(b)@.rows, lins(sel@)) == same_rows(
            old(b)@.rows,
            lane_rows(highest@),
            lins(both@),
            both@.len(),
        ),
        final(b)@.grows(old(b)@),
        final(b)@.honest() <==> old(b)@.honest(),
        all_below(lins(sel@), final(b)@.rows.len()),
{
    let ghost hl = lane_rows(highest@);
    let ghost bl = lins(both@);
    let mut sel: Vec<LinExpr> = Vec::with_capacity(both.len());
    let mut i: usize = 0;
    assert(lins(sel@) =~= Seq::empty());
    while i < both.len()
        invariant
            i <= both@.len(),
            highest@.len() == both@.len(),
            hl == lane_rows(highest@),
            bl == lins(both@),
            rows_shaped(hl, 32, old(b)@.rows.len()),
            all_below(bl, old(b)@.rows.len()),
            sel@.len() == i,
            (b@.rows, lins(sel@)) == same_rows(old(b)@.rows, hl, bl, i as nat),
            b@.grows(old(b)@),
            b@.honest() <==> old(b)@.honest(),
            all_below(lins(sel@), b@.rows.len()),
        decreases both@.len() - i,
    {
        let ghost before = b@;
        let ghost prior = sel@;
        assert(hl[i as int].len() == 32 && all_below(hl[i as int], old(b)@.rows.len()));
        assert(bl[i as int].below(old(b)@.rows.len()));
        let local = sum_first(&highest[i], LOCAL_BITS);
        proof {
            lemma_lin_sum_below(hl[i as int], 16, old(b)@.rows.len());
        }
        let here = crate::circuit::mul(b, &both[i], &local);
        sel.push(here);
        proof {
            assert(lins(sel@) =~= lins(prior).push(here@));
            assert forall|j: int| 0 <= j < lins(sel@).len() implies (
            #[trigger] lins(sel@)[j]).below(b@.rows.len()) by {
                if j < i {
                    assert(lins(prior)[j].below(before.rows.len()));
                }
            }
        }
        i += 1;
    }
    sel
}

/// A gated discontinuity of a pair of roots.
spec fn pair_continues(
    sel: Seq<Lin>,
    before: Seq<Seq<Lin>>,
    after: Seq<Seq<Lin>>,
    i: int,
    z: Seq<F128>,
) -> bool {
    ||| sel[i].eval(z) == F128::zero()
    ||| after[i][0].eval(z) == before[i + 1][0].eval(z) && after[i][1].eval(z) == before[i
        + 1][1].eval(z)
}

/// Binds the roots of adjacent actions in one segment to chain.
fn pin_local_chain(
    b: &mut FieldR1csBuilder,
    sel: &Vec<LinExpr>,
    before: &Vec<[LinExpr; 2]>,
    after: &Vec<[LinExpr; 2]>,
)
    requires
        old(b)@.wf(),
        before@.len() == sel@.len() + 1,
        after@.len() == sel@.len() + 1,
        all_below(lins(sel@), old(b)@.rows.len()),
        rows_shaped(pairs(before@), 2, old(b)@.rows.len()),
        rows_shaped(pairs(after@), 2, old(b)@.rows.len()),
    ensures
        final(b)@.rows == chain_rows(
            old(b)@.rows,
            lins(sel@),
            pairs(before@),
            pairs(after@),
            sel@.len(),
        ),
        final(b)@.grows(old(b)@),
        final(b)@.honest() <==> old(b)@.honest() && forall|i: int|
            0 <= i < sel@.len() ==> #[trigger] pair_continues(
                lins(sel@),
                pairs(before@),
                pairs(after@),
                i,
                old(b)@.values,
            ),
{
    let ghost sl = lins(sel@);
    let ghost be = pairs(before@);
    let ghost af = pairs(after@);
    let ghost z0 = old(b)@.values;
    let mut i: usize = 0;
    while i < sel.len()
        invariant
            i <= sel@.len(),
            before@.len() == sel@.len() + 1,
            after@.len() == sel@.len() + 1,
            sl == lins(sel@),
            be == pairs(before@),
            af == pairs(after@),
            z0 == old(b)@.values,
            all_below(sl, old(b)@.rows.len()),
            rows_shaped(be, 2, old(b)@.rows.len()),
            rows_shaped(af, 2, old(b)@.rows.len()),
            b@.rows == chain_rows(old(b)@.rows, sl, be, af, i as nat),
            b@.grows(old(b)@),
            b@.honest() <==> old(b)@.honest() && forall|j: int|
                0 <= j < i ==> #[trigger] pair_continues(sl, be, af, j, z0),
        decreases sel@.len() - i,
    {
        broadcast use lemma_plus_is_zero;

        let ghost start = b@;
        proof {
            assert(sl[i as int].below(old(b)@.rows.len()));
            assert(all_below(be[i + 1], old(b)@.rows.len()));
            assert(all_below(af[i as int], old(b)@.rows.len()));
            assert(be[i + 1][0].below(old(b)@.rows.len()) && be[i + 1][1].below(
                old(b)@.rows.len(),
            ));
            assert(af[i as int][0].below(old(b)@.rows.len()) && af[i as int][1].below(
                old(b)@.rows.len(),
            ));
            assert(be[i + 1] == pair(before@[i + 1]) && af[i as int] == pair(after@[i as int]));
        }
        let gap0 = after[i][0].add(&before[i + 1][0]);
        pin_product(b, &sel[i], &gap0);
        let gap1 = after[i][1].add(&before[i + 1][1]);
        pin_product(b, &sel[i], &gap1);
        proof {
            let here = pair_continues(sl, be, af, i as int, z0);
            assert(b@.honest() <==> start.honest() && here);
        }
        i += 1;
    }
}

/// One routed tuple.
fn segment_tuple_lanes(
    b: &mut FieldR1csBuilder,
    live: &LinExpr,
    slot_bits: &Vec<Wire>,
    next_same: &LinExpr,
    first: &[LinExpr; 2],
    after: &[LinExpr; 2],
    Ghost(act): Ghost<Seq<Lin>>,
) -> (lanes: Vec<LinExpr>)
    requires
        old(b)@.wf(),
        act.len() > 0,
        act[0] == live@,
        live@.below(old(b)@.rows.len()),
        slot_bits@.len() == 32,
        all_below(wire_lins(slot_bits@), old(b)@.rows.len()),
        next_same@.below(old(b)@.rows.len()),
        all_below(pair(*first), old(b)@.rows.len()),
        all_below(pair(*after), old(b)@.rows.len()),
    ensures
        (final(b)@.rows, lins(lanes@)) == tuple_rows(
            old(b)@.rows,
            act,
            wire_lins(slot_bits@),
            next_same@,
            pair(*first),
            pair(*after),
        ),
        lanes@.len() == 5,
        final(b)@.grows(old(b)@),
        final(b)@.honest() <==> old(b)@.honest(),
        all_below(lins(lanes@), final(b)@.rows.len()),
{
    let ghost n0 = old(b)@.rows.len();
    proof {
        assert(pair(*first)[0].below(n0) && pair(*first)[1].below(n0));
        assert(pair(*after)[0].below(n0) && pair(*after)[1].below(n0));
    }
    let not_same = next_same.add_const(F128::one());
    let last = crate::circuit::mul(b, live, &not_same);
    let ghost b1 = b@;
    let mut upper: Vec<Wire> = Vec::with_capacity(SEGMENT_BITS);
    let mut k: usize = LOCAL_BITS;
    while k < slot_bits.len()
        invariant
            16 <= k <= 32,
            slot_bits@.len() == 32,
            upper@ == slot_bits@.subrange(16, k as int),
        decreases 32 - k,
    {
        upper.push(slot_bits[k]);
        assert(upper@ =~= slot_bits@.subrange(16, k + 1));
        k += 1;
    }
    let exprs = wire_exprs(&upper);
    assert(lins(exprs@) =~= wire_lins(slot_bits@).skip(16));
    let id_expr = weighted_sum(&exprs, 0);
    proof {
        assert forall|i: int| 0 <= i < lins(exprs@).len() implies (
        #[trigger] lins(exprs@)[i]).below(n0) by {
            assert(lins(exprs@)[i] == wire_lins(slot_bits@)[i + 16]);
        }
        lemma_weighted_below(lins(exprs@), 0, n0);
    }
    let id = crate::circuit::mul(b, &last, &id_expr);
    let ghost b2 = b@;
    let before0 = crate::circuit::mul(b, &last, &first[0]);
    let ghost b3 = b@;
    let before1 = crate::circuit::mul(b, &last, &first[1]);
    let ghost b4 = b@;
    let after0 = crate::circuit::mul(b, &last, &after[0]);
    let ghost b5 = b@;
    let after1 = crate::circuit::mul(b, &last, &after[1]);
    let key = id.add(&last.scale(weight(SEGMENT_BITS)));
    let mut lanes: Vec<LinExpr> = Vec::with_capacity(5);
    lanes.push(key);
    lanes.push(before0);
    lanes.push(before1);
    lanes.push(after0);
    lanes.push(after1);
    assert(lins(lanes@) =~= seq![key@, before0@, before1@, after0@, after1@]);
    lanes
}

/// The routed tuples of all actions.
fn segment_tuples(
    b: &mut FieldR1csBuilder,
    actions: &Vec<ActionRowTrace>,
    slot_bits: &Vec<Vec<Wire>>,
    sel: &Vec<LinExpr>,
    before: &Vec<[LinExpr; 2]>,
    after: &Vec<[LinExpr; 2]>,
) -> (tuples: Vec<Vec<LinExpr>>)
    requires
        old(b)@.wf(),
        actions@.len() > 0,
        sel@.len() == actions@.len() - 1,
        slot_bits@.len() == actions@.len(),
        before@.len() == actions@.len(),
        after@.len() == actions@.len(),
        rows_shaped(action_rows(actions@), 6, old(b)@.rows.len()),
        rows_shaped(wire_rows(slot_bits@), 32, old(b)@.rows.len()),
        all_below(lins(sel@), old(b)@.rows.len()),
        rows_shaped(pairs(before@), 2, old(b)@.rows.len()),
        rows_shaped(pairs(after@), 2, old(b)@.rows.len()),
    ensures
        tuples@.len() == actions@.len(),
        ({
            let (rows, _, t) = tuples_rows(
                old(b)@.rows,
                action_rows(actions@),
                wire_rows(slot_bits@),
                lins(sel@),
                pairs(before@),
                pairs(after@),
                actions@.len(),
            );
            (final(b)@.rows, lane_rows(tuples@)) == (rows, t)
        }),
        final(b)@.grows(old(b)@),
        final(b)@.honest() <==> old(b)@.honest(),
        rows_shaped(lane_rows(tuples@), 5, final(b)@.rows.len()),
{
    let ghost acts = action_rows(actions@);
    let ghost bl = wire_rows(slot_bits@);
    let ghost sl = lins(sel@);
    let ghost be = pairs(before@);
    let ghost af = pairs(after@);
    let ghost n0 = old(b)@.rows.len();
    let mut tuples: Vec<Vec<LinExpr>> = Vec::with_capacity(actions.len());
    assert(be[0] == pair(before@[0]) && all_below(be[0], n0));
    assert(be[0][0].below(n0) && be[0][1].below(n0));
    let mut carried: [LinExpr; 2] = [before[0][0].dup(), before[0][1].dup()];
    assert(pair(carried) =~= be[0]);
    let mut i: usize = 0;
    assert(lane_rows(tuples@) =~= Seq::empty());
    while i < actions.len()
        invariant
            i <= actions@.len(),
            n0 == old(b)@.rows.len(),
            sel@.len() == actions@.len() - 1,
            slot_bits@.len() == actions@.len(),
            before@.len() == actions@.len(),
            after@.len() == actions@.len(),
            acts == action_rows(actions@),
            bl == wire_rows(slot_bits@),
            sl == lins(sel@),
            be == pairs(before@),
            af == pairs(after@),
            rows_shaped(acts, 6, n0),
            rows_shaped(bl, 32, n0),
            all_below(sl, n0),
            rows_shaped(be, 2, n0),
            rows_shaped(af, 2, n0),
            b@.grows(old(b)@),
            b@.honest() <==> old(b)@.honest(),
            tuples@.len() == i,
            (b@.rows, pair(carried), lane_rows(tuples@)) == tuples_rows(
                old(b)@.rows,
                acts,
                bl,
                sl,
                be,
                af,
                i as nat,
            ),
            all_below(pair(carried), b@.rows.len()),
            rows_shaped(lane_rows(tuples@), 5, b@.rows.len()),
        decreases actions@.len() - i,
    {
        let ghost start = b@;
        let ghost prior = tuples@;
        proof {
            assert(acts[i as int].len() == 6 && all_below(acts[i as int], n0));
            assert(acts[i as int][0].below(n0));
            assert(bl[i as int].len() == 32 && all_below(bl[i as int], n0));
            assert(bl[i as int] == wire_lins(slot_bits@[i as int]@));
            assert(be[i as int] == pair(before@[i as int]) && all_below(be[i as int], n0));
            assert(be[i as int][0].below(n0) && be[i as int][1].below(n0));
            assert(af[i as int] == pair(after@[i as int]) && all_below(af[i as int], n0));
            assert(af[i as int][0].below(n0) && af[i as int][1].below(n0));
            assert(pair(carried)[0].below(start.rows.len()));
            assert(pair(carried)[1].below(start.rows.len()));
        }
        if i > 0 {
            assert(sl[i - 1].below(n0));
            let gap0 = carried[0].add(&before[i][0]);
            let keep0 = crate::circuit::mul(b, &sel[i - 1], &gap0);
            let ghost b1 = b@;
            let gap1 = carried[1].add(&before[i][1]);
            let keep1 = crate::circuit::mul(b, &sel[i - 1], &gap1);
            let next: [LinExpr; 2] = [before[i][0].add(&keep0), before[i][1].add(&keep1)];
            assert(pair(next) =~= carry_rows(
                start.rows,
                sl[i - 1],
                pair(carried),
                be[i as int],
            ).1);
            carried = next;
            assert(all_below(pair(carried), b@.rows.len()));
        }
        let ghost mid = b@;
        let next_same = if i < sel.len() {
            assert(sl[i as int].below(n0));
            sel[i].dup()
        } else {
            LinExpr::zero()
        };
        proof {
            assert(all_below(wire_lins(slot_bits@[i as int]@), mid.rows.len())) by {
                assert forall|k: int| 0 <= k < 32 implies (
                #[trigger] wire_lins(slot_bits@[i as int]@)[k]).below(mid.rows.len()) by {
                    assert(bl[i as int][k].below(n0));
                }
            }
            assert(all_below(pair(after@[i as int]), mid.rows.len()));
        }
        let lanes = segment_tuple_lanes(
            b,
            &actions[i].live,
            &slot_bits[i],
            &next_same,
            &carried,
            &after[i],
            Ghost(acts[i as int]),
        );
        tuples.push(lanes);
        proof {
            assert(lane_rows(tuples@) =~= lane_rows(prior).push(lins(lanes@)));
            lemma_rows_stable(start, b@, lane_rows(prior), 5);
            assert forall|k: int| 0 <= k < 2 implies (#[trigger] pair(carried)[k]).below(
                b@.rows.len(),
            ) by {
                assert(pair(carried)[k].below(mid.rows.len()));
            }
        }
        i += 1;
    }
    tuples
}

// ---------------------------------------------------------------------------
// When the built assignment satisfies the compaction
// ---------------------------------------------------------------------------

/// The number of segments among the first `n` actions.
pub open spec fn segment_count(
    acts: Seq<Seq<Lin>>,
    bits: Seq<Seq<Lin>>,
    n: nat,
    z: Seq<F128>,
) -> nat
    decreases n,
{
    if n == 0 {
        0
    } else {
        segment_count(acts, bits, (n - 1) as nat, z) + if is_last(acts, bits, n - 1, z) {
            1nat
        } else {
            0
        }
    }
}

/// Liveness and segment id of a routed tuple, by its key.
spec fn key_row(r: Seq<F128>) -> Seq<F128> {
    seq![
        F128::of_bool(r[0].bits >= pow2(16)),
        F128::of_nat(r[0].bits as nat % pow2(16)),
    ]
}

spec fn keys_of(rows: Seq<Seq<F128>>) -> Seq<Seq<F128>> {
    rows.map_values(|r: Seq<F128>| key_row(r))
}

/// A tuple with the key of a segment, or of none.
spec fn key_ok(r: Seq<F128>) -> bool {
    r[0].bits == 0 || pow2(16) <= r[0].bits < pow2(17)
}

proof fn lemma_pow2_16()
    ensures
        pow2(16) == 0x1_0000,
        pow2(17) == 0x2_0000,
{
    vstd::arithmetic::power2::lemma2_to64();
}

/// Segments do not descend along live actions.
proof fn lemma_segments_ascend(
    acts: Seq<Seq<Lin>>,
    bits: Seq<Seq<Lin>>,
    highest: Seq<Seq<Lin>>,
    both: Seq<Lin>,
    i: int,
    j: int,
    z: Seq<F128>,
)
    requires
        sorted_actions(acts, bits, highest, both, z),
        0 <= i < j < acts.len(),
        acts[j][0].eval(z) == F128::one(),
        is_last(acts, bits, i, z),
    ensures
        segment(bits, i, z) < segment(bits, j, z),
        acts[j - 1][0].eval(z) == F128::one(),
    decreases j - i,
{
    assert(follows(acts, j - 1, z));
    assert(acts[j - 1][0].eval(z) == F128::one());
    assert(pair_bound(acts, bits, highest, both, j - 1, z));
    assert(ascends(acts, bits, j - 1, z));
    assert(F128::one().times(F128::one()) == F128::one());
    assert(F128::one() != F128::zero());
    assert(bits[j - 1].len() == 32 && bits[j].len() == 32);
    lemma_value_split(bits[j - 1], 16, z);
    lemma_value_split(bits[j], 16, z);
    let (a, c) = (segment(bits, j - 1, z), segment(bits, j, z));
    let p = pow2(16);
    assert(a <= c) by (nonlinear_arith)
        requires
            exists|x: nat, y: nat| x < p && y < p && #[trigger] (x + p * a) < #[trigger] (y + p * c),
            p > 0,
    {
        if a > c {
            assert(p * a >= p * (c + 1));
        }
    }
    if i < j - 1 {
        lemma_segments_ascend(acts, bits, highest, both, i, j - 1, z);
    }
}

/// The tuples of sorted actions can be ordered when their segments fit.
proof fn lemma_tuples_orderable(
    acts: Seq<Seq<Lin>>,
    bits: Seq<Seq<Lin>>,
    highest: Seq<Seq<Lin>>,
    both: Seq<Lin>,
    before: Seq<Seq<Lin>>,
    after: Seq<Seq<Lin>>,
    src: Seq<Seq<F128>>,
    max: nat,
    z: Seq<F128>,
)
    requires
        sorted_actions(acts, bits, highest, both, z),
        src.len() >= acts.len(),
        forall|i: int|
            0 <= i < acts.len() ==> #[trigger] src[i] == segment_tuple(
                acts,
                bits,
                before,
                after,
                i,
                z,
            ),
        forall|i: int|
            acts.len() <= i < src.len() ==> (#[trigger] src[i])[0] == F128::zero(),
    ensures
        forall|i: int| 0 <= i < src.len() ==> key_ok(#[trigger] src[i]),
        forall|i: int|
            0 <= i < src.len() ==> keyed(#[trigger] keys_of(src)[i]),
        orderable(keys_of(src), max, 16) <==> segment_count(
            acts,
            bits,
            acts.len(),
            z,
        ) <= max,
{
    let v = keys_of(src);
    lemma_pow2_16();
    assert forall|i: int| 0 <= i < src.len() implies key_ok(#[trigger] src[i]) && keyed(v[i])
        && v[i][1].bits < pow2(16) && (v[i][0] == F128::one() <==> i < acts.len() && is_last(
        acts,
        bits,
        i,
        z,
    )) && (v[i][0] == F128::one() ==> v[i][1].bits == segment(bits, i, z)) by {
        if i < acts.len() {
            assert(src[i] == segment_tuple(acts, bits, before, after, i, z));
            assert(bits[i].len() == 32);
            lemma_bits_nat_bound(bools(bits[i].skip(16), z));
            assert(bits[i].skip(16).len() == 16);
            let s = segment(bits, i, z);
            assert(s < pow2(16));
            vstd::arithmetic::div_mod::lemma_small_mod(s, pow2(16));
            vstd::arithmetic::div_mod::lemma_mod_add_multiples_vanish(
                s as int,
                pow2(16) as int,
            );
        }
    }
    assert forall|i: int, j: int|
        0 <= i < j < v.len() && (#[trigger] v[i])[0] == F128::one() && (#[trigger] v[j])[0]
            == F128::one() implies v[i][1] != v[j][1] by {
        let _ = src[i];
        let _ = src[j];
        lemma_segments_ascend(acts, bits, highest, both, i, j, z);
    }
    lemma_count_segments(acts, bits, v, acts.len(), z);
    assert forall|i: int| 0 <= i < v.len() implies (#[trigger] v[i])[1].bits < pow2(16) by {
        let _ = src[i];
    }
    assert forall|i: int| 0 <= i < src.len() implies keyed(#[trigger] v[i]) by {
        let _ = src[i];
    }
}

proof fn lemma_count_segments(
    acts: Seq<Seq<Lin>>,
    bits: Seq<Seq<Lin>>,
    v: Seq<Seq<F128>>,
    n: nat,
    z: Seq<F128>,
)
    requires
        n <= v.len(),
        forall|i: int|
            0 <= i < v.len() ==> ((#[trigger] v[i])[0] == F128::one() <==> i < n && is_last(
                acts,
                bits,
                i,
                z,
            )),
    ensures
        count_live(v) == segment_count(acts, bits, n, z),
    decreases v.len(),
{
    if v.len() > 0 {
        let s = v.drop_last();
        let _ = v[v.len() - 1];
        assert forall|i: int| 0 <= i < s.len() implies ((#[trigger] s[i])[0] == F128::one() <==> i
            < n && is_last(acts, bits, i, z)) by {
            assert(s[i] == v[i]);
        }
        if n == v.len() {
            assert forall|i: int| 0 <= i < s.len() implies ((#[trigger] s[i])[0] == F128::one()
                <==> i < n - 1 && is_last(acts, bits, i, z)) by {
                assert(s[i] == v[i]);
            }
            lemma_count_segments(acts, bits, s, (n - 1) as nat, z);
        } else {
            lemma_count_segments(acts, bits, s, n, z);
        }
    }
}

/// The four checks on routed tuples together state their order.
proof fn lemma_tuple_phases(
    b4: Circuit,
    b5: Circuit,
    b6: Circuit,
    b7: Circuit,
    b8: Circuit,
    ro: Seq<Seq<Lin>>,
    kb: Seq<Seq<Lin>>,
    max: nat,
)
    requires
        b5.grows(b4),
        b6.grows(b5),
        b7.grows(b6),
        b8.grows(b7),
        b8.grows(b4),
        1 <= max <= ro.len(),
        kb.len() == max,
        rows_shaped(ro, 5, b4.rows.len()),
        digits_shaped(kb, 17, b6),
        (b6.rows, kb) == key_rows(b5.rows, ro, 0, 17, max),
        rows_shaped(split_keys(ro, kb), 6, b6.rows.len()),
        forall|j: int| 0 <= j < ro.len() ==> key_ok(#[trigger] rows_eval(ro, b8.values)[j]),
        b5.honest() <==> b4.honest() && forall|j: int|
            max <= j < ro.len() ==> (#[trigger] ro[j])[0].eval(b4.values) == F128::zero(),
        b6.honest() <==> b5.honest() && forall|j: int|
            0 <= j < max ==> (#[trigger] ro[j])[0].eval(b5.values).bits < pow2(17),
        b7.honest() <==> b6.honest() && forall|j: int|
            0 <= j < max - 1 ==> #[trigger] follows(split_keys(ro, kb), j, b6.values),
        b8.honest() <==> b7.honest() && forall|j: int|
            0 <= j < max - 1 ==> #[trigger] ascends(
                split_keys(ro, kb),
                id_digits(kb),
                j,
                b7.values,
            ),
    ensures
        b8.honest() <==> b4.honest() && in_order(
            keys_of(rows_eval(ro, b8.values)),
            max,
            16,
        ),
{
    let z = b8.values;
    let out = split_keys(ro, kb);
    let ids = id_digits(kb);
    let raw = rows_eval(ro, z);
    let v = keys_of(raw);
    lemma_pow2_16();
    lemma_rows_stable(b4, b8, ro, 5);
    lemma_rows_stable(b4, b5, ro, 5);
    lemma_rows_stable(b6, b7, out, 6);
    lemma_rows_stable(b7, b8, out, 6);
    lemma_digits_stable(b6, b7, kb, 17);
    lemma_digits_stable(b7, b8, kb, 17);
    assert forall|j: int| 0 <= j < ro.len() implies (#[trigger] ro[j])[0].eval(b4.values)
        == raw[j][0] && ro[j][0].eval(b5.values) == raw[j][0] && ro[j][0].eval(z) == raw[j][0]
        && key_ok(raw[j]) && v[j][1].bits < pow2(16) && v[j][0].is_bit() && (v[j][0]
        == F128::zero() <==> raw[j][0] == F128::zero()) by {
        assert(ro[j].len() == 5);
        assert(rows_eval(ro, b4.values)[j] == raw[j]);
        assert(rows_eval(ro, b5.values)[j] == raw[j]);
        vstd::arithmetic::div_mod::lemma_mod_bound(raw[j][0].bits as int, pow2(16) as int);
    }
    if b6.honest() {
        crate::circuit::lemma_sat_stable(b6.rows, b6.values, z);
        lemma_key_sound(b5.rows, ro, 0, 17, max, z);
        assert forall|j: int| 0 <= j < max implies (#[trigger] out[j])[0].eval(z) == v[j][0]
            && bits_value(ids[j], z) == v[j][1].bits && out[j][0].eval(b6.values) == v[j][0]
            && out[j][0].eval(b7.values) == v[j][0] && bits_value(ids[j], b7.values)
            == v[j][1].bits by {
            let _ = ro[j];
            let _ = kb[j];
            lemma_split_key(raw[j][0], kb[j], z);
            assert(rows_eval(out, b6.values)[j] == rows_eval(out, z)[j]);
            assert(rows_eval(out, b7.values)[j] == rows_eval(out, z)[j]);
            assert(out[j].len() == 6);
            assert(rows_eval(out, z)[j][0] == out[j][0].eval(z));
            assert(rows_eval(out, b6.values)[j][0] == out[j][0].eval(b6.values));
            assert(rows_eval(out, b7.values)[j][0] == out[j][0].eval(b7.values));
            assert(ids[j] == kb[j].take(16));
            assert(all_below(kb[j], b6.rows.len()));
            assert(all_below(ids[j], b7.rows.len())) by {
                assert forall|k: int| 0 <= k < 16 implies (#[trigger] ids[j][k]).below(
                    b7.rows.len(),
                ) by {
                    assert(kb[j][k].below(b6.rows.len()));
                }
            }
            lemma_bits_stable(b7, b8, ids[j]);
        }
        assert forall|j: int| 0 <= j < max - 1 implies #[trigger] follows(out, j, b6.values)
            == live_follows(v, j) by {
            let _ = out[j];
            let _ = out[j + 1];
        }
        assert forall|j: int| 0 <= j < max - 1 implies #[trigger] live_follows(v, j) == follows(
            out,
            j,
            b6.values,
        ) by {}
        assert forall|j: int| 0 <= j < max - 1 implies #[trigger] ascends(out, ids, j, b7.values)
            == slots_ascend(v, j) by {
            let _ = out[j];
            let _ = out[j + 1];
        }
        assert forall|j: int| 0 <= j < max - 1 implies #[trigger] slots_ascend(v, j) == ascends(
            out,
            ids,
            j,
            b7.values,
        ) by {}
    }
    if b8.honest() {
        assert forall|j: int| max <= j < v.len() implies (#[trigger] v[j])[0] == F128::zero() by {
            let _ = ro[j];
        }
        assert forall|j: int| 0 <= j < v.len() - 1 implies #[trigger] live_follows(v, j) by {
            if j >= max - 1 {
                assert(v[j + 1][0] == F128::zero());
            }
        }
        assert forall|j: int| 0 <= j < max implies (#[trigger] v[j])[1].bits < pow2(16) by {
            let _ = ro[j];
        }
    }
    if b4.honest() && in_order(v, max, 16) {
        assert forall|j: int| max <= j < ro.len() implies (#[trigger] ro[j])[0].eval(b4.values)
            == F128::zero() by {
            assert(v[j][0] == F128::zero());
        }
        assert forall|j: int| 0 <= j < max implies (#[trigger] ro[j])[0].eval(b5.values).bits
            < pow2(17) by {}
        assert(b6.honest());
    }
}

/// A run of the compaction, with its routing witness.
struct SegmentRun {
    acts: Seq<Seq<Lin>>,
    bits: Seq<Seq<Lin>>,
    highest: Seq<Seq<Lin>>,
    both: Seq<Lin>,
    before: Seq<Seq<Lin>>,
    after: Seq<Seq<Lin>>,
    sel: Seq<Lin>,
    tuples: Seq<Seq<Lin>>,
    pad: Seq<Seq<Lin>>,
    routed: Seq<Seq<Lin>>,
    key_bits: Seq<Seq<Lin>>,
    order: Seq<usize>,
    perm: Seq<usize>,
    live: Seq<bool>,
    key: Seq<u128>,
    max: nat,
}

/// The built assignment satisfies a compaction of sorted actions exactly when
/// the local chain holds and the segments fit.
proof fn lemma_segment_honest(
    w: SegmentRun,
    b0: Circuit,
    b1: Circuit,
    b2: Circuit,
    b3: Circuit,
    b4: Circuit,
    b5: Circuit,
    b6: Circuit,
    b7: Circuit,
    b8: Circuit,
)
    requires
        b1.grows(b0),
        b2.grows(b1),
        b3.grows(b2),
        b4.grows(b3),
        b5.grows(b4),
        b6.grows(b5),
        b7.grows(b6),
        b8.grows(b7),
        w.acts.len() >= 1,
        w.sel.len() == w.acts.len() - 1,
        w.before.len() == w.acts.len(),
        w.after.len() == w.acts.len(),
        1 <= w.max <= w.acts.len(),
        (b1.rows, w.sel) == same_rows(b0.rows, w.highest, w.both, w.sel.len()),
        b2.rows == chain_rows(b1.rows, w.sel, w.before, w.after, w.sel.len()),
        ({
            let (rows, _, t) = tuples_rows(
                b2.rows,
                w.acts,
                w.bits,
                w.sel,
                w.before,
                w.after,
                w.acts.len(),
            );
            (b3.rows, w.tuples) == (rows, t)
        }),
        w.pad == padded_tuples(w.tuples, next_pow2(w.acts.len())),
        (b4.rows, w.routed) == network_rows(b3.rows, w.pad, log2(next_pow2(w.acts.len()))),
        (b6.rows, w.key_bits) == key_rows(b5.rows, w.routed, 0, 17, w.max),
        w.tuples.len() == w.acts.len(),
        w.routed.len() == next_pow2(w.acts.len()),
        w.key_bits.len() == w.max,
        all_below(w.sel, b1.rows.len()),
        rows_shaped(w.before, 2, b1.rows.len()),
        rows_shaped(w.after, 2, b1.rows.len()),
        rows_shaped(w.pad, 5, b3.rows.len()),
        rows_shaped(w.routed, 5, b4.rows.len()),
        digits_shaped(w.key_bits, 17, b6),
        b1.honest() <==> b0.honest(),
        b2.honest() <==> b1.honest() && forall|i: int|
            0 <= i < w.sel.len() ==> #[trigger] pair_continues(
                w.sel,
                w.before,
                w.after,
                i,
                b1.values,
            ),
        b3.honest() <==> b2.honest(),
        b4.honest() <==> b3.honest(),
        b5.honest() <==> b4.honest() && forall|j: int|
            w.max <= j < w.routed.len() ==> (#[trigger] w.routed[j])[0].eval(b4.values)
                == F128::zero(),
        b6.honest() <==> b5.honest() && forall|j: int|
            0 <= j < w.max ==> (#[trigger] w.routed[j])[0].eval(b5.values).bits < pow2(17),
        b7.honest() <==> b6.honest() && forall|j: int|
            0 <= j < w.max - 1 ==> #[trigger] follows(
                split_keys(w.routed, w.key_bits),
                j,
                b6.values,
            ),
        b8.honest() <==> b7.honest() && forall|j: int|
            0 <= j < w.max - 1 ==> #[trigger] ascends(
                split_keys(w.routed, w.key_bits),
                id_digits(w.key_bits),
                j,
                b7.values,
            ),
        inverses(w.order, w.perm),
        w.order.len() == w.pad.len(),
        crate::sorting::is_sorted(w.live, w.key, w.order),
        w.live.len() == w.pad.len(),
        w.key.len() == w.pad.len(),
        forall|j: int|
            0 <= j < w.pad.len() ==> #[trigger] w.live[j] == (w.pad[j][0].eval(b3.values).bits
                >= 0x1_0000),
        forall|j: int|
            0 <= j < w.pad.len() ==> #[trigger] w.key[j] == w.pad[j][0].eval(b3.values).bits
                % 0x1_0000,
        forall|j: int|
            0 <= j < w.pad.len() ==> rows_eval(w.routed, b4.values)[#[trigger] w.perm[j] as int]
                == rows_eval(w.pad, b3.values)[j],
    ensures
        sorted_actions(w.acts, w.bits, w.highest, w.both, b8.values) ==> {
            b8.honest() <==> {
                &&& b0.honest()
                &&& local_chain(w.acts, w.bits, w.before, w.after, w.sel.len(), b8.values)
                &&& segment_count(w.acts, w.bits, w.acts.len(), b8.values) <= w.max
            }
        },
{
    let z = b8.values;
    let n = w.acts.len();
    let m = next_pow2(n);
    let (acts, bits, highest, both) = (w.acts, w.bits, w.highest, w.both);
    let (be, af, sl, tuples, pad, ro, kb) = (
        w.before,
        w.after,
        w.sel,
        w.tuples,
        w.pad,
        w.routed,
        w.key_bits,
    );
    let max = w.max;
    lemma_next_pow2(n);
    lemma_tuples_wide(b2.rows, acts, bits, sl, be, af, n);
    lemma_padded_tuples(tuples, m);
    lemma_split_shaped(ro, kb, b4, b6);
    lemma_inverse_permutation(w.order, w.perm);
    if sorted_actions(acts, bits, highest, both, z) {
        if b0.honest() {
            crate::circuit::lemma_sat_stable(b1.rows, b1.values, z);
            lemma_same_sound(b0.rows, acts, bits, highest, both, (n - 1) as nat, z);
            lemma_rows_stable(b1, b8, be, 2);
            lemma_rows_stable(b1, b8, af, 2);
            lemma_chain_exact(b1, b8, acts, bits, sl, be, af);
        }
        if b3.honest() {
            crate::circuit::lemma_sat_stable(b3.rows, b3.values, z);
            lemma_tuples_sound(b2.rows, acts, bits, sl, be, af, n, z);
            lemma_rows_stable(b3, b8, pad, 5);
            lemma_rows_stable(b4, b8, ro, 5);
            lemma_pow2_16();
            let src = rows_eval(pad, z);
            let dst = rows_eval(ro, z);
            assert forall|j: int| 0 <= j < n implies #[trigger] src[j] == segment_tuple(
                acts,
                bits,
                be,
                af,
                j,
                z,
            ) by {
                assert(pad[j] == tuples[j]);
            }
            assert forall|j: int| n <= j < src.len() implies (#[trigger] src[j])[0]
                == F128::zero() by {
                assert(pad[j] == zero_tuple());
            }
            lemma_tuples_orderable(acts, bits, highest, both, be, af, src, max, z);
            crate::circuit::lemma_sat_stable(b4.rows, b4.values, z);
            lemma_network_permutes(b3.rows, pad, log2(m), 5, z);
            assert forall|j: int| 0 <= j < dst.len() implies key_ok(#[trigger] dst[j]) by {
                let k = crate::action_compaction::lemma_same_rows(dst, src, j);
                assert(key_ok(src[k]));
            }
            let f = |r: Seq<F128>| key_row(r);
            let p = |r: Seq<F128>| r[0] == F128::one();
            lemma_count_mapped(src, f, p);
            lemma_count_mapped(dst, f, p);
            lemma_count_same(dst, src, |r: Seq<F128>| p(f(r)));
            let vs = keys_of(src);
            let vd = keys_of(dst);
            assert forall|j: int| 0 <= j < vs.len() implies #[trigger] w.live[j] == (vs[j][0]
                == F128::one()) && w.key[j] == vs[j][1].bits by {
                assert(rows_eval(pad, b3.values)[j] == src[j]);
                assert(pad[j].len() == 5);
            }
            assert forall|j: int| 0 <= j < vs.len() implies vd[
                #[trigger] w.perm[j] as int
            ] == vs[j] by {
                assert(w.perm[j] < w.perm.len());
                assert(rows_eval(ro, b4.values)[w.perm[j] as int] == rows_eval(
                    pad,
                    b3.values,
                )[j]);
            }
            assert forall|j: int| 0 <= j < vs.len() implies keyed(#[trigger] vs[j]) by {}
            lemma_in_order(vs, vd, w.order, w.perm, w.live, w.key, max, 16);
            lemma_tuple_phases(b4, b5, b6, b7, b8, ro, kb, max);
        } else {
            if b8.honest() {
                lemma_grows_honest(b3, b8);
            }
        }
    }
}

fn zero_tuple_lanes() -> (lanes: Vec<LinExpr>)
    ensures
        lins(lanes@) == zero_tuple(),
        lanes@.len() == 5,
{
    let mut lanes: Vec<LinExpr> = Vec::with_capacity(5);
    lanes.push(LinExpr::zero());
    lanes.push(LinExpr::zero());
    lanes.push(LinExpr::zero());
    lanes.push(LinExpr::zero());
    lanes.push(LinExpr::zero());
    assert(lins(lanes@) =~= zero_tuple());
    lanes
}

/// The rows of routed tuples by their key digits, and the id digits.
fn split_routed(routed: &Vec<Vec<LinExpr>>, key_bits: &Vec<Vec<Wire>>) -> (r: (
    Vec<Vec<LinExpr>>,
    Vec<Vec<Wire>>,
))
    requires
        key_bits@.len() <= routed@.len(),
        rows_wide(lane_rows(routed@), 5),
        rows_wide(wire_rows(key_bits@), 17),
    ensures
        r.0@.len() == key_bits@.len(),
        r.1@.len() == key_bits@.len(),
        lane_rows(r.0@) == split_keys(lane_rows(routed@), wire_rows(key_bits@)),
        wire_rows(r.1@) == id_digits(wire_rows(key_bits@)),
{
    let mut out: Vec<Vec<LinExpr>> = Vec::with_capacity(key_bits.len());
    let mut ids: Vec<Vec<Wire>> = Vec::with_capacity(key_bits.len());
    let ghost ro = lane_rows(routed@);
    let ghost kb = wire_rows(key_bits@);
    let mut j: usize = 0;
    while j < key_bits.len()
        invariant
            j <= key_bits@.len() <= routed@.len(),
            ro == lane_rows(routed@),
            kb == wire_rows(key_bits@),
            rows_wide(ro, 5),
            rows_wide(kb, 17),
            out@.len() == j,
            ids@.len() == j,
            forall|k: int| 0 <= k < j ==> lins((#[trigger] out@[k])@) == split_keys(ro, kb)[k],
            forall|k: int| 0 <= k < j ==> wire_lins((#[trigger] ids@[k])@) == kb[k].take(16),
        decreases key_bits@.len() - j,
    {
        assert(ro[j as int].len() == 5 && kb[j as int].len() == 17);
        assert(kb[j as int] == wire_lins(key_bits@[j as int]@));
        let mut id: Vec<Wire> = Vec::with_capacity(SEGMENT_BITS);
        let mut k: usize = 0;
        while k < SEGMENT_BITS
            invariant
                k <= 16,
                j < key_bits@.len(),
                key_bits@[j as int]@.len() == 17,
                id@ == key_bits@[j as int]@.take(k as int),
            decreases 16 - k,
        {
            id.push(key_bits[j][k]);
            assert(id@ =~= key_bits@[j as int]@.take(k + 1));
            k += 1;
        }
        assert(wire_lins(id@) =~= kb[j as int].take(16));
        let exprs = wire_exprs(&id);
        let segment_id = weighted_sum(&exprs, 0);
        let mut lanes: Vec<LinExpr> = Vec::with_capacity(6);
        lanes.push(LinExpr::from_wire(key_bits[j][SEGMENT_BITS]));
        lanes.push(segment_id);
        lanes.push(routed[j][1].dup());
        lanes.push(routed[j][2].dup());
        lanes.push(routed[j][3].dup());
        lanes.push(routed[j][4].dup());
        assert(lins(lanes@) =~= split_keys(ro, kb)[j as int]);
        out.push(lanes);
        ids.push(id);
        j += 1;
    }
    assert(lane_rows(out@) =~= split_keys(ro, kb));
    assert(wire_rows(ids@) =~= id_digits(kb));
    (out, ids)
}

proof fn lemma_split_shaped(ro: Seq<Seq<Lin>>, kb: Seq<Seq<Lin>>, b4: Circuit, b6: Circuit)
    requires
        b6.grows(b4),
        kb.len() <= ro.len(),
        rows_shaped(ro, 5, b4.rows.len()),
        digits_shaped(kb, 17, b6),
    ensures
        rows_shaped(split_keys(ro, kb), 6, b6.rows.len()),
        digits_shaped(id_digits(kb), 16, b6),
{
    let out = split_keys(ro, kb);
    let ids = id_digits(kb);
    reveal(all_bits);
    assert forall|j: int| 0 <= j < ids.len() implies (#[trigger] ids[j]).len() == 16 && all_below(
        ids[j],
        b6.rows.len(),
    ) && all_bits(ids[j], b6.values) by {
        assert(kb[j].len() == 17 && all_below(kb[j], b6.rows.len()) && all_bits(kb[j], b6.values));
        assert forall|k: int| 0 <= k < 16 implies (#[trigger] ids[j][k]).below(b6.rows.len())
            && ids[j][k].eval(b6.values).is_bit() by {
            assert(ids[j][k] == kb[j][k]);
            assert(kb[j][k].below(b6.rows.len()));
        }
    }
    assert forall|j: int| 0 <= j < out.len() implies (#[trigger] out[j]).len() == 6 && all_below(
        out[j],
        b6.rows.len(),
    ) by {
        assert(kb[j].len() == 17 && all_below(kb[j], b6.rows.len()));
        assert(ro[j].len() == 5 && all_below(ro[j], b4.rows.len()));
        assert(all_below(ids[j], b6.rows.len()));
        lemma_weighted_below(kb[j].take(16), 0, b6.rows.len());
        assert(kb[j][16].below(b6.rows.len()));
        assert(ro[j][1].below(b4.rows.len()) && ro[j][2].below(b4.rows.len()) && ro[j][3].below(
            b4.rows.len(),
        ) && ro[j][4].below(b4.rows.len()));
    }
}

/// Compacts sorted actions into one update for each segment they touch.
///
/// `local_roots_before[i]` and `local_roots_after[i]` are the roots of the
/// segment around action `i`. See [`lemma_segments_sound`] for what the
/// constraints bind.
pub fn compact_segment_updates(
    b: &mut FieldR1csBuilder,
    actions: &Vec<ActionRowTrace>,
    slot_bits: &Vec<Vec<Wire>>,
    adjacent_msb_one_hot: &Vec<Vec<LinExpr>>,
    adjacent_both_live: &Vec<LinExpr>,
    local_roots_before: &Vec<[LinExpr; 2]>,
    local_roots_after: &Vec<[LinExpr; 2]>,
    max_segments: usize,
) -> (r: CompactedSegmentTrace)
    requires
        old(b)@.wf(),
        1 <= actions@.len() <= usize::MAX / 2 + 1,
        slot_bits@.len() == actions@.len(),
        adjacent_msb_one_hot@.len() == actions@.len() - 1,
        adjacent_both_live@.len() == actions@.len() - 1,
        local_roots_before@.len() == actions@.len(),
        local_roots_after@.len() == actions@.len(),
        1 <= max_segments <= actions@.len(),
        rows_shaped(action_rows(actions@), 6, old(b)@.rows.len()),
        rows_shaped(wire_rows(slot_bits@), 32, old(b)@.rows.len()),
        rows_shaped(lane_rows(adjacent_msb_one_hot@), 32, old(b)@.rows.len()),
        all_below(lins(adjacent_both_live@), old(b)@.rows.len()),
        rows_shaped(pairs(local_roots_before@), 2, old(b)@.rows.len()),
        rows_shaped(pairs(local_roots_after@), 2, old(b)@.rows.len()),
    ensures
        ({
            let s = segmentation(
                old(b)@.rows,
                action_rows(actions@),
                wire_rows(slot_bits@),
                lane_rows(adjacent_msb_one_hot@),
                lins(adjacent_both_live@),
                pairs(local_roots_before@),
                pairs(local_roots_after@),
                max_segments as nat,
            );
            &&& final(b)@.rows == s.rows
            &&& segment_lanes(r.rows@) == s.out
            &&& wire_rows(r.segment_id_bits@) == s.id_bits
            &&& r.network_rows == s.network_rows
        }),
        r.rows@.len() == max_segments,
        r.segment_id_bits@.len() == max_segments,
        r.source_rows == actions@.len(),
        r.sort_rows == next_pow2(actions@.len()),
        final(b)@.grows(old(b)@),
        rows_shaped(segment_lanes(r.rows@), 6, final(b)@.rows.len()),
        rows_shaped(wire_rows(r.segment_id_bits@), 16, final(b)@.rows.len()),
        ({
            let z = final(b)@.values;
            let acts = action_rows(actions@);
            let bits = wire_rows(slot_bits@);
            sorted_actions(
                acts,
                bits,
                lane_rows(adjacent_msb_one_hot@),
                lins(adjacent_both_live@),
                z,
            ) ==> {
                final(b)@.honest() <==> {
                    &&& old(b)@.honest()
                    &&& local_chain(
                        acts,
                        bits,
                        pairs(local_roots_before@),
                        pairs(local_roots_after@),
                        (acts.len() - 1) as nat,
                        z,
                    )
                    &&& segment_count(acts, bits, acts.len(), z) <= max_segments
                }
            }
        }),
{
    let ghost acts = action_rows(actions@);
    let ghost bits = wire_rows(slot_bits@);
    let ghost highest = lane_rows(adjacent_msb_one_hot@);
    let ghost both = lins(adjacent_both_live@);
    let ghost be = pairs(local_roots_before@);
    let ghost af = pairs(local_roots_after@);
    let ghost b0 = b@;
    let ghost n = acts.len();
    let ghost max = max_segments as nat;
    let sel = same_selectors(b, adjacent_msb_one_hot, adjacent_both_live);
    let ghost b1 = b@;
    let ghost sl = lins(sel@);
    proof {
        lemma_rows_stable(b0, b1, be, 2);
        lemma_rows_stable(b0, b1, af, 2);
        lemma_rows_stable(b0, b1, acts, 6);
        lemma_rows_stable(b0, b1, bits, 32);
    }
    pin_local_chain(b, &sel, local_roots_before, local_roots_after);
    let ghost b2 = b@;
    proof {
        assert(b2.honest() <==> b1.honest() && forall|i: int|
            0 <= i < sl.len() ==> #[trigger] pair_continues(sl, be, af, i, b1.values));
        lemma_rows_stable(b1, b2, be, 2);
        lemma_rows_stable(b1, b2, af, 2);
        lemma_rows_stable(b1, b2, acts, 6);
        lemma_rows_stable(b1, b2, bits, 32);
        assert forall|i: int| 0 <= i < sl.len() implies (#[trigger] sl[i]).below(
            b2.rows.len(),
        ) by {
            assert(sl[i].below(b1.rows.len()));
        }
    }
    let mut lanes = segment_tuples(
        b,
        actions,
        slot_bits,
        &sel,
        local_roots_before,
        local_roots_after,
    );
    let ghost b3 = b@;
    let ghost tuples = lane_rows(lanes@);
    let source_count: usize = actions.len();
    let sort_rows: usize = next_power_of_two(source_count);
    let ghost m = sort_rows as nat;
    let ghost pad = padded_tuples(tuples, m);
    while lanes.len() < sort_rows
        invariant
            source_count <= lanes@.len() <= sort_rows,
            tuples.len() == source_count,
            lane_rows(lanes@) == padded_tuples(tuples, lanes@.len()),
        decreases sort_rows - lanes@.len(),
    {
        let ghost prior = lanes@;
        let zero = zero_tuple_lanes();
        lanes.push(zero);
        assert(lane_rows(lanes@) =~= lane_rows(prior).push(zero_tuple()));
        assert(padded_tuples(tuples, lanes@.len()) =~= padded_tuples(tuples, prior.len()).push(
            zero_tuple(),
        ));
    }
    assert(lane_rows(lanes@) == pad);
    proof {
        lemma_padded_tuples(tuples, m);
        assert forall|i: int| 0 <= i < pad.len() implies (#[trigger] pad[i]).len() == 5
            && all_below(pad[i], b3.rows.len()) by {
            if i < tuples.len() {
                assert(pad[i] == tuples[i]);
            } else {
                assert(pad[i] == zero_tuple());
            }
        }
    }

    // The routing witness.
    let mut live: Vec<bool> = Vec::with_capacity(sort_rows);
    let mut key: Vec<u128> = Vec::with_capacity(sort_rows);
    let mut i: usize = 0;
    while i < sort_rows
        invariant
            i <= sort_rows,
            lanes@.len() == sort_rows,
            lane_rows(lanes@) == pad,
            rows_shaped(pad, 5, b3.rows.len()),
            b@ == b3,
            b3.wf(),
            live@.len() == i,
            key@.len() == i,
            forall|j: int|
                0 <= j < i ==> #[trigger] live@[j] == (pad[j][0].eval(b3.values).bits
                    >= 0x1_0000),
            forall|j: int|
                0 <= j < i ==> #[trigger] key@[j] == pad[j][0].eval(b3.values).bits % 0x1_0000,
        decreases sort_rows - i,
    {
        assert(pad[i as int].len() == 5 && all_below(pad[i as int], b3.rows.len()));
        assert(pad[i as int][0].below(b3.rows.len()));
        let value: u128 = lanes[i][0].eval(&b.values).bits;
        live.push(value >= 0x1_0000);
        key.push(value % 0x1_0000);
        i += 1;
    }
    let order = sort_live_first(&live, &key);
    let permutation = invert(&order);
    proof {
        lemma_inverse_permutation(order@, permutation@);
        assert(lins(lanes@[0]@) == pad[0]);
        assert(pad[0].len() == 5);
    }
    let start: usize = b.num_wires();
    let routed = route_permutation_network(b, lanes, &permutation);
    let network_rows = b.num_wires() - start;
    let ghost b4 = b@;
    let ghost ro = lane_rows(routed@);
    pin_dead_suffix(b, &routed, max_segments, Ghost(5));
    let ghost b5 = b@;
    proof {
        lemma_rows_stable(b4, b5, ro, 5);
    }
    let key_bits = decompose_keys(b, &routed, 0, SEGMENT_KEY_BITS, max_segments, Ghost(5));
    let ghost b6 = b@;
    let ghost kb = wire_rows(key_bits@);
    proof {
        lemma_split_shaped(ro, kb, b4, b6);
    }
    let (out, id_bits) = split_routed(&routed, &key_bits);
    let ghost ol = lane_rows(out@);
    let ghost ids = wire_rows(id_bits@);
    pin_live_prefix(b, &out, Ghost(6));
    let ghost b7 = b@;
    proof {
        lemma_rows_stable(b6, b7, ol, 6);
        lemma_digits_stable(b6, b7, ids, 16);
    }
    let _ = pin_key_order(b, &out, &id_bits, Ghost(6), Ghost(16));
    proof {
        let b8 = b@;
        let z = b8.values;
        lemma_rows_stable(b7, b8, ol, 6);
        lemma_digits_stable(b7, b8, ids, 16);
        let w = SegmentRun {
            acts,
            bits,
            highest,
            both,
            before: be,
            after: af,
            sel: sl,
            tuples,
            pad,
            routed: ro,
            key_bits: kb,
            order: order@,
            perm: permutation@,
            live: live@,
            key: key@,
            max,
        };
        lemma_segment_honest(w, b0, b1, b2, b3, b4, b5, b6, b7, b8);
    }
    let rows = take_segments(&out);
    proof {
        assert(segment_lanes(rows@) =~= ol);
    }
    CompactedSegmentTrace {
        rows,
        segment_id_bits: id_bits,
        source_rows: source_count,
        sort_rows,
        network_rows,
    }
}

/// With exact selectors, the continuity checks state the local chain.
proof fn lemma_chain_exact(
    old: Circuit,
    new: Circuit,
    acts: Seq<Seq<Lin>>,
    bits: Seq<Seq<Lin>>,
    sel: Seq<Lin>,
    before: Seq<Seq<Lin>>,
    after: Seq<Seq<Lin>>,
)
    requires
        new.grows(old),
        acts.len() == sel.len() + 1,
        before.len() == acts.len(),
        after.len() == acts.len(),
        all_below(sel, old.rows.len()),
        rows_shaped(before, 2, old.rows.len()),
        rows_shaped(after, 2, old.rows.len()),
        forall|i: int|
            0 <= i < sel.len() ==> (#[trigger] sel[i]).eval(new.values) == F128::of_bool(
                same(acts, bits, i, new.values),
            ),
    ensures
        (forall|i: int|
            0 <= i < sel.len() ==> #[trigger] pair_continues(sel, before, after, i, old.values))
            <==> local_chain(acts, bits, before, after, sel.len(), new.values),
{
    let z = new.values;
    assert forall|i: int| 0 <= i < sel.len() implies #[trigger] pair_continues(
        sel,
        before,
        after,
        i,
        old.values,
    ) == (same(acts, bits, i, z) ==> after[i][0].eval(z) == before[i + 1][0].eval(z)
        && after[i][1].eval(z) == before[i + 1][1].eval(z)) by {
        assert(sel[i].below(old.rows.len()));
        assert(all_below(before[i + 1], old.rows.len()) && before[i + 1].len() == 2);
        assert(all_below(after[i], old.rows.len()) && after[i].len() == 2);
        assert(before[i + 1][0].below(old.rows.len()) && before[i + 1][1].below(old.rows.len()));
        assert(after[i][0].below(old.rows.len()) && after[i][1].below(old.rows.len()));
        assert(sel[i].eval(z) == F128::of_bool(same(acts, bits, i, z)));
    }
    if local_chain(acts, bits, before, after, sel.len(), z) {
        assert forall|i: int| 0 <= i < sel.len() implies #[trigger] pair_continues(
            sel,
            before,
            after,
            i,
            old.values,
        ) by {
            let _ = after[i];
        }
    }
    if forall|i: int|
        0 <= i < sel.len() ==> #[trigger] pair_continues(sel, before, after, i, old.values) {
        assert forall|i: int|
            #![trigger after[i]]
            0 <= i < sel.len() && same(acts, bits, i, z) implies after[i][0].eval(z) == before[i
            + 1][0].eval(z) && after[i][1].eval(z) == before[i + 1][1].eval(z) by {
            assert(pair_continues(sel, before, after, i, old.values));
        }
    }
}

/// Segment updates with the given lanes.
fn take_segments(out: &Vec<Vec<LinExpr>>) -> (rows: Vec<SegmentUpdateTrace>)
    requires
        rows_wide(lane_rows(out@), 6),
    ensures
        rows@.len() == out@.len(),
        forall|i: int| 0 <= i < out@.len() ==> (#[trigger] rows@[i]).lanes() == lane_rows(out@)[i],
{
    let mut rows: Vec<SegmentUpdateTrace> = Vec::with_capacity(out.len());
    let mut i: usize = 0;
    while i < out.len()
        invariant
            i <= out@.len(),
            rows_wide(lane_rows(out@), 6),
            rows@.len() == i,
            forall|j: int| 0 <= j < i ==> (#[trigger] rows@[j]).lanes() == lane_rows(out@)[j],
        decreases out@.len() - i,
    {
        assert(lane_rows(out@)[i as int].len() == 6);
        let row = SegmentUpdateTrace {
            live: out[i][0].dup(),
            segment_id: out[i][1].dup(),
            root_before: [out[i][2].dup(), out[i][3].dup()],
            root_after: [out[i][4].dup(), out[i][5].dup()],
        };
        assert(row.lanes() =~= lane_rows(out@)[i as int]);
        rows.push(row);
        i += 1;
    }
    rows
}

// ---------------------------------------------------------------------------
// The upper chain
// ---------------------------------------------------------------------------

/// One lane of one segment in the upper chain.
pub open spec fn upper_lane_rows(
    c: Seq<Row>,
    live: Lin,
    entry: (Lin, Lin),
    upper_entry: (Lin, Lin),
    root: (Lin, Lin),
    rolling: Lin,
) -> (Seq<Row>, Lin) {
    let c1 = pin_rows(c, entry.0.plus(upper_entry.0));
    let c2 = pin_rows(c1, entry.1.plus(upper_entry.1));
    let c3 = gate_rows(c2, live, rolling.plus(root.0));
    let (c4, t) = mul_rows(c3, live, rolling.plus(root.1));
    (c4, rolling.plus(t))
}

/// What the upper paths hand in: entries and roots, before and after.
pub struct UpperPaths {
    pub old_entries: Seq<Seq<Lin>>,
    pub new_entries: Seq<Seq<Lin>>,
    pub roots_before: Seq<Seq<Lin>>,
    pub roots_after: Seq<Seq<Lin>>,
}

/// The chain over the first `n` segments, from `parent`.
pub open spec fn upper_chain_rows(
    c: Seq<Row>,
    rows: Seq<Seq<Lin>>,
    u: UpperPaths,
    parent: Seq<Lin>,
    n: nat,
) -> (Seq<Row>, Seq<Lin>)
    decreases n,
{
    if n == 0 {
        (c, parent)
    } else {
        let i = n - 1;
        let (c1, rolling) = upper_chain_rows(c, rows, u, parent, i as nat);
        let (c2, r0) = upper_lane_rows(
            c1,
            rows[i][0],
            (rows[i][2], rows[i][4]),
            (u.old_entries[i][0], u.new_entries[i][0]),
            (u.roots_before[i][0], u.roots_after[i][0]),
            rolling[0],
        );
        let (c3, r1) = upper_lane_rows(
            c2,
            rows[i][0],
            (rows[i][3], rows[i][5]),
            (u.old_entries[i][1], u.new_entries[i][1]),
            (u.roots_before[i][1], u.roots_after[i][1]),
            rolling[1],
        );
        (c3, seq![r0, r1])
    }
}

/// The rows of the whole upper chain.
pub open spec fn upper_rows(
    c: Seq<Row>,
    rows: Seq<Seq<Lin>>,
    u: UpperPaths,
    parent: Seq<Lin>,
    child: Seq<Lin>,
) -> Seq<Row> {
    let (c1, rolling) = upper_chain_rows(c, rows, u, parent, rows.len());
    let c2 = pin_rows(c1, rolling[0].plus(child[0]));
    pin_rows(c2, rolling[1].plus(child[1]))
}

/// Lane `lane` of the root after the first `n` segments.
pub open spec fn rolled(
    rows: Seq<Seq<Lin>>,
    u: UpperPaths,
    parent: Seq<Lin>,
    lane: int,
    n: nat,
    z: Seq<F128>,
) -> F128
    decreases n,
{
    if n == 0 {
        parent[lane].eval(z)
    } else if rows[n - 1][0].eval(z) == F128::one() {
        u.roots_after[n - 1][lane].eval(z)
    } else {
        rolled(rows, u, parent, lane, (n - 1) as nat, z)
    }
}

/// Segment `i` enters the upper tree with its own roots, and if it is live its
/// upper path starts at the root that the segments before it reached.
pub open spec fn links(
    rows: Seq<Seq<Lin>>,
    u: UpperPaths,
    parent: Seq<Lin>,
    lane: int,
    i: int,
    z: Seq<F128>,
) -> bool {
    &&& rows[i][2 + lane].eval(z) == u.old_entries[i][lane].eval(z)
    &&& rows[i][4 + lane].eval(z) == u.new_entries[i][lane].eval(z)
    &&& rows[i][0].eval(z) == F128::one() ==> rolled(rows, u, parent, lane, i as nat, z)
        == u.roots_before[i][lane].eval(z)
}

/// The first `n` segments link.
pub open spec fn all_link(
    rows: Seq<Seq<Lin>>,
    u: UpperPaths,
    parent: Seq<Lin>,
    n: nat,
    z: Seq<F128>,
) -> bool {
    forall|i: int|
        0 <= i < n ==> #[trigger] links(rows, u, parent, 0, i, z) && links(
            rows,
            u,
            parent,
            1,
            i,
            z,
        )
}

proof fn lemma_all_link_step(
    rows: Seq<Seq<Lin>>,
    u: UpperPaths,
    parent: Seq<Lin>,
    n: nat,
    z: Seq<F128>,
)
    ensures
        all_link(rows, u, parent, n + 1, z) <==> all_link(rows, u, parent, n, z) && links(
            rows,
            u,
            parent,
            0,
            n as int,
            z,
        ) && links(rows, u, parent, 1, n as int, z),
{
    if all_link(rows, u, parent, n + 1, z) {
        assert(links(rows, u, parent, 0, n as int, z));
    }
}

/// The segments chain from the parent root to the child root.
pub open spec fn upper_chain(
    rows: Seq<Seq<Lin>>,
    u: UpperPaths,
    parent: Seq<Lin>,
    child: Seq<Lin>,
    z: Seq<F128>,
) -> bool {
    &&& all_link(rows, u, parent, rows.len(), z)
    &&& rolled(rows, u, parent, 0, rows.len(), z) == child[0].eval(z)
    &&& rolled(rows, u, parent, 1, rows.len(), z) == child[1].eval(z)
}

proof fn lemma_upper_lane_sound(
    c: Seq<Row>,
    live: Lin,
    entry: (Lin, Lin),
    upper_entry: (Lin, Lin),
    root: (Lin, Lin),
    rolling: Lin,
    z: Seq<F128>,
)
    requires
        live.eval(z).is_bit(),
        sat(upper_lane_rows(c, live, entry, upper_entry, root, rolling).0, z),
    ensures
        sat(c, z),
        entry.0.eval(z) == upper_entry.0.eval(z),
        entry.1.eval(z) == upper_entry.1.eval(z),
        live.eval(z) == F128::one() ==> rolling.eval(z) == root.0.eval(z),
        upper_lane_rows(c, live, entry, upper_entry, root, rolling).1.eval(z) == if live.eval(z)
            == F128::one() {
            root.1.eval(z)
        } else {
            rolling.eval(z)
        },
{
    broadcast use lemma_plus_is_zero;

    let c1 = pin_rows(c, entry.0.plus(upper_entry.0));
    let c2 = pin_rows(c1, entry.1.plus(upper_entry.1));
    let c3 = gate_rows(c2, live, rolling.plus(root.0));
    lemma_mul_sound(c3, live, rolling.plus(root.1), z);
    lemma_gate_sound(c2, live, rolling.plus(root.0), z);
    lemma_pin_sound(c1, entry.1.plus(upper_entry.1), z);
    lemma_pin_sound(c, entry.0.plus(upper_entry.0), z);
}

proof fn lemma_upper_chain_sound(
    c: Seq<Row>,
    rows: Seq<Seq<Lin>>,
    u: UpperPaths,
    parent: Seq<Lin>,
    n: nat,
    z: Seq<F128>,
)
    requires
        n <= rows.len(),
        parent.len() == 2,
        forall|i: int| 0 <= i < rows.len() ==> (#[trigger] rows[i])[0].eval(z).is_bit(),
        sat(upper_chain_rows(c, rows, u, parent, n).0, z),
    ensures
        sat(c, z),
        upper_chain_rows(c, rows, u, parent, n).1.len() == 2,
        upper_chain_rows(c, rows, u, parent, n).1[0].eval(z) == rolled(rows, u, parent, 0, n, z),
        upper_chain_rows(c, rows, u, parent, n).1[1].eval(z) == rolled(rows, u, parent, 1, n, z),
        all_link(rows, u, parent, n, z),
    decreases n,
{
    if n > 0 {
        let i = n - 1;
        let (c1, rolling) = upper_chain_rows(c, rows, u, parent, i as nat);
        let (c2, r0) = upper_lane_rows(
            c1,
            rows[i][0],
            (rows[i][2], rows[i][4]),
            (u.old_entries[i][0], u.new_entries[i][0]),
            (u.roots_before[i][0], u.roots_after[i][0]),
            rolling[0],
        );
        assert(rows[i][0].eval(z).is_bit());
        lemma_upper_lane_sound(
            c2,
            rows[i][0],
            (rows[i][3], rows[i][5]),
            (u.old_entries[i][1], u.new_entries[i][1]),
            (u.roots_before[i][1], u.roots_after[i][1]),
            rolling[1],
            z,
        );
        lemma_upper_lane_sound(
            c1,
            rows[i][0],
            (rows[i][2], rows[i][4]),
            (u.old_entries[i][0], u.new_entries[i][0]),
            (u.roots_before[i][0], u.roots_after[i][0]),
            rolling[0],
            z,
        );
        lemma_upper_chain_sound(c, rows, u, parent, i as nat, z);
        lemma_all_link_step(rows, u, parent, i as nat, z);
    }
}

/// Under every satisfying assignment each segment enters the upper tree with
/// its own roots, and the upper roots of live segments chain from the parent
/// root to the child root. Dead segments leave the root as it is.
pub proof fn lemma_upper_sound(
    c: Seq<Row>,
    rows: Seq<Seq<Lin>>,
    u: UpperPaths,
    parent: Seq<Lin>,
    child: Seq<Lin>,
    z: Seq<F128>,
)
    requires
        parent.len() == 2,
        child.len() == 2,
        forall|i: int| 0 <= i < rows.len() ==> (#[trigger] rows[i])[0].eval(z).is_bit(),
        sat(upper_rows(c, rows, u, parent, child), z),
    ensures
        sat(c, z),
        upper_chain(rows, u, parent, child, z),
{
    broadcast use lemma_plus_is_zero;

    let (c1, rolling) = upper_chain_rows(c, rows, u, parent, rows.len());
    let c2 = pin_rows(c1, rolling[0].plus(child[0]));
    lemma_pin_sound(c2, rolling[1].plus(child[1]), z);
    lemma_pin_sound(c1, rolling[0].plus(child[0]), z);
    lemma_upper_chain_sound(c, rows, u, parent, rows.len(), z);
}

/// One lane of one segment in the upper chain.
fn bind_upper_lane(
    b: &mut FieldR1csBuilder,
    live: &LinExpr,
    entry: (&LinExpr, &LinExpr),
    upper_entry: (&LinExpr, &LinExpr),
    root: (&LinExpr, &LinExpr),
    rolling: &LinExpr,
) -> (r: LinExpr)
    requires
        old(b)@.wf(),
        live@.below(old(b)@.rows.len()),
        entry.0@.below(old(b)@.rows.len()),
        entry.1@.below(old(b)@.rows.len()),
        upper_entry.0@.below(old(b)@.rows.len()),
        upper_entry.1@.below(old(b)@.rows.len()),
        root.0@.below(old(b)@.rows.len()),
        root.1@.below(old(b)@.rows.len()),
        rolling@.below(old(b)@.rows.len()),
    ensures
        (final(b)@.rows, r@) == upper_lane_rows(
            old(b)@.rows,
            live@,
            (entry.0@, entry.1@),
            (upper_entry.0@, upper_entry.1@),
            (root.0@, root.1@),
            rolling@,
        ),
        final(b)@.grows(old(b)@),
        r@.below(final(b)@.rows.len()),
        ({
            let z = old(b)@.values;
            live@.eval(z).is_bit() ==> {
                &&& final(b)@.honest() <==> {
                    &&& old(b)@.honest()
                    &&& entry.0@.eval(z) == upper_entry.0@.eval(z)
                    &&& entry.1@.eval(z) == upper_entry.1@.eval(z)
                    &&& live@.eval(z) == F128::one() ==> rolling@.eval(z) == root.0@.eval(z)
                }
                &&& r@.eval(final(b)@.values) == if live@.eval(z) == F128::one() {
                    root.1@.eval(z)
                } else {
                    rolling@.eval(z)
                }
            }
        }),
{
    broadcast use lemma_plus_is_zero;

    pin_eq(b, entry.0, upper_entry.0);
    let ghost b1 = b@;
    pin_eq(b, entry.1, upper_entry.1);
    let ghost b2 = b@;
    let gap = rolling.add(root.0);
    pin_product(b, live, &gap);
    let ghost b3 = b@;
    let step = rolling.add(root.1);
    let moved = crate::circuit::mul(b, live, &step);
    rolling.add(&moved)
}

/// The two lanes of every entry and root of the upper paths.
pub open spec fn upper_paths(
    old_entries: Seq<[LinExpr; 2]>,
    new_entries: Seq<[LinExpr; 2]>,
    roots_before: Seq<[LinExpr; 2]>,
    roots_after: Seq<[LinExpr; 2]>,
) -> UpperPaths {
    UpperPaths {
        old_entries: pairs(old_entries),
        new_entries: pairs(new_entries),
        roots_before: pairs(roots_before),
        roots_after: pairs(roots_after),
    }
}

spec fn upper_shaped(u: UpperPaths, n: nat) -> bool {
    &&& rows_shaped(u.old_entries, 2, n)
    &&& rows_shaped(u.new_entries, 2, n)
    &&& rows_shaped(u.roots_before, 2, n)
    &&& rows_shaped(u.roots_after, 2, n)
}

/// The lanes of segment `i` and of its upper path keep their values.
proof fn lemma_upper_stable(
    old: Circuit,
    new: Circuit,
    rows: Seq<Seq<Lin>>,
    u: UpperPaths,
    i: int,
)
    requires
        new.grows(old),
        0 <= i < rows.len(),
        u.old_entries.len() == rows.len(),
        u.new_entries.len() == rows.len(),
        u.roots_before.len() == rows.len(),
        u.roots_after.len() == rows.len(),
        rows_shaped(rows, 6, old.rows.len()),
        upper_shaped(u, old.rows.len()),
    ensures
        forall|l: int|
            0 <= l < 6 ==> (#[trigger] rows[i][l]).below(new.rows.len()) && rows[i][l].eval(
                new.values,
            ) == rows[i][l].eval(old.values),
        forall|l: int|
            0 <= l < 2 ==> (#[trigger] u.old_entries[i][l]).below(new.rows.len())
                && u.old_entries[i][l].eval(new.values) == u.old_entries[i][l].eval(old.values),
        forall|l: int|
            0 <= l < 2 ==> (#[trigger] u.new_entries[i][l]).below(new.rows.len())
                && u.new_entries[i][l].eval(new.values) == u.new_entries[i][l].eval(old.values),
        forall|l: int|
            0 <= l < 2 ==> (#[trigger] u.roots_before[i][l]).below(new.rows.len())
                && u.roots_before[i][l].eval(new.values) == u.roots_before[i][l].eval(old.values),
        forall|l: int|
            0 <= l < 2 ==> (#[trigger] u.roots_after[i][l]).below(new.rows.len())
                && u.roots_after[i][l].eval(new.values) == u.roots_after[i][l].eval(old.values),
{
    let n = old.rows.len();
    assert(all_below(rows[i], n) && rows[i].len() == 6);
    assert(all_below(u.old_entries[i], n) && u.old_entries[i].len() == 2);
    assert(all_below(u.new_entries[i], n) && u.new_entries[i].len() == 2);
    assert(all_below(u.roots_before[i], n) && u.roots_before[i].len() == 2);
    assert(all_below(u.roots_after[i], n) && u.roots_after[i].len() == 2);
    assert forall|l: int| 0 <= l < 6 implies (#[trigger] rows[i][l]).below(new.rows.len())
        && rows[i][l].eval(new.values) == rows[i][l].eval(old.values) by {
        assert(rows[i][l].below(n));
    }
    assert forall|l: int| 0 <= l < 2 implies u.old_entries[i][l].below(n) by {}
    assert forall|l: int| 0 <= l < 2 implies (#[trigger] u.old_entries[i][l]).below(
        new.rows.len(),
    ) && u.old_entries[i][l].eval(new.values) == u.old_entries[i][l].eval(old.values) by {
        assert(u.old_entries[i][l].below(n));
    }
    assert forall|l: int| 0 <= l < 2 implies (#[trigger] u.new_entries[i][l]).below(
        new.rows.len(),
    ) && u.new_entries[i][l].eval(new.values) == u.new_entries[i][l].eval(old.values) by {
        assert(u.new_entries[i][l].below(n));
    }
    assert forall|l: int| 0 <= l < 2 implies (#[trigger] u.roots_before[i][l]).below(
        new.rows.len(),
    ) && u.roots_before[i][l].eval(new.values) == u.roots_before[i][l].eval(old.values) by {
        assert(u.roots_before[i][l].below(n));
    }
    assert forall|l: int| 0 <= l < 2 implies (#[trigger] u.roots_after[i][l]).below(
        new.rows.len(),
    ) && u.roots_after[i][l].eval(new.values) == u.roots_after[i][l].eval(old.values) by {
        assert(u.roots_after[i][l].below(n));
    }
}

/// Binds segment updates to the entries of their upper paths, and chains the
/// upper roots from the parent root to the child root.
///
/// See [`lemma_upper_sound`] for what the constraints bind.
pub fn bind_segment_upper_chain(
    b: &mut FieldR1csBuilder,
    segments: &CompactedSegmentTrace,
    upper_old_entries: &Vec<[LinExpr; 2]>,
    upper_new_entries: &Vec<[LinExpr; 2]>,
    upper_roots_before: &Vec<[LinExpr; 2]>,
    upper_roots_after: &Vec<[LinExpr; 2]>,
    parent_root: &[LinExpr; 2],
    child_root: &[LinExpr; 2],
)
    requires
        old(b)@.wf(),
        upper_old_entries@.len() == segments.rows@.len(),
        upper_new_entries@.len() == segments.rows@.len(),
        upper_roots_before@.len() == segments.rows@.len(),
        upper_roots_after@.len() == segments.rows@.len(),
        rows_shaped(segment_lanes(segments.rows@), 6, old(b)@.rows.len()),
        rows_shaped(pairs(upper_old_entries@), 2, old(b)@.rows.len()),
        rows_shaped(pairs(upper_new_entries@), 2, old(b)@.rows.len()),
        rows_shaped(pairs(upper_roots_before@), 2, old(b)@.rows.len()),
        rows_shaped(pairs(upper_roots_after@), 2, old(b)@.rows.len()),
        all_below(pair(*parent_root), old(b)@.rows.len()),
        all_below(pair(*child_root), old(b)@.rows.len()),
    ensures
        ({
            let rows = segment_lanes(segments.rows@);
            let u = upper_paths(
                upper_old_entries@,
                upper_new_entries@,
                upper_roots_before@,
                upper_roots_after@,
            );
            let z = old(b)@.values;
            &&& final(b)@.rows == upper_rows(
                old(b)@.rows,
                rows,
                u,
                pair(*parent_root),
                pair(*child_root),
            )
            &&& (forall|i: int| 0 <= i < rows.len() ==> (#[trigger] rows[i])[0].eval(z).is_bit())
                ==> {
                final(b)@.honest() <==> old(b)@.honest() && upper_chain(
                    rows,
                    u,
                    pair(*parent_root),
                    pair(*child_root),
                    z,
                )
            }
        }),
        final(b)@.grows(old(b)@),
{
    let ghost rows = segment_lanes(segments.rows@);
    let ghost u = upper_paths(
        upper_old_entries@,
        upper_new_entries@,
        upper_roots_before@,
        upper_roots_after@,
    );
    let ghost pr = pair(*parent_root);
    let ghost cr = pair(*child_root);
    let ghost b0 = old(b)@;
    let ghost n0 = b0.rows.len();
    let ghost z0 = b0.values;
    let ghost lives = forall|i: int|
        0 <= i < rows.len() ==> (#[trigger] rows[i])[0].eval(z0).is_bit();
    assert(pr[0].below(n0) && pr[1].below(n0) && cr[0].below(n0) && cr[1].below(n0));
    let mut rolling: [LinExpr; 2] = [parent_root[0].dup(), parent_root[1].dup()];
    assert(pair(rolling) =~= pr);
    let mut i: usize = 0;
    while i < segments.rows.len()
        invariant
            i <= segments.rows@.len(),
            rows == segment_lanes(segments.rows@),
            u == upper_paths(
                upper_old_entries@,
                upper_new_entries@,
                upper_roots_before@,
                upper_roots_after@,
            ),
            pr == pair(*parent_root),
            b0 == old(b)@,
            n0 == b0.rows.len(),
            z0 == b0.values,
            lives == forall|j: int|
                0 <= j < rows.len() ==> (#[trigger] rows[j])[0].eval(z0).is_bit(),
            upper_old_entries@.len() == segments.rows@.len(),
            upper_new_entries@.len() == segments.rows@.len(),
            upper_roots_before@.len() == segments.rows@.len(),
            upper_roots_after@.len() == segments.rows@.len(),
            rows_shaped(rows, 6, n0),
            upper_shaped(u, n0),
            b@.grows(b0),
            (b@.rows, pair(rolling)) == upper_chain_rows(b0.rows, rows, u, pr, i as nat),
            pair(rolling)[0].below(b@.rows.len()),
            pair(rolling)[1].below(b@.rows.len()),
            lives ==> pair(rolling)[0].eval(b@.values) == rolled(rows, u, pr, 0, i as nat, z0),
            lives ==> pair(rolling)[1].eval(b@.values) == rolled(rows, u, pr, 1, i as nat, z0),
            lives ==> (b@.honest() <==> b0.honest() && all_link(rows, u, pr, i as nat, z0)),
        decreases segments.rows@.len() - i,
    {
        let ghost start = b@;
        let ghost prior = pair(rolling);
        let row = &segments.rows[i];
        proof {
            let k = i as int;
            lemma_upper_stable(b0, start, rows, u, k);
            assert(rows[k] == row.lanes());
            assert(u.old_entries[k] == pair(upper_old_entries@[k]));
            assert(u.new_entries[k] == pair(upper_new_entries@[k]));
            assert(u.roots_before[k] == pair(upper_roots_before@[k]));
            assert(u.roots_after[k] == pair(upper_roots_after@[k]));
            assert(rows[k][0] == row.live@ && rows[k][2] == row.root_before@[0]@ && rows[k][3]
                == row.root_before@[1]@ && rows[k][4] == row.root_after@[0]@ && rows[k][5]
                == row.root_after@[1]@);
            assert(u.old_entries[k][0].below(start.rows.len()) && u.old_entries[k][1].below(
                start.rows.len(),
            ) && u.new_entries[k][0].below(start.rows.len()) && u.new_entries[k][1].below(
                start.rows.len(),
            ) && u.roots_before[k][0].below(start.rows.len()) && u.roots_before[k][1].below(
                start.rows.len(),
            ) && u.roots_after[k][0].below(start.rows.len()) && u.roots_after[k][1].below(
                start.rows.len(),
            ));
        }
        let r0 = bind_upper_lane(
            b,
            &row.live,
            (&row.root_before[0], &row.root_after[0]),
            (&upper_old_entries[i][0], &upper_new_entries[i][0]),
            (&upper_roots_before[i][0], &upper_roots_after[i][0]),
            &rolling[0],
        );
        let ghost mid = b@;
        let r1 = bind_upper_lane(
            b,
            &row.live,
            (&row.root_before[1], &row.root_after[1]),
            (&upper_old_entries[i][1], &upper_new_entries[i][1]),
            (&upper_roots_before[i][1], &upper_roots_after[i][1]),
            &rolling[1],
        );
        rolling = [r0, r1];
        proof {
            let k = i as int;
            assert(pair(rolling) =~= seq![r0@, r1@]);
            lemma_all_link_step(rows, u, pr, i as nat, z0);
            if lives {
                assert(rows[k][0].eval(z0).is_bit());
                assert(rows[k][0].eval(start.values) == rows[k][0].eval(z0));
                lemma_upper_stable(b0, mid, rows, u, k);
                assert(rows[k][0].eval(mid.values) == rows[k][0].eval(z0));
                assert(b@.honest() <==> start.honest() && links(rows, u, pr, 0, k, z0) && links(
                    rows,
                    u,
                    pr,
                    1,
                    k,
                    z0,
                ));
            }
        }
        i += 1;
    }
    let ghost b1 = b@;
    pin_eq(b, &rolling[0], &child_root[0]);
    let ghost b2 = b@;
    pin_eq(b, &rolling[1], &child_root[1]);
    proof {
        assert(pair(rolling)[0] == rolling@[0]@ && pair(rolling)[1] == rolling@[1]@);
        assert(cr[0] == child_root@[0]@ && cr[1] == child_root@[1]@);
        assert(b@.rows == upper_rows(b0.rows, rows, u, pr, cr));
        assert(cr[0].eval(b1.values) == cr[0].eval(z0));
        assert(cr[1].eval(b2.values) == cr[1].eval(z0));
        if lives {
            assert(b@.honest() <==> b1.honest() && pair(rolling)[0].eval(b1.values) == cr[0].eval(
                z0,
            ) && pair(rolling)[1].eval(b1.values) == cr[1].eval(z0));
            assert(b@.honest() <==> b0.honest() && upper_chain(rows, u, pr, cr, z0));
        }
    }
}

/// What a satisfied action compaction hands on is sorted.
pub proof fn lemma_compaction_sorted(
    c: Seq<Row>,
    cands: Seq<Seq<Lin>>,
    cap: nat,
    z: Seq<F128>,
)
    requires
        cands.len() >= 1,
        1 <= cap <= cands.len(),
        rows_wide(cands, 6),
        sat(crate::action_compaction::compaction(c, cands, cap).rows, z),
    ensures
        ({
            let k = crate::action_compaction::compaction(c, cands, cap);
            sorted_actions(k.routed.take(cap as int), k.slot_bits, k.highest, k.both_live, z)
        }),
{
    let k = crate::action_compaction::compaction(c, cands, cap);
    crate::action_compaction::lemma_compaction_sound(c, cands, cap, z);
    let acts = k.routed.take(cap as int);
    let out = rows_eval(k.routed, z);
    crate::action_compaction::lemma_compaction_len(c, cands, cap);
    assert forall|i: int| 0 <= i < acts.len() implies (#[trigger] acts[i])[0].eval(z).is_bit() by {
        assert(crate::action_compaction::action_ok(out[i]));
        assert(k.routed[i].len() == 6);
        assert(acts[i] == k.routed[i]);
    }
    assert forall|i: int| 0 <= i < acts.len() implies (#[trigger] k.slot_bits[i]).len() == 32
        && all_bits(k.slot_bits[i], z) by {}
    assert forall|i: int| 0 <= i < acts.len() - 1 implies #[trigger] follows(acts, i, z) by {
        assert(follows(k.routed, i, z));
        assert(acts[i] == k.routed[i] && acts[i + 1] == k.routed[i + 1]);
    }
    assert forall|i: int| 0 <= i < acts.len() - 1 implies #[trigger] pair_bound(
        acts,
        k.slot_bits,
        k.highest,
        k.both_live,
        i,
        z,
    ) by {
        assert(pair_bound(k.routed, k.slot_bits, k.highest, k.both_live, i, z));
        assert(acts[i] == k.routed[i] && acts[i + 1] == k.routed[i + 1]);
        assert(ascends(acts, k.slot_bits, i, z));
    }
}

} // verus!
