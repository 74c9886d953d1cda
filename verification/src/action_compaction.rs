//! Fixed-shape action compaction and slot uniqueness.
//!
//! Candidates enter in body order. One witness-routed network permutes them
//! into a live prefix in ascending slot order. The constraints on its output,
//! not the routing witness, bind the order and the uniqueness of slots.

use vstd::prelude::*;
use vstd::arithmetic::power2::{lemma_pow2_pos, pow2};
use crate::action_surface::{
    action_from_lanes, action_lanes, action_rows, zero_action, zero_lanes, ActionRowTrace,
};
use crate::bits::{
    all_bits, bits_value, is_msb, lemma_bits_stable, lemma_less_sound, lemma_range_sound, less_rows,
    range_check_bits, range_rows, strict_less_bits, wire_lins,
};
use crate::circuit::{
    all_below, bit_rows, gate_rows, group_circuit, lemma_bit_sound, lemma_gate_sound,
    lemma_mul_sound, lemma_pin_sound, lins, mul_rows, pin_bit, pin_product, pin_rows, pin_zero, sat,
    Circuit, FieldR1csBuilder, Lin, LinExpr, Row, Wire,
};
use crate::field::{lemma_plus_is_zero, F128};
use crate::permutation_network::{
    back, invert, inverses, lane_rows, lemma_inverse_permutation, lemma_network_len,
    lemma_network_permutes, log2, network_rows, route_permutation_network, row_eval, rows_eval,
    rows_shaped, rows_wide,
};
use crate::sorting::{
    count_live, is_sorted, lemma_count_bound, lemma_count_prefix, lemma_count_same, lemma_next_pow2,
    lemma_sorted_pair, next_pow2, next_power_of_two, sort_live_first,
};

verus! {

broadcast use group_circuit;

/// Digits of a slot index.
pub const SLOT_BITS: usize = 32;

// ---------------------------------------------------------------------------
// Source rows
// ---------------------------------------------------------------------------

/// A dead row is zero in every lane, and only a live row mints.
pub open spec fn action_ok(r: Seq<F128>) -> bool {
    &&& r[0].is_bit()
    &&& r[5].is_bit()
    &&& r[5] == F128::one() ==> r[0] == F128::one()
    &&& r[0] == F128::zero() ==> r[1] == F128::zero() && r[2] == F128::zero() && r[3]
        == F128::zero() && r[4] == F128::zero()
}

/// The rows that bind one candidate.
pub open spec fn source_rows(c: Seq<Row>, r: Seq<Lin>) -> Seq<Row> {
    let dead = r[0].plus_const(F128::one());
    let c1 = bit_rows(c, r[0]);
    let c2 = bit_rows(c1, r[5]);
    let c3 = gate_rows(c2, r[5], dead);
    let c4 = gate_rows(c3, dead, r[1]);
    let c5 = gate_rows(c4, dead, r[2]);
    let c6 = gate_rows(c5, dead, r[3]);
    gate_rows(c6, dead, r[4])
}

proof fn lemma_source_sound(c: Seq<Row>, r: Seq<Lin>, z: Seq<F128>)
    requires
        r.len() == 6,
        sat(source_rows(c, r), z),
    ensures
        sat(c, z),
        action_ok(row_eval(r, z)),
{
    broadcast use lemma_plus_is_zero;

    let dead = r[0].plus_const(F128::one());
    let c1 = bit_rows(c, r[0]);
    let c2 = bit_rows(c1, r[5]);
    let c3 = gate_rows(c2, r[5], dead);
    let c4 = gate_rows(c3, dead, r[1]);
    let c5 = gate_rows(c4, dead, r[2]);
    let c6 = gate_rows(c5, dead, r[3]);
    lemma_gate_sound(c6, dead, r[4], z);
    lemma_gate_sound(c5, dead, r[3], z);
    lemma_gate_sound(c4, dead, r[2], z);
    lemma_gate_sound(c3, dead, r[1], z);
    lemma_gate_sound(c2, r[5], dead, z);
    lemma_bit_sound(c1, r[5], z);
    lemma_bit_sound(c, r[0], z);
}

fn constrain_source_row(b: &mut FieldR1csBuilder, row: &ActionRowTrace)
    requires
        old(b)@.wf(),
        all_below(row.lanes(), old(b)@.rows.len()),
    ensures
        final(b)@.rows == source_rows(old(b)@.rows, row.lanes()),
        final(b)@.grows(old(b)@),
        final(b)@.honest() <==> old(b)@.honest() && action_ok(
            row_eval(row.lanes(), old(b)@.values),
        ),
{
    broadcast use lemma_plus_is_zero;

    let ghost r = row.lanes();
    assert forall|i: int| 0 <= i < 6 implies (#[trigger] r[i]).below(old(b)@.rows.len()) by {}
    assert(r[0].below(old(b)@.rows.len()) && r[1].below(old(b)@.rows.len()) && r[2].below(
        old(b)@.rows.len(),
    ) && r[3].below(old(b)@.rows.len()) && r[4].below(old(b)@.rows.len()) && r[5].below(
        old(b)@.rows.len(),
    ));
    pin_bit(b, &row.live);
    let ghost b1 = b@;
    pin_bit(b, &row.is_mint);
    let ghost b2 = b@;
    let dead = row.live.add_const(F128::one());
    pin_product(b, &row.is_mint, &dead);
    let ghost b3 = b@;
    pin_product(b, &dead, &row.slot_index);
    let ghost b4 = b@;
    pin_product(b, &dead, &row.value);
    let ghost b5 = b@;
    pin_product(b, &dead, &row.owner[0]);
    let ghost b6 = b@;
    pin_product(b, &dead, &row.owner[1]);
    proof {
        assert(row_eval(r, old(b)@.values) =~= seq![
            r[0].eval(old(b)@.values),
            r[1].eval(old(b)@.values),
            r[2].eval(old(b)@.values),
            r[3].eval(old(b)@.values),
            r[4].eval(old(b)@.values),
            r[5].eval(old(b)@.values),
        ]);
    }
}

/// The rows that bind the first `n` candidates.
pub open spec fn all_source_rows(c: Seq<Row>, cands: Seq<Seq<Lin>>, n: nat) -> Seq<Row>
    decreases n,
{
    if n == 0 {
        c
    } else {
        source_rows(all_source_rows(c, cands, (n - 1) as nat), cands[n - 1])
    }
}

proof fn lemma_all_source_sound(c: Seq<Row>, cands: Seq<Seq<Lin>>, n: nat, z: Seq<F128>)
    requires
        n <= cands.len(),
        rows_wide(cands, 6),
        sat(all_source_rows(c, cands, n), z),
    ensures
        sat(c, z),
        forall|i: int| 0 <= i < n ==> action_ok(row_eval(#[trigger] cands[i], z)),
    decreases n,
{
    if n > 0 {
        assert(cands[n - 1].len() == 6);
        lemma_source_sound(all_source_rows(c, cands, (n - 1) as nat), cands[n - 1], z);
        lemma_all_source_sound(c, cands, (n - 1) as nat, z);
    }
}

// ---------------------------------------------------------------------------
// The live prefix
// ---------------------------------------------------------------------------

/// The rows that bind rows `from..n` to be dead.
pub open spec fn dead_rows(c: Seq<Row>, routed: Seq<Seq<Lin>>, from: nat, n: nat) -> Seq<Row>
    decreases n,
{
    if n <= from {
        c
    } else {
        pin_rows(dead_rows(c, routed, from, (n - 1) as nat), routed[n - 1][0])
    }
}

/// The rows that bind a live row among the first `n` to follow a live row.
pub open spec fn prefix_rows(c: Seq<Row>, routed: Seq<Seq<Lin>>, n: nat) -> Seq<Row>
    decreases n,
{
    if n <= 1 {
        c
    } else {
        gate_rows(
            prefix_rows(c, routed, (n - 1) as nat),
            routed[n - 1][0],
            routed[n - 2][0].plus_const(F128::one()),
        )
    }
}

pub proof fn lemma_dead_sound(
    c: Seq<Row>,
    routed: Seq<Seq<Lin>>,
    from: nat,
    n: nat,
    z: Seq<F128>,
)
    requires
        n <= routed.len(),
        sat(dead_rows(c, routed, from, n), z),
    ensures
        sat(c, z),
        forall|i: int| from <= i < n ==> (#[trigger] routed[i])[0].eval(z) == F128::zero(),
    decreases n,
{
    if n > from {
        lemma_pin_sound(dead_rows(c, routed, from, (n - 1) as nat), routed[n - 1][0], z);
        lemma_dead_sound(c, routed, from, (n - 1) as nat, z);
    }
}

/// A live row follows a live row.
pub open spec fn follows(routed: Seq<Seq<Lin>>, i: int, z: Seq<F128>) -> bool {
    routed[i + 1][0].eval(z) == F128::zero() || routed[i][0].eval(z) == F128::one()
}

pub proof fn lemma_prefix_sound(c: Seq<Row>, routed: Seq<Seq<Lin>>, n: nat, z: Seq<F128>)
    requires
        n <= routed.len(),
        sat(prefix_rows(c, routed, n), z),
    ensures
        sat(c, z),
        forall|i: int| 0 <= i < n - 1 ==> #[trigger] follows(routed, i, z),
    decreases n,
{
    broadcast use lemma_plus_is_zero;

    if n > 1 {
        lemma_gate_sound(
            prefix_rows(c, routed, (n - 1) as nat),
            routed[n - 1][0],
            routed[n - 2][0].plus_const(F128::one()),
            z,
        );
        lemma_prefix_sound(c, routed, (n - 1) as nat, z);
        assert(follows(routed, n - 2, z));
    }
}

/// Binds every row from `from` on to be dead.
pub(crate) fn pin_dead_suffix(
    b: &mut FieldR1csBuilder,
    routed: &Vec<Vec<LinExpr>>,
    from: usize,
    Ghost(width): Ghost<nat>,
)
    requires
        old(b)@.wf(),
        width > 0,
        from <= routed@.len(),
        rows_shaped(lane_rows(routed@), width, old(b)@.rows.len()),
    ensures
        final(b)@.rows == dead_rows(
            old(b)@.rows,
            lane_rows(routed@),
            from as nat,
            routed@.len(),
        ),
        final(b)@.grows(old(b)@),
        final(b)@.honest() <==> old(b)@.honest() && forall|i: int|
            from <= i < routed@.len() ==> (#[trigger] lane_rows(routed@)[i])[0].eval(
                old(b)@.values,
            ) == F128::zero(),
{
    let ghost r = lane_rows(routed@);
    let mut i: usize = from;
    while i < routed.len()
        invariant
            from <= i <= routed@.len(),
            width > 0,
            r == lane_rows(routed@),
            rows_shaped(r, width, old(b)@.rows.len()),
            b@.rows == dead_rows(old(b)@.rows, r, from as nat, i as nat),
            b@.grows(old(b)@),
            b@.honest() <==> old(b)@.honest() && forall|j: int|
                from <= j < i ==> (#[trigger] r[j])[0].eval(old(b)@.values) == F128::zero(),
        decreases routed@.len() - i,
    {
        assert(all_below(r[i as int], old(b)@.rows.len()) && r[i as int].len() == width);
        assert(r[i as int][0].below(old(b)@.rows.len()));
        let ghost before = b@;
        pin_zero(b, &routed[i][0]);
        i += 1;
    }
}

/// Binds the live rows among the first `n` to come first.
pub(crate) fn pin_live_prefix(
    b: &mut FieldR1csBuilder,
    routed: &Vec<Vec<LinExpr>>,
    Ghost(width): Ghost<nat>,
)
    requires
        old(b)@.wf(),
        width > 0,
        routed@.len() > 0,
        rows_shaped(lane_rows(routed@), width, old(b)@.rows.len()),
    ensures
        final(b)@.rows == prefix_rows(old(b)@.rows, lane_rows(routed@), routed@.len()),
        final(b)@.grows(old(b)@),
        final(b)@.honest() <==> old(b)@.honest() && forall|i: int|
            0 <= i < routed@.len() - 1 ==> #[trigger] follows(
                lane_rows(routed@),
                i,
                old(b)@.values,
            ),
{
    broadcast use lemma_plus_is_zero;

    let ghost r = lane_rows(routed@);
    let ghost z0 = old(b)@.values;
    let mut i: usize = 1;
    while i < routed.len()
        invariant
            1 <= i <= routed@.len(),
            width > 0,
            r == lane_rows(routed@),
            z0 == old(b)@.values,
            rows_shaped(r, width, old(b)@.rows.len()),
            b@.rows == prefix_rows(old(b)@.rows, r, i as nat),
            b@.grows(old(b)@),
            b@.honest() <==> old(b)@.honest() && forall|j: int|
                0 <= j < i - 1 ==> #[trigger] follows(r, j, z0),
        decreases routed@.len() - i,
    {
        broadcast use lemma_plus_is_zero;

        assert(all_below(r[i as int], old(b)@.rows.len()) && r[i as int].len() == width);
        assert(all_below(r[i - 1], old(b)@.rows.len()) && r[i - 1].len() == width);
        assert(r[i as int][0].below(old(b)@.rows.len()) && r[i - 1][0].below(
            old(b)@.rows.len(),
        ));
        let ghost before = b@;
        let previous_dead = routed[i - 1][0].add_const(F128::one());
        pin_product(b, &routed[i][0], &previous_dead);
        proof {
            assert(r[i as int][0].eval(before.values) == r[i as int][0].eval(z0));
            assert(r[i - 1][0].eval(before.values) == r[i - 1][0].eval(z0));
            let here = follows(r, i - 1, z0);
            assert(b@.honest() <==> before.honest() && here);
        }
        i += 1;
    }
}

// ---------------------------------------------------------------------------
// Digits and order of keys
// ---------------------------------------------------------------------------

/// Wires of every row.
pub open spec fn wire_rows(bits: Seq<Vec<Wire>>) -> Seq<Seq<Lin>> {
    Seq::new(bits.len(), |i: int| wire_lins(bits[i]@))
}

/// Every row has `width` digits over wires below `n`, each zero or one.
pub open spec fn digits_shaped(bits: Seq<Seq<Lin>>, width: nat, c: Circuit) -> bool {
    forall|i: int|
        0 <= i < bits.len() ==> (#[trigger] bits[i]).len() == width && all_below(
            bits[i],
            c.rows.len(),
        ) && all_bits(bits[i], c.values)
}

/// The range checks of lane `lane` of the first `n` rows.
pub open spec fn key_rows(
    c: Seq<Row>,
    routed: Seq<Seq<Lin>>,
    lane: int,
    width: nat,
    n: nat,
) -> (Seq<Row>, Seq<Seq<Lin>>)
    decreases n,
{
    if n == 0 {
        (c, Seq::empty())
    } else {
        let (c1, bits) = key_rows(c, routed, lane, width, (n - 1) as nat);
        let (c2, here) = range_rows(c1, routed[n - 1][lane], width);
        (c2, bits.push(here))
    }
}

pub proof fn lemma_key_sound(
    c: Seq<Row>,
    routed: Seq<Seq<Lin>>,
    lane: int,
    width: nat,
    n: nat,
    z: Seq<F128>,
)
    requires
        n <= routed.len(),
        width <= 128,
        sat(key_rows(c, routed, lane, width, n).0, z),
    ensures
        sat(c, z),
        ({
            let bits = key_rows(c, routed, lane, width, n).1;
            &&& bits.len() == n
            &&& forall|i: int|
                #![trigger bits[i]]
                0 <= i < n ==> bits[i].len() == width && all_bits(bits[i], z)
                    && routed[i][lane].eval(z) == F128::of_nat(bits_value(bits[i], z))
                    && bits_value(bits[i], z) < pow2(width) && bits_value(bits[i], z)
                    <= u128::MAX
        }),
    decreases n,
{
    if n > 0 {
        let (c1, bits) = key_rows(c, routed, lane, width, (n - 1) as nat);
        lemma_range_sound(c1, routed[n - 1][lane], width, z);
        lemma_key_sound(c, routed, lane, width, (n - 1) as nat, z);
        let all = key_rows(c, routed, lane, width, n).1;
        assert forall|i: int|
            #![trigger all[i]]
            0 <= i < n implies all[i].len() == width && all_bits(all[i], z) && routed[i][lane].eval(
            z,
        ) == F128::of_nat(bits_value(all[i], z)) && bits_value(all[i], z) < pow2(width)
            && bits_value(all[i], z) <= u128::MAX by {
            if i < n - 1 {
                assert(all[i] == bits[i]);
            }
        }
    }
}

/// Range-checks lane `lane` of the first `n` rows.
pub(crate) fn decompose_keys(
    b: &mut FieldR1csBuilder,
    routed: &Vec<Vec<LinExpr>>,
    lane: usize,
    bit_width: usize,
    n: usize,
    Ghost(width): Ghost<nat>,
) -> (bits: Vec<Vec<Wire>>)
    requires
        old(b)@.wf(),
        lane < width,
        bit_width <= 128,
        n <= routed@.len(),
        rows_shaped(lane_rows(routed@), width, old(b)@.rows.len()),
    ensures
        bits@.len() == n,
        (final(b)@.rows, wire_rows(bits@)) == key_rows(
            old(b)@.rows,
            lane_rows(routed@),
            lane as int,
            bit_width as nat,
            n as nat,
        ),
        final(b)@.grows(old(b)@),
        digits_shaped(wire_rows(bits@), bit_width as nat, final(b)@),
        final(b)@.honest() <==> old(b)@.honest() && forall|i: int|
            0 <= i < n ==> (#[trigger] lane_rows(routed@)[i])[lane as int].eval(
                old(b)@.values,
            ).bits < pow2(bit_width as nat),
{
    let ghost r = lane_rows(routed@);
    let ghost z0 = old(b)@.values;
    let mut bits: Vec<Vec<Wire>> = Vec::with_capacity(n);
    let mut i: usize = 0;
    assert(wire_rows(bits@) =~= Seq::empty());
    while i < n
        invariant
            i <= n <= routed@.len(),
            lane < width,
            bit_width <= 128,
            r == lane_rows(routed@),
            z0 == old(b)@.values,
            rows_shaped(r, width, old(b)@.rows.len()),
            bits@.len() == i,
            (b@.rows, wire_rows(bits@)) == key_rows(
                old(b)@.rows,
                r,
                lane as int,
                bit_width as nat,
                i as nat,
            ),
            b@.grows(old(b)@),
            digits_shaped(wire_rows(bits@), bit_width as nat, b@),
            b@.honest() <==> old(b)@.honest() && forall|j: int|
                0 <= j < i ==> (#[trigger] r[j])[lane as int].eval(z0).bits < pow2(
                    bit_width as nat,
                ),
        decreases n - i,
    {
        assert(all_below(r[i as int], old(b)@.rows.len()) && r[i as int].len() == width);
        assert(r[i as int][lane as int].below(old(b)@.rows.len()));
        let ghost before = b@;
        let ghost prior = bits@;
        let here = range_check_bits(b, &routed[i][lane], bit_width);
        bits.push(here);
        proof {
            assert(wire_rows(bits@) =~= wire_rows(prior).push(wire_lins(here@)));

            lemma_digits_stable(before, b@, wire_rows(prior), bit_width as nat);
        }
        i += 1;
    }
    bits
}


pub proof fn lemma_digits_stable(old: Circuit, new: Circuit, bits: Seq<Seq<Lin>>, width: nat)
    requires
        new.grows(old),
        digits_shaped(bits, width, old),
    ensures
        digits_shaped(bits, width, new),
        forall|i: int|
            0 <= i < bits.len() ==> bits_value(#[trigger] bits[i], new.values) == bits_value(
                bits[i],
                old.values,
            ),
{
    assert forall|i: int| 0 <= i < bits.len() implies (#[trigger] bits[i]).len() == width
        && all_below(bits[i], new.rows.len()) && all_bits(bits[i], new.values) && bits_value(
        bits[i],
        new.values,
    ) == bits_value(bits[i], old.values) by {
        lemma_bits_stable(old, new, bits[i]);
    }
}

/// The order of adjacent keys among the first `n` rows: the rows, the highest
/// differing digit of each pair, and whether both rows of a pair are live.
pub open spec fn order_rows(
    c: Seq<Row>,
    routed: Seq<Seq<Lin>>,
    bits: Seq<Seq<Lin>>,
    n: nat,
) -> (Seq<Row>, Seq<Seq<Lin>>, Seq<Lin>)
    decreases n,
{
    if n <= 1 {
        (c, Seq::empty(), Seq::empty())
    } else {
        let (c1, highest, both) = order_rows(c, routed, bits, (n - 1) as nat);
        let (c2, gate) = mul_rows(c1, routed[n - 2][0], routed[n - 1][0]);
        let (c3, _, less, high) = less_rows(c2, bits[n - 2], bits[n - 1], 0);
        (
            gate_rows(c3, gate, less.plus_const(F128::one())),
            highest.push(high),
            both.push(gate),
        )
    }
}

/// Two adjacent rows that are both live have ascending keys.
pub open spec fn ascends(
    routed: Seq<Seq<Lin>>,
    bits: Seq<Seq<Lin>>,
    i: int,
    z: Seq<F128>,
) -> bool {
    ||| routed[i][0].eval(z).times(routed[i + 1][0].eval(z)) == F128::zero()
    ||| bits_value(bits[i], z) < bits_value(bits[i + 1], z)
}

/// What the order constraints bind of a pair.
pub open spec fn pair_bound(
    routed: Seq<Seq<Lin>>,
    bits: Seq<Seq<Lin>>,
    highest: Seq<Seq<Lin>>,
    both: Seq<Lin>,
    i: int,
    z: Seq<F128>,
) -> bool {
    &&& ascends(routed, bits, i, z)
    &&& both[i].eval(z) == routed[i][0].eval(z).times(routed[i + 1][0].eval(z))
    &&& highest[i].len() == bits[i].len()
    &&& forall|j: int|
        0 <= j < bits[i].len() ==> (#[trigger] highest[i][j]).eval(z) == F128::of_bool(
            is_msb(bits[i], bits[i + 1], j as nat, z),
        )
}

pub proof fn lemma_order_sound(
    c: Seq<Row>,
    routed: Seq<Seq<Lin>>,
    bits: Seq<Seq<Lin>>,
    n: nat,
    width: nat,
    z: Seq<F128>,
)
    requires
        n <= routed.len(),
        n <= bits.len(),
        forall|i: int| 0 <= i < n ==> (#[trigger] bits[i]).len() == width && all_bits(bits[i], z),
        sat(order_rows(c, routed, bits, n).0, z),
    ensures
        sat(c, z),
        ({
            let (_, highest, both) = order_rows(c, routed, bits, n);
            &&& highest.len() == if n == 0 {
                0
            } else {
                n - 1
            }
            &&& both.len() == highest.len()
            &&& forall|i: int|
                0 <= i < n - 1 ==> #[trigger] pair_bound(routed, bits, highest, both, i, z)
        }),
    decreases n,
{
    broadcast use lemma_plus_is_zero;

    if n > 1 {
        let (c1, highest, both) = order_rows(c, routed, bits, (n - 1) as nat);
        let (c2, gate) = mul_rows(c1, routed[n - 2][0], routed[n - 1][0]);
        let (c3, _, less, high) = less_rows(c2, bits[n - 2], bits[n - 1], 0);
        assert(bits[n - 2].len() == width && bits[n - 1].len() == width);
        lemma_gate_sound(c3, gate, less.plus_const(F128::one()), z);
        lemma_less_sound(c2, bits[n - 2], bits[n - 1], 0, z);
        lemma_mul_sound(c1, routed[n - 2][0], routed[n - 1][0], z);
        lemma_order_sound(c, routed, bits, (n - 1) as nat, width, z);
        assert(bits[n - 2].skip(0) =~= bits[n - 2]);
        assert(bits[n - 1].skip(0) =~= bits[n - 1]);
        let (_, hs, bs) = order_rows(c, routed, bits, n);
        assert forall|i: int| 0 <= i < n - 1 implies #[trigger] pair_bound(
            routed,
            bits,
            hs,
            bs,
            i,
            z,
        ) by {
            if i < n - 2 {
                assert(pair_bound(routed, bits, highest, both, i, z));
            } else {
                assert forall|j: int| 0 <= j < bits[i].len() implies (#[trigger] hs[i][j]).eval(z)
                    == F128::of_bool(is_msb(bits[i], bits[i + 1], j as nat, z)) by {
                    assert(hs[i][j] == high[j - 0]);
                }
            }
        }
    }
}

/// Binds the keys of adjacent live rows to ascend.
pub(crate) fn pin_key_order(
    b: &mut FieldR1csBuilder,
    routed: &Vec<Vec<LinExpr>>,
    bits: &Vec<Vec<Wire>>,
    Ghost(width): Ghost<nat>,
    Ghost(bit_width): Ghost<nat>,
) -> (r: (Vec<Vec<LinExpr>>, Vec<LinExpr>))
    requires
        old(b)@.wf(),
        width > 0,
        0 < bits@.len() <= routed@.len(),
        rows_shaped(lane_rows(routed@), width, old(b)@.rows.len()),
        digits_shaped(wire_rows(bits@), bit_width, old(b)@),
    ensures
        r.0@.len() == bits@.len() - 1,
        r.1@.len() == bits@.len() - 1,
        (final(b)@.rows, lane_rows(r.0@), lins(r.1@)) == order_rows(
            old(b)@.rows,
            lane_rows(routed@),
            wire_rows(bits@),
            bits@.len(),
        ),
        final(b)@.grows(old(b)@),
        rows_shaped(lane_rows(r.0@), bit_width, final(b)@.rows.len()),
        all_below(lins(r.1@), final(b)@.rows.len()),
        final(b)@.honest() <==> old(b)@.honest() && forall|i: int|
            0 <= i < bits@.len() - 1 ==> #[trigger] ascends(
                lane_rows(routed@),
                wire_rows(bits@),
                i,
                old(b)@.values,
            ),
{
    let ghost ro = lane_rows(routed@);
    let ghost bo = wire_rows(bits@);
    let ghost z0 = old(b)@.values;
    let mut highest: Vec<Vec<LinExpr>> = Vec::with_capacity(bits.len() - 1);
    let mut both: Vec<LinExpr> = Vec::with_capacity(bits.len() - 1);
    let mut i: usize = 1;
    assert(lane_rows(highest@) =~= Seq::empty());
    assert(lins(both@) =~= Seq::empty());
    while i < bits.len()
        invariant
            1 <= i <= bits@.len(),
            width > 0,
            bits@.len() <= routed@.len(),
            ro == lane_rows(routed@),
            bo == wire_rows(bits@),
            z0 == old(b)@.values,
            rows_shaped(ro, width, old(b)@.rows.len()),
            digits_shaped(bo, bit_width, old(b)@),
            highest@.len() == i - 1,
            both@.len() == i - 1,
            (b@.rows, lane_rows(highest@), lins(both@)) == order_rows(
                old(b)@.rows,
                ro,
                bo,
                i as nat,
            ),
            b@.grows(old(b)@),
            rows_shaped(lane_rows(highest@), bit_width, b@.rows.len()),
            all_below(lins(both@), b@.rows.len()),
            b@.honest() <==> old(b)@.honest() && forall|j: int|
                0 <= j < i - 1 ==> #[trigger] ascends(ro, bo, j, z0),
        decreases bits@.len() - i,
    {
        broadcast use lemma_plus_is_zero;

        let ghost before = b@;
        let ghost ph = highest@;
        let ghost pb = both@;
        proof {
            assert(all_below(ro[i as int], old(b)@.rows.len()) && ro[i as int].len() == width);
            assert(all_below(ro[i - 1], old(b)@.rows.len()) && ro[i - 1].len() == width);
            assert(ro[i as int][0].below(old(b)@.rows.len()));
            assert(ro[i - 1][0].below(old(b)@.rows.len()));
            assert(bo[i as int] == wire_lins(bits@[i as int]@));
            assert(bo[i - 1] == wire_lins(bits@[i - 1]@));
            lemma_digits_stable(old(b)@, before, bo, bit_width);
            assert(bo[i as int].len() == bit_width && bo[i - 1].len() == bit_width);
        }
        let gate = crate::circuit::mul(b, &routed[i - 1][0], &routed[i][0]);
        let ghost b1 = b@;
        proof {
            lemma_digits_stable(before, b1, bo, bit_width);
        }
        let (less, high) = strict_less_bits(b, &bits[i - 1], &bits[i]);
        let ghost b2 = b@;
        let not_less = less.add_const(F128::one());
        pin_product(b, &gate, &not_less);
        proof {
            let z2 = b2.values;
            lemma_digits_stable(b1, b2, bo, bit_width);
            let here = ascends(ro, bo, i - 1, z0);
            assert(gate@.eval(z2) == ro[i - 1][0].eval(z0).times(ro[i as int][0].eval(z0)));
            if b2.honest() {
                lemma_less_sound(b1.rows, bo[i - 1], bo[i as int], 0, z2);
                assert(bo[i - 1].skip(0) =~= bo[i - 1]);
                assert(bo[i as int].skip(0) =~= bo[i as int]);
                assert(bits_value(bo[i - 1], z2) == bits_value(bo[i - 1], z0));
                assert(bits_value(bo[i as int], z2) == bits_value(bo[i as int], z0));
                assert(not_less@.eval(z2) == F128::zero() <==> bits_value(bo[i - 1], z0)
                    < bits_value(bo[i as int], z0));
            }
            assert(b@.honest() <==> before.honest() && here);
        }
        highest.push(high);
        both.push(gate);
        proof {
            assert(lane_rows(highest@) =~= lane_rows(ph).push(lins(high@)));
            assert(lins(both@) =~= lins(pb).push(gate@));
            crate::permutation_network::lemma_rows_stable(before, b@, lane_rows(ph), bit_width);
            assert(all_below(lins(high@), b@.rows.len())) by {
                assert forall|j: int| 0 <= j < lins(high@).len() implies (
                #[trigger] lins(high@)[j]).below(b@.rows.len()) by {
                    assert(lins(high@)[j].below(b2.rows.len()));
                }
            }
            assert forall|j: int| 0 <= j < lins(both@).len() implies (
            #[trigger] lins(both@)[j]).below(b@.rows.len()) by {
                if j < pb.len() {
                    assert(lins(pb)[j].below(before.rows.len()));
                }
            }
        }
        i += 1;
    }
    (highest, both)
}

// ---------------------------------------------------------------------------
// Compaction
// ---------------------------------------------------------------------------

/// Candidates padded with rows that do nothing.
pub open spec fn padded(cands: Seq<Seq<Lin>>, m: nat) -> Seq<Seq<Lin>> {
    cands + Seq::new((m - cands.len()) as nat, |i: int| zero_lanes())
}

/// A compaction: its rows and what it hands on.
pub struct Compaction {
    pub rows: Seq<Row>,
    pub routed: Seq<Seq<Lin>>,
    pub slot_bits: Seq<Seq<Lin>>,
    pub highest: Seq<Seq<Lin>>,
    pub both_live: Seq<Lin>,
}

/// The compaction of candidates to at most `cap` live rows. It depends on the
/// candidate expressions and the capacity alone.
pub open spec fn compaction(c: Seq<Row>, cands: Seq<Seq<Lin>>, cap: nat) -> Compaction {
    let m = next_pow2(cands.len());
    let c1 = all_source_rows(c, cands, cands.len());
    let (c2, routed) = network_rows(c1, padded(cands, m), log2(m));
    let c3 = dead_rows(c2, routed, cap, m);
    let c4 = prefix_rows(c3, routed, m);
    let (c5, slot_bits) = key_rows(c4, routed, 1, 32, cap);
    let (c6, highest, both_live) = order_rows(c5, routed, slot_bits, cap);
    Compaction { rows: c6, routed, slot_bits, highest, both_live }
}

/// Slot-sorted live prefix of action rows.
pub struct CompactedActionTrace {
    pub rows: Vec<ActionRowTrace>,
    /// The 32 digits of each returned row's slot index, least significant
    /// first.
    pub slot_bits: Vec<Vec<Wire>>,
    /// For each adjacent pair of returned rows, the digit that is the highest
    /// difference of their slots, one-hot. Equal slots give all zeros.
    pub adjacent_msb_one_hot: Vec<Vec<LinExpr>>,
    /// For each adjacent pair of returned rows, whether both are live.
    pub adjacent_both_live: Vec<LinExpr>,
    pub source_rows: usize,
    pub sort_rows: usize,
}

/// The lanes of evaluated candidates that a compaction accepts: every row is
/// in order, no two live rows share a slot, slots have 32 digits, and the live
/// rows fit the capacity.
pub open spec fn compactable(rows: Seq<Seq<F128>>, cap: nat) -> bool {
    &&& forall|i: int| 0 <= i < rows.len() ==> action_ok(#[trigger] rows[i])
    &&& orderable(rows, cap, 32)
}

/// Keys have `w` digits, no two live rows share one, and at most `cap` rows
/// are live.
pub open spec fn orderable(rows: Seq<Seq<F128>>, cap: nat, w: nat) -> bool {
    &&& forall|i: int| 0 <= i < rows.len() ==> (#[trigger] rows[i])[1].bits < pow2(w)
    &&& forall|i: int, j: int|
        0 <= i < j < rows.len() && (#[trigger] rows[i])[0] == F128::one() && (
        #[trigger] rows[j])[0] == F128::one() ==> rows[i][1] != rows[j][1]
    &&& count_live(rows) <= cap
}

/// A row is live or not, and a dead one has key zero.
pub open spec fn keyed(r: Seq<F128>) -> bool {
    r[0].is_bit() && (r[0] == F128::zero() ==> r[1] == F128::zero())
}

/// What a satisfied compaction binds.
pub open spec fn compacted(
    src: Seq<Seq<F128>>,
    out: Seq<Seq<F128>>,
    k: Compaction,
    cap: nat,
    z: Seq<F128>,
) -> bool {
    &&& out.to_multiset() == src.to_multiset()
    &&& forall|i: int| 0 <= i < out.len() ==> action_ok(#[trigger] out[i])
    &&& forall|i: int| cap <= i < out.len() ==> (#[trigger] out[i])[0] == F128::zero()
    &&& forall|i: int| 0 <= i < out.len() - 1 ==> #[trigger] follows(k.routed, i, z)
    &&& k.slot_bits.len() == cap
    &&& forall|i: int|
        #![trigger k.slot_bits[i]]
        0 <= i < cap ==> k.slot_bits[i].len() == 32 && all_bits(k.slot_bits[i], z) && out[i][1]
            == F128::of_nat(bits_value(k.slot_bits[i], z)) && bits_value(k.slot_bits[i], z)
            < pow2(32)
    &&& forall|i: int|
        0 <= i < cap - 1 ==> #[trigger] pair_bound(
            k.routed,
            k.slot_bits,
            k.highest,
            k.both_live,
            i,
            z,
        )
}

proof fn lemma_padded_wide(cands: Seq<Seq<Lin>>, m: nat)
    requires
        rows_wide(cands, 6),
        cands.len() <= m,
    ensures
        rows_wide(padded(cands, m), 6),
        padded(cands, m).len() == m,
{
    let p = padded(cands, m);
    assert forall|i: int| 0 <= i < p.len() implies (#[trigger] p[i]).len() == 6 by {
        if i < cands.len() {
            assert(p[i] == cands[i]);
        }
    }
}

proof fn lemma_zero_lanes(z: Seq<F128>)
    ensures
        action_ok(row_eval(zero_lanes(), z)),
        row_eval(zero_lanes(), z)[0] == F128::zero(),
        row_eval(zero_lanes(), z)[1] == F128::zero(),
{
}

/// Rows of a reordering come from the original.
pub proof fn lemma_same_rows(a: Seq<Seq<F128>>, b: Seq<Seq<F128>>, i: int) -> (j: int)
    requires
        a.to_multiset() == b.to_multiset(),
        0 <= i < a.len(),
    ensures
        0 <= j < b.len(),
        b[j] == a[i],
{
    a.to_multiset_ensures();
    b.to_multiset_ensures();
    assert(a.contains(a[i]));
    assert(a.to_multiset().count(a[i]) > 0);
    assert(b.contains(a[i]));
    choose|j: int| 0 <= j < b.len() && b[j] == a[i]
}

/// A satisfied compaction returns the candidates, padded, as a live prefix in
/// strictly ascending slot order that fits the capacity, with the digits of
/// each slot and the highest difference of each adjacent pair.
pub proof fn lemma_compaction_sound(
    c: Seq<Row>,
    cands: Seq<Seq<Lin>>,
    cap: nat,
    z: Seq<F128>,
)
    requires
        cands.len() >= 1,
        1 <= cap <= cands.len(),
        rows_wide(cands, 6),
        sat(compaction(c, cands, cap).rows, z),
    ensures
        sat(c, z),
        compacted(
            rows_eval(padded(cands, next_pow2(cands.len())), z),
            rows_eval(compaction(c, cands, cap).routed, z),
            compaction(c, cands, cap),
            cap,
            z,
        ),
        forall|i: int| 0 <= i < cands.len() ==> action_ok(row_eval(#[trigger] cands[i], z)),
{
    let k = compaction(c, cands, cap);
    let m = next_pow2(cands.len());
    lemma_next_pow2(cands.len());
    lemma_padded_wide(cands, m);
    let pad = padded(cands, m);
    let c1 = all_source_rows(c, cands, cands.len());
    let (c2, routed) = network_rows(c1, pad, log2(m));
    lemma_network_len(c1, pad, log2(m), 6);
    let c3 = dead_rows(c2, routed, cap, m);
    let c4 = prefix_rows(c3, routed, m);
    let (c5, slot_bits) = key_rows(c4, routed, 1, 32, cap);
    lemma_order_prefix(c5, routed, slot_bits, cap, z);
    lemma_key_sound(c4, routed, 1, 32, cap, z);
    lemma_order_sound(c5, routed, slot_bits, cap, 32, z);
    lemma_prefix_sound(c3, routed, m, z);
    lemma_dead_sound(c2, routed, cap, m, z);
    lemma_network_permutes(c1, pad, log2(m), 6, z);
    lemma_all_source_sound(c, cands, cands.len(), z);
    let src = rows_eval(pad, z);
    let out = rows_eval(routed, z);
    lemma_zero_lanes(z);
    assert forall|i: int| 0 <= i < src.len() implies action_ok(#[trigger] src[i]) by {
        if i < cands.len() {
            assert(pad[i] == cands[i]);
        } else {
            assert(pad[i] == zero_lanes());
        }
    }
    assert forall|i: int| 0 <= i < out.len() implies action_ok(#[trigger] out[i]) by {
        let j = lemma_same_rows(out, src, i);
        assert(action_ok(src[j]));
    }
    assert forall|i: int| cap <= i < out.len() implies (#[trigger] out[i])[0] == F128::zero() by {
        assert(routed[i][0].eval(z) == F128::zero());
        assert(routed[i].len() == 6);
    }
    assert forall|i: int|
        #![trigger k.slot_bits[i]]
        0 <= i < cap implies k.slot_bits[i].len() == 32 && all_bits(k.slot_bits[i], z)
        && out[i][1] == F128::of_nat(bits_value(k.slot_bits[i], z)) && bits_value(
        k.slot_bits[i],
        z,
    ) < pow2(32) by {
        assert(routed[i].len() == 6);
    }
}

/// What satisfies the order constraints satisfies the rows before them.
pub proof fn lemma_order_prefix(
    c: Seq<Row>,
    routed: Seq<Seq<Lin>>,
    bits: Seq<Seq<Lin>>,
    n: nat,
    z: Seq<F128>,
)
    requires
        sat(order_rows(c, routed, bits, n).0, z),
    ensures
        sat(c, z),
    decreases n,
{
    if n > 1 {
        let (c1, highest, both) = order_rows(c, routed, bits, (n - 1) as nat);
        let (c2, gate) = mul_rows(c1, routed[n - 2][0], routed[n - 1][0]);
        let (c3, _, less, high) = less_rows(c2, bits[n - 2], bits[n - 1], 0);
        lemma_gate_sound(c3, gate, less.plus_const(F128::one()), z);
        crate::bits::lemma_less_prefix(c2, bits[n - 2], bits[n - 1], 0, z);
        lemma_mul_sound(c1, routed[n - 2][0], routed[n - 1][0], z);
        lemma_order_prefix(c, routed, bits, (n - 1) as nat, z);
    }
}

/// Two adjacent evaluated rows that are both live have ascending keys.
pub open spec fn slots_ascend(out: Seq<Seq<F128>>, i: int) -> bool {
    ||| out[i][0].times(out[i + 1][0]) == F128::zero()
    ||| out[i][1].bits < out[i + 1][1].bits
}

pub open spec fn live_follows(out: Seq<Seq<F128>>, i: int) -> bool {
    out[i + 1][0] == F128::zero() || out[i][0] == F128::one()
}

/// The output is a live prefix of at most `cap` rows, with `w`-digit keys in
/// strictly ascending order.
pub open spec fn in_order(out: Seq<Seq<F128>>, cap: nat, w: nat) -> bool {
    &&& forall|i: int| cap <= i < out.len() ==> (#[trigger] out[i])[0] == F128::zero()
    &&& forall|i: int| 0 <= i < out.len() - 1 ==> #[trigger] live_follows(out, i)
    &&& forall|i: int| 0 <= i < cap ==> (#[trigger] out[i])[1].bits < pow2(w)
    &&& forall|i: int| 0 <= i < cap - 1 ==> #[trigger] slots_ascend(out, i)
}

/// Everything before a live row is live.
proof fn lemma_live_before(out: Seq<Seq<F128>>, i: int, j: int)
    requires
        0 <= i <= j < out.len(),
        forall|x: int| 0 <= x < out.len() ==> (#[trigger] out[x])[0].is_bit(),
        forall|x: int| 0 <= x < out.len() - 1 ==> #[trigger] live_follows(out, x),
        out[j][0] == F128::one(),
    ensures
        out[i][0] == F128::one(),
    decreases j - i,
{
    if i < j {
        assert(live_follows(out, j - 1));
        lemma_live_before(out, i, j - 1);
    }
}

proof fn lemma_slots_chain(out: Seq<Seq<F128>>, cap: nat, w: nat, i: int, j: int)
    requires
        0 <= i < j < cap <= out.len(),
        forall|x: int| 0 <= x < out.len() ==> (#[trigger] out[x])[0].is_bit(),
        in_order(out, cap, w),
        out[j][0] == F128::one(),
    ensures
        out[i][1].bits < out[j][1].bits,
    decreases j - i,
{
    lemma_live_before(out, j - 1, j);
    lemma_live_before(out, i, j);
    assert(slots_ascend(out, j - 1));
    assert(F128::one().times(F128::one()) == F128::one());
    if i < j - 1 {
        lemma_slots_chain(out, cap, w, i, j - 1);
    }
}

/// Sorted by the witness order, the rows come out in order exactly when they
/// can be ordered.
pub proof fn lemma_in_order(
    src: Seq<Seq<F128>>,
    out: Seq<Seq<F128>>,
    order: Seq<usize>,
    perm: Seq<usize>,
    live: Seq<bool>,
    key: Seq<u128>,
    cap: nat,
    w: nat,
)
    requires
        cap <= src.len(),
        out.len() == src.len(),
        order.len() == src.len(),
        live.len() == src.len(),
        key.len() == src.len(),
        inverses(order, perm),
        is_sorted(live, key, order),
        forall|i: int| 0 <= i < src.len() ==> keyed(#[trigger] src[i]),
        forall|i: int|
            0 <= i < src.len() ==> #[trigger] live[i] == (src[i][0] == F128::one()) && key[i]
                == src[i][1].bits,
        forall|i: int| 0 <= i < src.len() ==> out[#[trigger] perm[i] as int] == src[i],
        count_live(out) == count_live(src),
    ensures
        in_order(out, cap, w) <==> orderable(src, cap, w),
{
    let n = src.len();
    lemma_inverse_permutation(order, perm);
    assert forall|o: int| 0 <= o < n implies #[trigger] out[o] == src[order[o] as int] by {
        assert(back(order, perm, o));
        assert(order[o] < n);
        let i = order[o] as int;
        assert(out[perm[i] as int] == src[i]);
    }
    assert forall|o: int| 0 <= o < n implies keyed(#[trigger] out[o]) by {
        assert(order[o] < n);
    }
    if orderable(src, cap, w) {
        assert forall|i: int| cap <= i < n implies (#[trigger] out[i])[0] == F128::zero() by {
            if out[i][0] == F128::one() {
                assert forall|x: int| 0 <= x < i + 1 implies (#[trigger] out[x])[0]
                    == F128::one() by {
                    if x < i {
                        lemma_sorted_pair(live, key, order, x, i);
                        assert(order[x] < n && order[i] < n);
                        assert(out[x] == src[order[x] as int] && out[i] == src[order[i] as int]);
                        assert(live[order[x] as int] == (src[order[x] as int][0] == F128::one()));
                        assert(live[order[i] as int] == (src[order[i] as int][0] == F128::one()));
                    }
                }
                lemma_count_prefix(out, (i + 1) as nat);
            }
        }
        assert forall|i: int| 0 <= i < n - 1 implies #[trigger] live_follows(out, i) by {
            lemma_sorted_pair(live, key, order, i, i + 1);
            assert(order[i] < n && order[i + 1] < n);
            assert(out[i] == src[order[i] as int] && out[i + 1] == src[order[i + 1] as int]);
            assert(live[order[i] as int] == (src[order[i] as int][0] == F128::one()));
            assert(live[order[i + 1] as int] == (src[order[i + 1] as int][0] == F128::one()));
        }
        assert forall|i: int| 0 <= i < cap implies (#[trigger] out[i])[1].bits < pow2(w) by {
            assert(order[i] < n);
            assert(src[order[i] as int][1].bits < pow2(w));
        }
        assert forall|i: int| 0 <= i < cap - 1 implies #[trigger] slots_ascend(out, i) by {
            let x = order[i] as int;
            let y = order[i + 1] as int;
            lemma_sorted_pair(live, key, order, i, i + 1);
            assert(order[i] < n && order[i + 1] < n && order[i] != order[i + 1]);
            assert(out[i] == src[x] && out[i + 1] == src[y]);
            assert(live[x] == (src[x][0] == F128::one()) && live[y] == (src[y][0]
                == F128::one()));
            if out[i][0] == F128::one() && out[i + 1][0] == F128::one() {
                if x < y {
                    assert(src[x][1] != src[y][1]);
                } else {
                    assert(src[y][1] != src[x][1]);
                }
            }
        }
    }
    if in_order(out, cap, w) {
        assert forall|i: int| 0 <= i < n implies (#[trigger] src[i])[1].bits < pow2(w) by {
            let o = perm[i] as int;
            assert(out[perm[i] as int] == src[i]);
            assert(perm[i] < n);
            if o >= cap {
                assert(out[o][0] == F128::zero());
                lemma_pow2_pos(w);
            }
        }
        assert forall|i: int, j: int|
            0 <= i < j < n && (#[trigger] src[i])[0] == F128::one() && (#[trigger] src[j])[0]
                == F128::one() implies src[i][1] != src[j][1] by {
            assert(out[perm[i] as int] == src[i] && out[perm[j] as int] == src[j]);
            assert(perm[i] < n && perm[j] < n && perm[i] != perm[j]);
            let p = perm[i] as int;
            let q = perm[j] as int;
            if p < q {
                lemma_slots_chain(out, cap, w, p, q);
            } else {
                lemma_slots_chain(out, cap, w, q, p);
            }
        }
        assert forall|i: int| cap <= i < n implies (#[trigger] out[i])[0] != F128::one() by {
            assert(out[i][0] == F128::zero());
        }
        lemma_count_bound(out, cap);
    }
}

/// Rows that do nothing leave candidates as compactable as they were.
proof fn lemma_compactable_padded(cands: Seq<Seq<Lin>>, m: nat, cap: nat, z: Seq<F128>)
    requires
        cands.len() <= m,
    ensures
        compactable(rows_eval(padded(cands, m), z), cap) <==> compactable(
            rows_eval(cands, z),
            cap,
        ),
    decreases m - cands.len(),
{
    if cands.len() == m {
        assert(padded(cands, m) =~= cands);
    } else {
        let more = cands.push(zero_lanes());
        assert(padded(cands, m) =~= padded(more, m));
        lemma_compactable_padded(more, m, cap, z);
        let a = rows_eval(cands, z);
        let b = rows_eval(more, z);
        lemma_zero_lanes(z);
        assert(b =~= a.push(row_eval(zero_lanes(), z)));
        assert(b.drop_last() =~= a);
        lemma_pow2_pos(32);
        assert(count_live(b) == count_live(a));
        if compactable(b, cap) {
            assert forall|i: int| 0 <= i < a.len() implies action_ok(#[trigger] a[i])
                && a[i][1].bits < pow2(32) by {
                assert(a[i] == b[i]);
                assert(action_ok(b[i]));
            }
            assert forall|i: int, j: int|
                0 <= i < j < a.len() && (#[trigger] a[i])[0] == F128::one() && (
                #[trigger] a[j])[0] == F128::one() implies a[i][1] != a[j][1] by {
                assert(a[i] == b[i] && a[j] == b[j]);
            }
        }
        if compactable(a, cap) {
            assert forall|i: int| 0 <= i < b.len() implies action_ok(#[trigger] b[i])
                && b[i][1].bits < pow2(32) by {
                if i < a.len() {
                    assert(a[i] == b[i]);
                    assert(action_ok(a[i]));
                }
            }
            assert forall|i: int, j: int|
                0 <= i < j < b.len() && (#[trigger] b[i])[0] == F128::one() && (
                #[trigger] b[j])[0] == F128::one() implies b[i][1] != b[j][1] by {
                assert(a[i] == b[i]);
                if j < a.len() {
                    assert(a[j] == b[j]);
                }
            }
        }
    }
}

/// Binds every candidate.
fn constrain_sources(b: &mut FieldR1csBuilder, candidates: &Vec<ActionRowTrace>)
    requires
        old(b)@.wf(),
        rows_shaped(action_rows(candidates@), 6, old(b)@.rows.len()),
    ensures
        final(b)@.rows == all_source_rows(
            old(b)@.rows,
            action_rows(candidates@),
            candidates@.len(),
        ),
        final(b)@.grows(old(b)@),
        final(b)@.honest() <==> old(b)@.honest() && forall|i: int|
            0 <= i < candidates@.len() ==> action_ok(
                row_eval(#[trigger] action_rows(candidates@)[i], old(b)@.values),
            ),
{
    let ghost cands = action_rows(candidates@);
    let ghost z0 = old(b)@.values;
    let mut i: usize = 0;
    while i < candidates.len()
        invariant
            i <= candidates@.len(),
            cands == action_rows(candidates@),
            z0 == old(b)@.values,
            rows_shaped(cands, 6, old(b)@.rows.len()),
            b@.rows == all_source_rows(old(b)@.rows, cands, i as nat),
            b@.grows(old(b)@),
            b@.honest() <==> old(b)@.honest() && forall|j: int|
                0 <= j < i ==> action_ok(row_eval(#[trigger] cands[j], z0)),
        decreases candidates@.len() - i,
    {
        let ghost before = b@;
        proof {
            crate::permutation_network::lemma_rows_stable(old(b)@, before, cands, 6);
            assert(cands[i as int] == candidates@[i as int].lanes());
            assert(rows_eval(cands, before.values)[i as int] == rows_eval(cands, z0)[i as int]);
        }
        constrain_source_row(b, &candidates[i]);
        i += 1;
    }
}

/// Compacts candidates in body order to a live prefix in slot order.
///
/// See [`lemma_compaction_sound`] for what the constraints bind.
pub fn compact_action_rows(
    b: &mut FieldR1csBuilder,
    candidates: &Vec<ActionRowTrace>,
    live_capacity: usize,
) -> (r: CompactedActionTrace)
    requires
        old(b)@.wf(),
        1 <= live_capacity <= candidates@.len() <= usize::MAX / 2 + 1,
        rows_shaped(action_rows(candidates@), 6, old(b)@.rows.len()),
    ensures
        ({
            let k = compaction(old(b)@.rows, action_rows(candidates@), live_capacity as nat);
            &&& final(b)@.rows == k.rows
            &&& action_rows(r.rows@) == k.routed.take(live_capacity as int)
            &&& wire_rows(r.slot_bits@) == k.slot_bits
            &&& lane_rows(r.adjacent_msb_one_hot@) == k.highest
            &&& lins(r.adjacent_both_live@) == k.both_live
        }),
        r.rows@.len() == live_capacity,
        r.slot_bits@.len() == live_capacity,
        r.adjacent_msb_one_hot@.len() == live_capacity - 1,
        r.adjacent_both_live@.len() == live_capacity - 1,
        r.source_rows == candidates@.len(),
        r.sort_rows == next_pow2(candidates@.len()),
        final(b)@.grows(old(b)@),
        rows_shaped(action_rows(r.rows@), 6, final(b)@.rows.len()),
        digits_shaped(wire_rows(r.slot_bits@), 32, final(b)@),
        rows_shaped(lane_rows(r.adjacent_msb_one_hot@), 32, final(b)@.rows.len()),
        all_below(lins(r.adjacent_both_live@), final(b)@.rows.len()),
        final(b)@.honest() <==> old(b)@.honest() && compactable(
            rows_eval(action_rows(candidates@), old(b)@.values),
            live_capacity as nat,
        ),
{
    let source_count: usize = candidates.len();
    let sort_rows: usize = next_power_of_two(source_count);
    let ghost cands = action_rows(candidates@);
    let ghost m = sort_rows as nat;
    let ghost pad = padded(cands, m);
    let ghost z0 = old(b)@.values;
    let ghost cap = live_capacity as nat;
    constrain_sources(b, candidates);
    let ghost b1 = b@;
    proof {
        crate::permutation_network::lemma_rows_stable(old(b)@, b1, cands, 6);
    }

    // The routing witness.
    let mut lanes: Vec<Vec<LinExpr>> = Vec::with_capacity(sort_rows);
    let mut live: Vec<bool> = Vec::with_capacity(sort_rows);
    let mut key: Vec<u128> = Vec::with_capacity(sort_rows);
    let mut i: usize = 0;
    while i < sort_rows
        invariant
            i <= sort_rows,
            source_count == candidates@.len(),
            source_count <= sort_rows,
            m == sort_rows,
            b@ == b1,
            b1.wf(),
            cands == action_rows(candidates@),
            pad == padded(cands, m),
            rows_shaped(cands, 6, b1.rows.len()),
            lanes@.len() == i,
            live@.len() == i,
            key@.len() == i,
            forall|j: int| 0 <= j < i ==> lins((#[trigger] lanes@[j])@) == pad[j],
            forall|j: int|
                0 <= j < i ==> #[trigger] live@[j] == (row_eval(pad[j], b1.values)[0]
                    == F128::one()),
            forall|j: int|
                0 <= j < i ==> #[trigger] key@[j] == row_eval(pad[j], b1.values)[1].bits,
        decreases sort_rows - i,
    {
        if i < source_count {
            assert(pad[i as int] == cands[i as int]);
            assert(cands[i as int] == candidates@[i as int].lanes());
            assert(all_below(cands[i as int], b1.rows.len()));
            assert(cands[i as int][0].below(b1.rows.len()) && cands[i as int][1].below(
                b1.rows.len(),
            ));
            lanes.push(action_lanes(&candidates[i]));
            live.push(native_bool(&candidates[i].live, b));
            key.push(candidates[i].slot_index.eval(&b.values).bits);
        } else {
            assert(pad[i as int] == zero_lanes());
            lanes.push(action_lanes(&zero_action()));
            live.push(false);
            key.push(0);
        }
        i += 1;
    }
    let order = sort_live_first(&live, &key);
    let permutation = invert(&order);
    proof {
        lemma_inverse_permutation(order@, permutation@);
        assert(lane_rows(lanes@) =~= pad);
        lemma_padded_shaped(cands, m, b1.rows.len());
        assert(lanes@[0]@.len() == 6) by {
            assert(lins(lanes@[0]@).len() == 6);
        }
    }
    let routed = route_permutation_network(b, lanes, &permutation);
    let ghost b2 = b@;
    let ghost ro = lane_rows(routed@);
    pin_dead_suffix(b, &routed, live_capacity, Ghost(6));
    let ghost b3 = b@;
    proof {
        crate::permutation_network::lemma_rows_stable(b2, b3, ro, 6);
    }
    pin_live_prefix(b, &routed, Ghost(6));
    let ghost b4 = b@;
    proof {
        crate::permutation_network::lemma_rows_stable(b3, b4, ro, 6);
    }
    let slot_bits = decompose_keys(b, &routed, 1, SLOT_BITS, live_capacity, Ghost(6));
    let ghost b5 = b@;
    proof {
        crate::permutation_network::lemma_rows_stable(b4, b5, ro, 6);
    }
    let (adjacent_msb_one_hot, adjacent_both_live) = pin_key_order(
        b,
        &routed,
        &slot_bits,
        Ghost(6),
        Ghost(32),
    );
    proof {
        lemma_digits_stable(b5, b@, wire_rows(slot_bits@), 32);
        crate::permutation_network::lemma_rows_stable(b5, b@, ro, 6);
        let src = rows_eval(pad, b1.values);
        let out = rows_eval(ro, b2.values);
        let bo = wire_rows(slot_bits@);
        lemma_compactable_padded(cands, m, cap, b1.values);
        if b1.honest() {
            lemma_padded_wide(cands, m);
            lemma_network_permutes(b1.rows, pad, log2(m), 6, b2.values);
            lemma_rows_stable_padded(b1, b2, pad);
            assert(out.to_multiset() == src.to_multiset());
            lemma_zero_lanes(b1.values);
            assert forall|j: int| 0 <= j < src.len() implies action_ok(#[trigger] src[j]) by {
                if j < cands.len() {
                    assert(pad[j] == cands[j]);
                    assert(row_eval(cands[j], b1.values) == rows_eval(cands, b1.values)[j]);
                    assert(row_eval(cands[j], z0) == rows_eval(cands, z0)[j]);
                    assert(action_ok(row_eval(cands[j], z0)));
                } else {
                    assert(pad[j] == zero_lanes());
                }
            }
            lemma_count_same(out, src, |r: Seq<F128>| r[0] == F128::one());
            lemma_in_order(src, out, order@, permutation@, live@, key@, cap, 32);
        }
        lemma_phases(b2, b3, b4, b5, b@, ro, bo, cap);
        if compactable(rows_eval(cands, z0), cap) {
            assert forall|j: int| 0 <= j < cands.len() implies action_ok(
                row_eval(#[trigger] cands[j], z0),
            ) by {
                assert(rows_eval(cands, z0)[j] == row_eval(cands[j], z0));
            }
        }
    }
    let rows = take_actions(&routed, live_capacity);
    proof {
        let rs = action_rows(rows@);
        assert(rs =~= ro.take(live_capacity as int));
        assert forall|j: int| 0 <= j < rs.len() implies (#[trigger] rs[j]).len() == 6 && all_below(
            rs[j],
            b@.rows.len(),
        ) by {
            assert(rs[j] == ro[j]);
        }
    }
    CompactedActionTrace {
        rows,
        slot_bits,
        adjacent_msb_one_hot,
        adjacent_both_live,
        source_rows: source_count,
        sort_rows,
    }
}

/// A selector read from the assignment. One that is neither zero nor one is
/// read as zero, and is rejected by the constraints on it.
pub fn native_bool(expr: &LinExpr, b: &FieldR1csBuilder) -> (r: bool)
    requires
        expr@.below(b@.values.len()),
    ensures
        r == (expr@.eval(b@.values) == F128::one()),
{
    expr.eval(&b.values) == F128::one()
}

/// The first `n` routed rows.
fn take_actions(routed: &Vec<Vec<LinExpr>>, n: usize) -> (rows: Vec<ActionRowTrace>)
    requires
        n <= routed@.len(),
        rows_wide(lane_rows(routed@), 6),
    ensures
        rows@.len() == n,
        forall|i: int| 0 <= i < n ==> (#[trigger] rows@[i]).lanes() == lane_rows(routed@)[i],
{
    let mut rows: Vec<ActionRowTrace> = Vec::with_capacity(n);
    let mut i: usize = 0;
    while i < n
        invariant
            i <= n <= routed@.len(),
            rows_wide(lane_rows(routed@), 6),
            rows@.len() == i,
            forall|j: int| 0 <= j < i ==> (#[trigger] rows@[j]).lanes() == lane_rows(routed@)[j],
        decreases n - i,
    {
        assert(lane_rows(routed@)[i as int].len() == 6);
        rows.push(action_from_lanes(&routed[i]));
        i += 1;
    }
    rows
}

proof fn lemma_padded_shaped(cands: Seq<Seq<Lin>>, m: nat, n: nat)
    requires
        cands.len() <= m,
        rows_shaped(cands, 6, n),
    ensures
        rows_shaped(padded(cands, m), 6, n),
{
    let p = padded(cands, m);
    assert forall|i: int| 0 <= i < p.len() implies (#[trigger] p[i]).len() == 6 && all_below(
        p[i],
        n,
    ) by {
        if i < cands.len() {
            assert(p[i] == cands[i]);
        } else {
            assert(p[i] == zero_lanes());
        }
    }
}

proof fn lemma_rows_stable_padded(old: Circuit, new: Circuit, pad: Seq<Seq<Lin>>)
    requires
        new.grows(old),
        rows_shaped(pad, 6, old.rows.len()),
    ensures
        rows_eval(pad, new.values) == rows_eval(pad, old.values),
{
    crate::permutation_network::lemma_rows_stable(old, new, pad, 6);
}

/// The four checks on routed rows together state their order.
proof fn lemma_phases(
    b2: Circuit,
    b3: Circuit,
    b4: Circuit,
    b5: Circuit,
    b6: Circuit,
    ro: Seq<Seq<Lin>>,
    bo: Seq<Seq<Lin>>,
    cap: nat,
)
    requires
        b3.grows(b2),
        b4.grows(b3),
        b5.grows(b4),
        b6.grows(b5),
        cap <= ro.len(),
        bo.len() == cap,
        rows_shaped(ro, 6, b2.rows.len()),
        digits_shaped(bo, 32, b5),
        (b5.rows, bo) == key_rows(b4.rows, ro, 1, 32, cap),
        b3.honest() <==> b2.honest() && forall|i: int|
            cap <= i < ro.len() ==> (#[trigger] ro[i])[0].eval(b2.values) == F128::zero(),
        b4.honest() <==> b3.honest() && forall|i: int|
            0 <= i < ro.len() - 1 ==> #[trigger] follows(ro, i, b3.values),
        b5.honest() <==> b4.honest() && forall|i: int|
            0 <= i < cap ==> (#[trigger] ro[i])[1].eval(b4.values).bits < pow2(32),
        b6.honest() <==> b5.honest() && forall|i: int|
            0 <= i < cap - 1 ==> #[trigger] ascends(ro, bo, i, b5.values),
    ensures
        b6.honest() <==> b2.honest() && in_order(rows_eval(ro, b2.values), cap, 32),
{
    crate::permutation_network::lemma_rows_stable(b2, b3, ro, 6);
    crate::permutation_network::lemma_rows_stable(b3, b4, ro, 6);
    crate::permutation_network::lemma_rows_stable(b4, b5, ro, 6);
    let out = rows_eval(ro, b2.values);
    assert forall|i: int| 0 <= i < ro.len() implies (#[trigger] ro[i])[0].eval(b2.values)
        == out[i][0] && ro[i][0].eval(b3.values) == out[i][0] && ro[i][1].eval(b4.values)
        == out[i][1] && ro[i][0].eval(b5.values) == out[i][0] && ro[i][1].eval(b5.values)
        == out[i][1] by {
        assert(ro[i].len() == 6);
        assert(rows_eval(ro, b3.values)[i] == out[i]);
        assert(rows_eval(ro, b4.values)[i] == out[i]);
        assert(rows_eval(ro, b5.values)[i] == out[i]);
    }
    assert forall|i: int| 0 <= i < ro.len() - 1 implies #[trigger] follows(ro, i, b3.values)
        == live_follows(out, i) by {
        let _ = ro[i];
        let _ = ro[i + 1];
    }
    assert forall|i: int| 0 <= i < ro.len() - 1 implies #[trigger] live_follows(out, i)
        == follows(ro, i, b3.values) by {}
    if b5.honest() {
        lemma_key_sound(b4.rows, ro, 1, 32, cap, b5.values);
        assert forall|i: int| 0 <= i < cap - 1 implies #[trigger] ascends(ro, bo, i, b5.values)
            == slots_ascend(out, i) by {
            let _ = ro[i];
            let _ = ro[i + 1];
            let _ = bo[i];
            let _ = bo[i + 1];
        }
        assert forall|i: int| 0 <= i < cap - 1 implies #[trigger] slots_ascend(out, i)
            == ascends(ro, bo, i, b5.values) by {}
    }
    assert forall|i: int| cap <= i < out.len() implies (#[trigger] out[i])[0] == ro[i][0].eval(
        b2.values,
    ) by {}
    assert forall|i: int| 0 <= i < cap implies (#[trigger] out[i])[1] == ro[i][1].eval(
        b4.values,
    ) by {
        let _ = ro[i];
    }
}

/// The lengths of what a compaction hands on.
pub proof fn lemma_compaction_len(c: Seq<Row>, cands: Seq<Seq<Lin>>, cap: nat)
    requires
        1 <= cap <= cands.len(),
        rows_wide(cands, 6),
    ensures
        ({
            let k = compaction(c, cands, cap);
            &&& k.routed.len() == next_pow2(cands.len())
            &&& k.routed.len() >= cands.len()
            &&& rows_wide(k.routed, 6)
            &&& k.slot_bits.len() == cap
            &&& k.highest.len() == cap - 1
            &&& k.both_live.len() == cap - 1
        }),
{
    let m = next_pow2(cands.len());
    lemma_next_pow2(cands.len());
    lemma_padded_wide(cands, m);
    let pad = padded(cands, m);
    let c1 = all_source_rows(c, cands, cands.len());
    let (c2, routed) = network_rows(c1, pad, log2(m));
    lemma_network_len(c1, pad, log2(m), 6);
    let c4 = prefix_rows(dead_rows(c2, routed, cap, m), routed, m);
    let (c5, slot_bits) = key_rows(c4, routed, 1, 32, cap);
    lemma_key_rows_len(c4, routed, 1, 32, cap);
    lemma_order_len(c5, routed, slot_bits, cap);
}

pub proof fn lemma_key_rows_len(c: Seq<Row>, routed: Seq<Seq<Lin>>, lane: int, width: nat, n: nat)
    ensures
        key_rows(c, routed, lane, width, n).1.len() == n,
    decreases n,
{
    if n > 0 {
        lemma_key_rows_len(c, routed, lane, width, (n - 1) as nat);
    }
}

proof fn lemma_order_len(c: Seq<Row>, routed: Seq<Seq<Lin>>, bits: Seq<Seq<Lin>>, n: nat)
    ensures
        n >= 1 ==> order_rows(c, routed, bits, n).1.len() == n - 1,
        n >= 1 ==> order_rows(c, routed, bits, n).2.len() == n - 1,
    decreases n,
{
    if n > 1 {
        lemma_order_len(c, routed, bits, (n - 1) as nat);
    }
}

} // verus!
