//! Direct ten-lane chain-accumulator transition.
//!
//! One block proof exposes the parent boundary and binds the header to be its
//! exact child. The child header supplies the new semantic tip, state, depth
//! and counters. The transaction-epoch anchor becomes the parent block id
//! exactly when the parent height is a multiple of 144.

use vstd::prelude::*;
use vstd::arithmetic::power2::pow2;
use crate::bits::{
    all_bits, bits_value, bools, increment_bits, increment_rows, lemma_bits_nat_bound,
    lemma_bits_stable, lemma_increment_prefix, lemma_increment_sound, lemma_range_sound,
    lemma_weighted_below, lemma_weighted_value, range_check_bits, range_rows, weighted,
    weighted_sum, wire_exprs, wire_lins,
};
use crate::bytes::{get_le, le_value};
use crate::circuit::{
    all_below, alloc_block, free_row, group_circuit, lemma_grows_honest, lemma_mul_sound,
    lemma_pin_sound, lins, mul_rows, pin_eq, pin_rows, pin_zero, sat, FieldR1csBuilder, Lin,
    LinExpr, Row, Wire,
};
use crate::field::{lemma_plus_is_zero, F128};
use crate::segment_compaction::pair;
use crate::tx_epoch::{constrain_tx_epoch_boundary, epoch_rows, lemma_epoch_sound};

verus! {

broadcast use group_circuit;

/// Lanes of a chain accumulator.
pub const CHAIN_ACCUMULATOR_LANES: usize = 10;

/// A digest as two little-endian lanes.
pub fn digest_lanes(d: &[u8; 32]) -> (r: [F128; 2])
    ensures
        r@[0] == digest_lane(d@, 0),
        r@[1] == digest_lane(d@, 1),
{
    [le_lane(d, 0), le_lane(d, 16)]
}

fn le_lane(d: &[u8; 32], start: usize) -> (r: F128)
    requires
        start <= 16,
    ensures
        r == F128::of_nat(le_value(d@.subrange(start as int, start + 16))),
{
    F128::from_u128(get_le(d, start, 16))
}

/// A chain accumulator by its lanes.
#[derive(Clone, Copy, Debug, PartialEq, Eq)]
pub struct ChainAccumulator {
    pub height: u64,
    pub tip_semantic_id: [u8; 32],
    pub state_root: [u8; 32],
    pub log_slots: u32,
    pub active_slot_count: u64,
    pub alloc_counter: u64,
    pub epoch_anchor_id: [u8; 32],
}

/// Lane `lane` of a digest.
pub open spec fn digest_lane(d: Seq<u8>, lane: int) -> F128 {
    F128::of_nat(le_value(d.subrange(16 * lane, 16 * lane + 16)))
}

impl ChainAccumulator {
    /// The lanes in consensus order.
    pub open spec fn lanes(self) -> Seq<F128> {
        seq![
            F128::of_nat(self.height as nat),
            digest_lane(self.tip_semantic_id@, 0),
            digest_lane(self.tip_semantic_id@, 1),
            digest_lane(self.state_root@, 0),
            digest_lane(self.state_root@, 1),
            F128::of_nat(self.log_slots as nat),
            F128::of_nat(self.active_slot_count as nat),
            F128::of_nat(self.alloc_counter as nat),
            digest_lane(self.epoch_anchor_id@, 0),
            digest_lane(self.epoch_anchor_id@, 1),
        ]
    }

    pub fn to_lanes(&self) -> (r: [F128; 10])
        ensures
            r@ == self.lanes(),
    {
        let tip = digest_lanes(&self.tip_semantic_id);
        let root = digest_lanes(&self.state_root);
        let anchor = digest_lanes(&self.epoch_anchor_id);
        let r = [
            F128::from_u128(self.height as u128),
            tip[0],
            tip[1],
            root[0],
            root[1],
            F128::from_u128(self.log_slots as u128),
            F128::from_u128(self.active_slot_count as u128),
            F128::from_u128(self.alloc_counter as u128),
            anchor[0],
            anchor[1],
        ];
        assert(r@ =~= self.lanes());
        r
    }
}

/// The child-header values that the transition consumes.
pub struct DirectChildWires {
    pub semantic_id: [LinExpr; 2],
    pub prev_block_hash: [LinExpr; 2],
    pub state_root: [LinExpr; 2],
    pub height: LinExpr,
    pub log_slots: LinExpr,
    pub active_slot_count: LinExpr,
    pub alloc_counter: LinExpr,
}

impl DirectChildWires {
    /// The lanes `semantic_id, prev_block_hash, state_root, height,
    /// log_slots, active_slot_count, alloc_counter`.
    pub open spec fn lanes(&self) -> Seq<Lin> {
        seq![
            self.semantic_id@[0]@,
            self.semantic_id@[1]@,
            self.prev_block_hash@[0]@,
            self.prev_block_hash@[1]@,
            self.state_root@[0]@,
            self.state_root@[1]@,
            self.height@,
            self.log_slots@,
            self.active_slot_count@,
            self.alloc_counter@,
        ]
    }
}

/// Accumulator boundary wires.
pub struct AccumulatorWires {
    pub height: LinExpr,
    pub tip_semantic_id: [LinExpr; 2],
    pub state_root: [LinExpr; 2],
    pub log_slots: LinExpr,
    pub active_slot_count: LinExpr,
    pub alloc_counter: LinExpr,
    pub epoch_anchor_id: [LinExpr; 2],
}

/// The next `n` wires, unbound.
pub open spec fn free_rows(c: Seq<Row>, n: nat) -> Seq<Row>
    decreases n,
{
    if n == 0 {
        c
    } else {
        free_rows(c, (n - 1) as nat).push(free_row((c.len() + n - 1) as usize))
    }
}

impl AccumulatorWires {
    /// The lanes in consensus order.
    pub open spec fn lanes(&self) -> Seq<Lin> {
        seq![
            self.height@,
            self.tip_semantic_id@[0]@,
            self.tip_semantic_id@[1]@,
            self.state_root@[0]@,
            self.state_root@[1]@,
            self.log_slots@,
            self.active_slot_count@,
            self.alloc_counter@,
            self.epoch_anchor_id@[0]@,
            self.epoch_anchor_id@[1]@,
        ]
    }

    /// One fresh wire for every lane of an accumulator.
    pub fn allocate(b: &mut FieldR1csBuilder, native: &ChainAccumulator) -> (r: AccumulatorWires)
        requires
            old(b)@.wf(),
        ensures
            final(b)@.rows == free_rows(old(b)@.rows, 10),
            final(b)@.grows(old(b)@),
            final(b)@.honest() <==> old(b)@.honest(),
            r.lanes() == crate::bits::fresh(old(b)@.rows, 10),
            all_below(r.lanes(), final(b)@.rows.len()),
            forall|i: int|
                0 <= i < 10 ==> (#[trigger] r.lanes()[i]).eval(final(b)@.values)
                    == native.lanes()[i],
    {
        let values = native.to_lanes();
        let mut lanes: Vec<LinExpr> = Vec::with_capacity(CHAIN_ACCUMULATOR_LANES);
        let mut i: usize = 0;
        while i < CHAIN_ACCUMULATOR_LANES
            invariant
                i <= 10,
                values@ == native.lanes(),
                lanes@.len() == i,
                b@.grows(old(b)@),
                b@.honest() <==> old(b)@.honest(),
                b@.rows == free_rows(old(b)@.rows, i as nat),
                b@.rows.len() == old(b)@.rows.len() + i,
                forall|j: int|
                    0 <= j < i ==> (#[trigger] lanes@[j])@ == Lin::wire(
                        (old(b)@.rows.len() + j) as usize,
                    ) && lanes@[j]@.below(b@.rows.len()) && lanes@[j]@.eval(b@.values)
                        == values@[j],
            decreases 10 - i,
        {
            let ghost before = b@;
            let ghost prior = lanes@;
            lanes.push(alloc_block(b, values[i]));
            proof {
                assert forall|j: int| 0 <= j <= i implies (#[trigger] lanes@[j])@ == Lin::wire(
                    (old(b)@.rows.len() + j) as usize,
                ) && lanes@[j]@.below(b@.rows.len()) && lanes@[j]@.eval(b@.values)
                    == values@[j] by {
                    if j < i {
                        assert(lanes@[j] == prior[j]);
                        assert(prior[j]@.below(before.rows.len()));
                    }
                }
            }
            i += 1;
        }
        let r = AccumulatorWires {
            height: lanes[0].dup(),
            tip_semantic_id: [lanes[1].dup(), lanes[2].dup()],
            state_root: [lanes[3].dup(), lanes[4].dup()],
            log_slots: lanes[5].dup(),
            active_slot_count: lanes[6].dup(),
            alloc_counter: lanes[7].dup(),
            epoch_anchor_id: [lanes[8].dup(), lanes[9].dup()],
        };
        assert(r.lanes() =~= lins(lanes@));
        assert(r.lanes() =~= crate::bits::fresh(old(b)@.rows, 10));
        r
    }

    /// Named wires from lanes in consensus order.
    pub fn from_ordered_lanes(lanes: [LinExpr; 10]) -> (r: AccumulatorWires)
        ensures
            r.lanes() == lins(lanes@),
    {
        let r = AccumulatorWires {
            height: lanes[0].dup(),
            tip_semantic_id: [lanes[1].dup(), lanes[2].dup()],
            state_root: [lanes[3].dup(), lanes[4].dup()],
            log_slots: lanes[5].dup(),
            active_slot_count: lanes[6].dup(),
            alloc_counter: lanes[7].dup(),
            epoch_anchor_id: [lanes[8].dup(), lanes[9].dup()],
        };
        assert(r.lanes() =~= lins(lanes@));
        r
    }

    /// The lanes in consensus order.
    pub fn ordered_lanes(&self) -> (r: [LinExpr; 10])
        ensures
            lins(r@) == self.lanes(),
    {
        let r = [
            self.height.dup(),
            self.tip_semantic_id[0].dup(),
            self.tip_semantic_id[1].dup(),
            self.state_root[0].dup(),
            self.state_root[1].dup(),
            self.log_slots.dup(),
            self.active_slot_count.dup(),
            self.alloc_counter.dup(),
            self.epoch_anchor_id[0].dup(),
            self.epoch_anchor_id[1].dup(),
        ];
        assert(lins(r@) =~= self.lanes());
        r
    }
}

// ---------------------------------------------------------------------------
// The transition
// ---------------------------------------------------------------------------

/// The range checks of the scalar lanes, and the digits of the height.
pub open spec fn boundary_rows(c: Seq<Row>, acc: Seq<Lin>) -> (Seq<Row>, Seq<Lin>) {
    let (c1, height_bits) = range_rows(c, acc[0], 64);
    let (c2, _) = range_rows(c1, acc[5], 32);
    let (c3, _) = range_rows(c2, acc[6], 64);
    let (c4, _) = range_rows(c3, acc[7], 64);
    (c4, height_bits)
}

/// The scalar lanes are integers of their widths.
pub open spec fn scalars_fit(acc: Seq<Lin>, z: Seq<F128>) -> bool {
    &&& acc[0].eval(z).bits < pow2(64)
    &&& acc[5].eval(z).bits < pow2(32)
    &&& acc[6].eval(z).bits < pow2(64)
    &&& acc[7].eval(z).bits < pow2(64)
}

proof fn lemma_boundary_sound(c: Seq<Row>, acc: Seq<Lin>, z: Seq<F128>)
    requires
        sat(boundary_rows(c, acc).0, z),
    ensures
        sat(c, z),
        scalars_fit(acc, z),
        boundary_rows(c, acc).1.len() == 64,
        all_bits(boundary_rows(c, acc).1, z),
        bits_value(boundary_rows(c, acc).1, z) == acc[0].eval(z).bits,
{
    let (c1, height_bits) = range_rows(c, acc[0], 64);
    let (c2, _) = range_rows(c1, acc[5], 32);
    let (c3, _) = range_rows(c2, acc[6], 64);
    lemma_range_sound(c3, acc[7], 64, z);
    lemma_range_sound(c2, acc[6], 64, z);
    lemma_range_sound(c1, acc[5], 32, z);
    lemma_range_sound(c, acc[0], 64, z);
}

/// The rows that bind `child` to the successor of an integer of 64 digits.
pub open spec fn successor_rows(c: Seq<Row>, bits: Seq<Lin>, child: Lin) -> Seq<Row> {
    let (c1, next, carry) = increment_rows(c, bits, Lin::constant(F128::one()), 64);
    let c2 = pin_rows(c1, carry);
    pin_rows(c2, child.plus(weighted(next, 0)))
}

proof fn lemma_successor_prefix(c: Seq<Row>, bits: Seq<Lin>, child: Lin, z: Seq<F128>)
    requires
        sat(successor_rows(c, bits, child), z),
    ensures
        sat(c, z),
{
    let (c1, next, carry) = increment_rows(c, bits, Lin::constant(F128::one()), 64);
    let c2 = pin_rows(c1, carry);
    lemma_pin_sound(c2, child.plus(weighted(next, 0)), z);
    lemma_pin_sound(c1, carry, z);
    lemma_increment_prefix(c, bits, Lin::constant(F128::one()), 64, z);
}

proof fn lemma_successor_sound(c: Seq<Row>, bits: Seq<Lin>, child: Lin, z: Seq<F128>)
    requires
        bits.len() == 64,
        all_bits(bits, z),
        sat(successor_rows(c, bits, child), z),
    ensures
        sat(c, z),
        bits_value(bits, z) + 1 < pow2(64),
        child.eval(z) == F128::of_nat(bits_value(bits, z) + 1),
{
    broadcast use lemma_plus_is_zero;

    let (c1, next, carry) = increment_rows(c, bits, Lin::constant(F128::one()), 64);
    let c2 = pin_rows(c1, carry);
    lemma_pin_sound(c2, child.plus(weighted(next, 0)), z);
    lemma_pin_sound(c1, carry, z);
    lemma_increment_sound(c, bits, Lin::constant(F128::one()), 64, z);
    assert(bits.take(64) =~= bits);
    assert(0 * pow2(64) == 0) by (nonlinear_arith);
    lemma_weighted_value(next, z);
}

/// The rows that bind the lanes of the end accumulator that the child header
/// supplies.
pub open spec fn child_rows(c: Seq<Row>, child: Seq<Lin>, end: Seq<Lin>) -> Seq<Row> {
    let c1 = pin_rows(c, child[6].plus(end[0]));
    let c2 = pin_rows(c1, child[0].plus(end[1]));
    let c3 = pin_rows(c2, child[4].plus(end[3]));
    let c4 = pin_rows(c3, child[1].plus(end[2]));
    let c5 = pin_rows(c4, child[5].plus(end[4]));
    let c6 = pin_rows(c5, child[7].plus(end[5]));
    let c7 = pin_rows(c6, child[8].plus(end[6]));
    pin_rows(c7, child[9].plus(end[7]))
}

/// The end accumulator carries what the child header supplies.
pub open spec fn child_supplies(child: Seq<Lin>, end: Seq<Lin>, z: Seq<F128>) -> bool {
    &&& child[6].eval(z) == end[0].eval(z)
    &&& child[0].eval(z) == end[1].eval(z)
    &&& child[1].eval(z) == end[2].eval(z)
    &&& child[4].eval(z) == end[3].eval(z)
    &&& child[5].eval(z) == end[4].eval(z)
    &&& child[7].eval(z) == end[5].eval(z)
    &&& child[8].eval(z) == end[6].eval(z)
    &&& child[9].eval(z) == end[7].eval(z)
}

proof fn lemma_child_sound(c: Seq<Row>, child: Seq<Lin>, end: Seq<Lin>, z: Seq<F128>)
    requires
        sat(child_rows(c, child, end), z),
    ensures
        sat(c, z),
        child_supplies(child, end, z),
{
    broadcast use lemma_plus_is_zero;

    let c1 = pin_rows(c, child[6].plus(end[0]));
    let c2 = pin_rows(c1, child[0].plus(end[1]));
    let c3 = pin_rows(c2, child[4].plus(end[3]));
    let c4 = pin_rows(c3, child[1].plus(end[2]));
    let c5 = pin_rows(c4, child[5].plus(end[4]));
    let c6 = pin_rows(c5, child[7].plus(end[5]));
    let c7 = pin_rows(c6, child[8].plus(end[6]));
    lemma_pin_sound(c7, child[9].plus(end[7]), z);
    lemma_pin_sound(c6, child[8].plus(end[6]), z);
    lemma_pin_sound(c5, child[7].plus(end[5]), z);
    lemma_pin_sound(c4, child[5].plus(end[4]), z);
    lemma_pin_sound(c3, child[1].plus(end[2]), z);
    lemma_pin_sound(c2, child[4].plus(end[3]), z);
    lemma_pin_sound(c1, child[0].plus(end[1]), z);
    lemma_pin_sound(c, child[6].plus(end[0]), z);
}

/// One lane of the epoch anchor.
pub open spec fn anchor_rows(c: Seq<Row>, boundary: Lin, start: Lin, parent: Lin, end: Lin) -> Seq<
    Row,
> {
    let (c1, moved) = mul_rows(c, boundary, start.plus(parent));
    pin_rows(c1, start.plus(moved).plus(end))
}

proof fn lemma_anchor_sound(
    c: Seq<Row>,
    boundary: Lin,
    start: Lin,
    parent: Lin,
    end: Lin,
    z: Seq<F128>,
)
    requires
        sat(anchor_rows(c, boundary, start, parent, end), z),
    ensures
        sat(c, z),
        boundary.eval(z).is_bit() ==> end.eval(z) == if boundary.eval(z) == F128::one() {
            parent.eval(z)
        } else {
            start.eval(z)
        },
{
    broadcast use lemma_plus_is_zero;

    let (c1, moved) = mul_rows(c, boundary, start.plus(parent));
    lemma_pin_sound(c1, start.plus(moved).plus(end), z);
    lemma_mul_sound(c, boundary, start.plus(parent), z);
}

/// The rows of one direct transition.
pub open spec fn transition_rows(
    c: Seq<Row>,
    start: Seq<Lin>,
    child: Seq<Lin>,
    end: Seq<Lin>,
    parent: Seq<Lin>,
) -> Seq<Row> {
    let (c1, height_bits) = boundary_rows(c, start);
    let (c2, _) = boundary_rows(c1, end);
    let c3 = pin_rows(c2, child[2].plus(parent[0]));
    let c4 = pin_rows(c3, child[3].plus(parent[1]));
    let c5 = successor_rows(c4, height_bits, child[6]);
    let c6 = child_rows(c5, child, end);
    let (c7, _, _, boundary) = epoch_rows(c6, start[0]);
    let c8 = anchor_rows(c7, boundary, start[8], parent[0], end[8]);
    anchor_rows(c8, boundary, start[9], parent[1], end[9])
}

/// The end accumulator is the exact child of the start accumulator: heights
/// succeed each other, the child links to the parent block, supplies the new
/// lanes, and the epoch anchor becomes the parent block id exactly when the
/// parent height is a multiple of 144.
pub open spec fn is_child(
    start: Seq<Lin>,
    child: Seq<Lin>,
    end: Seq<Lin>,
    parent: Seq<Lin>,
    z: Seq<F128>,
) -> bool {
    let h = start[0].eval(z).bits;
    &&& scalars_fit(start, z)
    &&& scalars_fit(end, z)
    &&& child[2].eval(z) == parent[0].eval(z)
    &&& child[3].eval(z) == parent[1].eval(z)
    &&& h + 1 < pow2(64)
    &&& child[6].eval(z) == F128::of_nat((h + 1) as nat)
    &&& child_supplies(child, end, z)
    &&& end[8].eval(z) == if h % 144 == 0 {
        parent[0].eval(z)
    } else {
        start[8].eval(z)
    }
    &&& end[9].eval(z) == if h % 144 == 0 {
        parent[1].eval(z)
    } else {
        start[9].eval(z)
    }
}

/// Under every satisfying assignment the end accumulator is the exact child of
/// the start accumulator.
pub proof fn lemma_transition_sound(
    c: Seq<Row>,
    start: Seq<Lin>,
    child: Seq<Lin>,
    end: Seq<Lin>,
    parent: Seq<Lin>,
    z: Seq<F128>,
)
    requires
        sat(transition_rows(c, start, child, end, parent), z),
    ensures
        sat(c, z),
        is_child(start, child, end, parent, z),
{
    broadcast use lemma_plus_is_zero;

    let (c1, height_bits) = boundary_rows(c, start);
    let (c2, _) = boundary_rows(c1, end);
    let c3 = pin_rows(c2, child[2].plus(parent[0]));
    let c4 = pin_rows(c3, child[3].plus(parent[1]));
    let c5 = successor_rows(c4, height_bits, child[6]);
    let c6 = child_rows(c5, child, end);
    let (c7, _, _, boundary) = epoch_rows(c6, start[0]);
    let c8 = anchor_rows(c7, boundary, start[8], parent[0], end[8]);
    lemma_anchor_sound(c8, boundary, start[9], parent[1], end[9], z);
    lemma_anchor_sound(c7, boundary, start[8], parent[0], end[8], z);
    lemma_epoch_sound(c6, start[0], z);
    lemma_child_sound(c5, child, end, z);
    lemma_successor_prefix(c4, height_bits, child[6], z);
    lemma_pin_sound(c3, child[3].plus(parent[1]), z);
    lemma_pin_sound(c2, child[2].plus(parent[0]), z);
    lemma_boundary_sound(c1, end, z);
    lemma_boundary_sound(c, start, z);
    lemma_successor_sound(c4, height_bits, child[6], z);
}

/// Range-checks the scalar lanes, and returns the digits of the height.
pub fn range_check_boundary_scalars(b: &mut FieldR1csBuilder, boundary: &AccumulatorWires) -> (r:
    Vec<Wire>)
    requires
        old(b)@.wf(),
        all_below(boundary.lanes(), old(b)@.rows.len()),
    ensures
        r@.len() == 64,
        (final(b)@.rows, wire_lins(r@)) == boundary_rows(old(b)@.rows, boundary.lanes()),
        final(b)@.grows(old(b)@),
        all_below(wire_lins(r@), final(b)@.rows.len()),
        final(b)@.honest() <==> old(b)@.honest() && scalars_fit(
            boundary.lanes(),
            old(b)@.values,
        ),
{
    let ghost l = boundary.lanes();
    let ghost n = old(b)@.rows.len();
    assert(l[0].below(n) && l[5].below(n) && l[6].below(n) && l[7].below(n));
    let height_bits = range_check_bits(b, &boundary.height, 64);
    let ghost b1 = b@;
    let _ = range_check_bits(b, &boundary.log_slots, 32);
    let ghost b2 = b@;
    let _ = range_check_bits(b, &boundary.active_slot_count, 64);
    let ghost b3 = b@;
    let _ = range_check_bits(b, &boundary.alloc_counter, 64);
    proof {
        lemma_bits_stable(b1, b@, wire_lins(height_bits@));
    }
    height_bits
}

/// Binds `child` to the successor of the parent height.
fn pin_u64_successor(b: &mut FieldR1csBuilder, parent_bits: &Vec<Wire>, child: &LinExpr)
    requires
        old(b)@.wf(),
        parent_bits@.len() == 64,
        all_below(wire_lins(parent_bits@), old(b)@.rows.len()),
        child@.below(old(b)@.rows.len()),
    ensures
        final(b)@.rows == successor_rows(old(b)@.rows, wire_lins(parent_bits@), child@),
        final(b)@.grows(old(b)@),
        all_bits(wire_lins(parent_bits@), old(b)@.values) ==> (final(b)@.honest() <==> {
            let v = bits_value(wire_lins(parent_bits@), old(b)@.values);
            &&& old(b)@.honest()
            &&& v + 1 < pow2(64)
            &&& child@.eval(old(b)@.values) == F128::of_nat(v + 1)
        }),
{
    let ghost pb = wire_lins(parent_bits@);
    let bits = wire_exprs(parent_bits);
    let one = LinExpr::constant(F128::one());
    let (next, carry) = increment_bits(b, &bits, &one);
    let ghost b1 = b@;
    pin_zero(b, &carry);
    let ghost b2 = b@;
    proof {
        lemma_bits_stable(b1, b2, lins(next@));
        lemma_weighted_below(lins(next@), 0, b2.rows.len());
    }
    let successor = weighted_sum(&next, 0);
    pin_eq(b, child, &successor);
    proof {
        if all_bits(pb, old(b)@.values) && b1.honest() {
            lemma_bits_stable(old(b)@, b1, pb);
            lemma_increment_sound(old(b)@.rows, pb, one@, 64, b1.values);
            assert(pb.take(64) =~= pb);
            lemma_bits_nat_bound(bools(lins(next@), b1.values));
            assert(0 * pow2(64) == 0 && 1 * pow2(64) == pow2(64)) by (nonlinear_arith);
            lemma_bits_stable(b1, b2, lins(next@));
            lemma_weighted_value(lins(next@), b2.values);
        }
    }
}

fn pin_child(b: &mut FieldR1csBuilder, child: &DirectChildWires, end: &AccumulatorWires)
    requires
        old(b)@.wf(),
        all_below(child.lanes(), old(b)@.rows.len()),
        all_below(end.lanes(), old(b)@.rows.len()),
    ensures
        final(b)@.rows == child_rows(old(b)@.rows, child.lanes(), end.lanes()),
        final(b)@.grows(old(b)@),
        final(b)@.honest() <==> old(b)@.honest() && child_supplies(
            child.lanes(),
            end.lanes(),
            old(b)@.values,
        ),
{
    let ghost n = old(b)@.rows.len();
    let ghost cl = child.lanes();
    let ghost el = end.lanes();
    assert(cl[0].below(n) && cl[1].below(n) && cl[4].below(n) && cl[5].below(n) && cl[6].below(n)
        && cl[7].below(n) && cl[8].below(n) && cl[9].below(n));
    assert(el[0].below(n) && el[1].below(n) && el[2].below(n) && el[3].below(n) && el[4].below(n)
        && el[5].below(n) && el[6].below(n) && el[7].below(n));
    pin_eq(b, &child.height, &end.height);
    let ghost b1 = b@;
    pin_eq(b, &child.semantic_id[0], &end.tip_semantic_id[0]);
    let ghost b2 = b@;
    pin_eq(b, &child.state_root[0], &end.state_root[0]);
    let ghost b3 = b@;
    pin_eq(b, &child.semantic_id[1], &end.tip_semantic_id[1]);
    let ghost b4 = b@;
    pin_eq(b, &child.state_root[1], &end.state_root[1]);
    let ghost b5 = b@;
    pin_eq(b, &child.log_slots, &end.log_slots);
    let ghost b6 = b@;
    pin_eq(b, &child.active_slot_count, &end.active_slot_count);
    let ghost b7 = b@;
    pin_eq(b, &child.alloc_counter, &end.alloc_counter);
}

fn pin_anchor_lane(
    b: &mut FieldR1csBuilder,
    boundary: &LinExpr,
    start: &LinExpr,
    parent: &LinExpr,
    end: &LinExpr,
)
    requires
        old(b)@.wf(),
        boundary@.below(old(b)@.rows.len()),
        start@.below(old(b)@.rows.len()),
        parent@.below(old(b)@.rows.len()),
        end@.below(old(b)@.rows.len()),
    ensures
        final(b)@.rows == anchor_rows(old(b)@.rows, boundary@, start@, parent@, end@),
        final(b)@.grows(old(b)@),
        ({
            let z = old(b)@.values;
            boundary@.eval(z).is_bit() ==> (final(b)@.honest() <==> old(b)@.honest()
                && end@.eval(z) == if boundary@.eval(z) == F128::one() {
                parent@.eval(z)
            } else {
                start@.eval(z)
            })
        }),
{
    broadcast use lemma_plus_is_zero;

    let delta = start.add(parent);
    let moved = crate::circuit::mul(b, boundary, &delta);
    let selected = start.add(&moved);
    pin_eq(b, &selected, end);
}

/// Binds one direct child transition between two accumulators.
///
/// See [`lemma_transition_sound`] for what the constraints bind. The semantic
/// tip of the start accumulator is not read.
pub fn build_direct_accumulator_transition_slot(
    b: &mut FieldR1csBuilder,
    start: &AccumulatorWires,
    child: &DirectChildWires,
    end: &AccumulatorWires,
    parent_block_id: &[LinExpr; 2],
)
    requires
        old(b)@.wf(),
        all_below(start.lanes(), old(b)@.rows.len()),
        all_below(child.lanes(), old(b)@.rows.len()),
        all_below(end.lanes(), old(b)@.rows.len()),
        all_below(pair(*parent_block_id), old(b)@.rows.len()),
        start.height@.eval(old(b)@.values).bits <= u64::MAX,
    ensures
        final(b)@.rows == transition_rows(
            old(b)@.rows,
            start.lanes(),
            child.lanes(),
            end.lanes(),
            pair(*parent_block_id),
        ),
        final(b)@.grows(old(b)@),
        final(b)@.honest() <==> old(b)@.honest() && is_child(
            start.lanes(),
            child.lanes(),
            end.lanes(),
            pair(*parent_block_id),
            old(b)@.values,
        ),
{
    let ghost z0 = old(b)@.values;
    let ghost n = old(b)@.rows.len();
    let ghost sl = start.lanes();
    let ghost cl = child.lanes();
    let ghost el = end.lanes();
    let ghost pl = pair(*parent_block_id);
    assert(sl[0].below(n) && sl[5].below(n) && sl[6].below(n) && sl[7].below(n) && sl[8].below(n)
        && sl[9].below(n));
    assert(cl[2].below(n) && cl[3].below(n) && cl[6].below(n));
    assert(el[8].below(n) && el[9].below(n) && pl[0].below(n) && pl[1].below(n));
    let height_bits = range_check_boundary_scalars(b, start);
    let ghost b1 = b@;
    let ghost hb = wire_lins(height_bits@);
    proof {
        lemma_bits_stable(old(b)@, b1, el);
        lemma_bits_stable(old(b)@, b1, cl);
    }
    let _ = range_check_boundary_scalars(b, end);
    let ghost b2 = b@;
    pin_eq(b, &child.prev_block_hash[0], &parent_block_id[0]);
    let ghost b3 = b@;
    pin_eq(b, &child.prev_block_hash[1], &parent_block_id[1]);
    let ghost b4 = b@;
    proof {
        lemma_bits_stable(b1, b4, hb);
    }
    pin_u64_successor(b, &height_bits, &child.height);
    let ghost b5 = b@;
    proof {
        lemma_bits_stable(b1, b5, el);
        lemma_bits_stable(b1, b5, cl);
    }
    pin_child(b, child, end);
    let ghost b6 = b@;
    let epoch = constrain_tx_epoch_boundary(b, &start.height);
    let ghost b7 = b@;
    pin_anchor_lane(
        b,
        &epoch.boundary,
        &start.epoch_anchor_id[0],
        &parent_block_id[0],
        &end.epoch_anchor_id[0],
    );
    let ghost b8 = b@;
    pin_anchor_lane(
        b,
        &epoch.boundary,
        &start.epoch_anchor_id[1],
        &parent_block_id[1],
        &end.epoch_anchor_id[1],
    );
    proof {
        if b4.honest() {
            lemma_grows_honest(b1, b4);
            lemma_boundary_sound(old(b)@.rows, sl, b4.values);
        }
        if b7.honest() {
            lemma_epoch_sound(b6.rows, sl[0], b7.values);
        }
        if b@.honest() {
            lemma_grows_honest(b7, b@);
            lemma_grows_honest(b4, b@);
        }
        assert(scalars_fit(el, b1.values) == scalars_fit(el, z0)) by {
            assert(el[0].below(n) && el[5].below(n) && el[6].below(n) && el[7].below(n));
        }
        assert(child_supplies(cl, el, b5.values) == child_supplies(cl, el, z0)) by {
            assert(cl[0].below(n) && cl[1].below(n) && cl[4].below(n) && cl[5].below(n)
                && cl[7].below(n) && cl[8].below(n) && cl[9].below(n));
            assert(el[0].below(n) && el[1].below(n) && el[2].below(n) && el[3].below(n)
                && el[4].below(n) && el[5].below(n) && el[6].below(n) && el[7].below(n));
        }
        if old(b)@.honest() && is_child(sl, cl, el, pl, z0) {
            assert(b1.honest());
            assert(b2.honest());
            assert(b4.honest());
            assert(b5.honest());
            assert(b7.honest());
        }
    }
}

} // verus!
