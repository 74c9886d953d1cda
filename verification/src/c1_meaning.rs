//! What the terms of the extension-field relations mean: the products of one weight
//! add up to a lane of a permutation's input, or to an equation between cells.

use vstd::prelude::*;
use crate::c1_terms::{
    by_lane, family_direction, family_feed_forward, family_link, family_paired,
    family_two_permutation, feed_forward_carry, feed_forward_carry_terms, feed_forward_link,
    feed_forward_node, feed_forward_node_terms, gated, gated_terms, has_fixed, selection_lane,
    selection_lane_terms, source_tree_lane, source_tree_lane_terms, split_tail_lane,
    split_tail_lane_terms, sponge_lane, sponge_lane_terms, two_permutation_lane, FfMerkleFamilyRefs,
    MerkleFamilyRefs, MerkleProtocolFamily, Shape, SourceTreeRefs, SplitDuplexTailRefs,
    SpongeLeafRefs,
};

use crate::field::{group_field_units, lemma_plus_assoc, lemma_plus_comm, lemma_plus_is_zero, F128};
use crate::paired_merkle_update::{parent, path_root};
use crate::poseidon::{compressed, permuted, Permutation};
use crate::paired_relations::{
    factor_sum, input_factors, input_lane, tables_at, PairedMerkleUpdateRefs,
};
use crate::relations::{cell, factors_at, product_at, ColRef, ColumnTable, Product};
use crate::spine_claims::{absorbed, sponge_state};

verus! {

// ---------------------------------------------------------------------------
// Sums by weight
// ---------------------------------------------------------------------------

/// The sum of the products of one weight among the first `n` terms at a slot.
pub open spec fn weight_sum(t: ColumnTable, s: Seq<Shape>, w: nat, slot: int, n: nat) -> F128
    decreases n,
{
    if n == 0 {
        F128::zero()
    } else {
        let rest = weight_sum(t, s, w, slot, (n - 1) as nat);
        if s[n - 1].weight == w {
            rest.plus(factors_at(t, s[n - 1].factors, slot))
        } else {
            rest
        }
    }
}

/// The sum of the products of one weight at a slot.
pub open spec fn weight_at(t: ColumnTable, s: Seq<Shape>, w: nat, slot: int) -> F128 {
    weight_sum(t, s, w, slot, s.len())
}

proof fn lemma_weight_prefix(
    t: ColumnTable,
    a: Seq<Shape>,
    b: Seq<Shape>,
    w: nat,
    slot: int,
    n: nat,
)
    requires
        n <= a.len(),
        n <= b.len(),
        forall|i: int| 0 <= i < n ==> #[trigger] a[i] == b[i],
    ensures
        weight_sum(t, a, w, slot, n) == weight_sum(t, b, w, slot, n),
    decreases n,
{
    if n > 0 {
        lemma_weight_prefix(t, a, b, w, slot, (n - 1) as nat);
        assert(a[n - 1] == b[n - 1]);
    }
}

proof fn lemma_concat_sum(
    t: ColumnTable,
    a: Seq<Shape>,
    b: Seq<Shape>,
    w: nat,
    slot: int,
    n: nat,
)
    requires
        n <= b.len(),
    ensures
        weight_sum(t, a + b, w, slot, a.len() + n) == weight_at(t, a, w, slot).plus(
            weight_sum(t, b, w, slot, n),
        ),
    decreases n,
{
    broadcast use group_field_units;

    if n == 0 {
        lemma_weight_prefix(t, a + b, a, w, slot, a.len());
    } else {
        let m = (n - 1) as nat;
        lemma_concat_sum(t, a, b, w, slot, m);
        assert((a + b)[a.len() + n - 1] == b[n - 1]);
        lemma_plus_assoc(
            weight_at(t, a, w, slot),
            weight_sum(t, b, w, slot, m),
            factors_at(t, b[n - 1].factors, slot),
        );
    }
}

/// Terms that are joined add up.
pub broadcast proof fn lemma_weight_concat(
    t: ColumnTable,
    a: Seq<Shape>,
    b: Seq<Shape>,
    w: nat,
    slot: int,
)
    ensures
        #[trigger] weight_at(t, a + b, w, slot) == weight_at(t, a, w, slot).plus(
            weight_at(t, b, w, slot),
        ),
{
    lemma_concat_sum(t, a, b, w, slot, b.len());
}

/// What a table holds at a slot.
pub open spec fn table_at(t: ColumnTable, i: usize, slot: int) -> F128 {
    cell(t, ColRef::Fixed(i), slot)
}

/// What a column holds at a slot.
pub open spec fn held_at(t: ColumnTable, column: usize, slot: int) -> F128 {
    t.committed[column as int][slot]
}

/// Terms of other weights do not count.
pub proof fn lemma_no_weight(t: ColumnTable, s: Seq<Shape>, w: nat, slot: int, n: nat)
    requires
        n <= s.len(),
        forall|i: int| 0 <= i < n ==> (#[trigger] s[i]).weight != w,
    ensures
        weight_sum(t, s, w, slot, n) == F128::zero(),
    decreases n,
{
    if n > 0 {
        lemma_no_weight(t, s, w, slot, (n - 1) as nat);
    }
}

/// Lane by lane, only a lane's own terms count.
pub proof fn lemma_own_lane(
    t: ColumnTable,
    f: spec_fn(int) -> Seq<Shape>,
    n: nat,
    lane: int,
    w: nat,
    slot: int,
)
    requires
        0 <= lane,
        forall|k: int, i: int|
            0 <= k < n && k != lane && 0 <= i < f(k).len() ==> (#[trigger] f(k)[i]).weight != w,
    ensures
        weight_at(t, by_lane(f, n), w, slot) == if lane < n {
            weight_at(t, f(lane), w, slot)
        } else {
            F128::zero()
        },
    decreases n,
{
    broadcast use group_field_units;

    if n > 0 {
        let m = (n - 1) as nat;
        lemma_own_lane(t, f, m, lane, w, slot);
        lemma_weight_concat(t, by_lane(f, m), f(n - 1), w, slot);
        if lane != n - 1 {
            lemma_no_weight(t, f(n - 1), w, slot, f(n - 1).len());
        }
    }
}

/// `x + (x + y)` and `x + y + x` are `y`.
proof fn lemma_cancel(x: F128, y: F128)
    ensures
        x.plus(x.plus(y)) == y,
        x.plus(y).plus(x) == y,
        y.plus(x).plus(x) == y,
{
    broadcast use lemma_plus_is_zero;

    lemma_plus_comm(x, y);
    assert(y.plus(x).plus(x) == y);
}

// ---------------------------------------------------------------------------
// Selections
// ---------------------------------------------------------------------------

/// A selection vanishes at a slot, lane by lane, exactly where the carried column
/// holds the walk's output.
pub proof fn lemma_selection_means(t: ColumnTable, refs: [usize; 4], lane: int, slot: int)
    requires
        0 <= lane < 4,
    ensures
        weight_at(t, selection_lane_terms(refs), (lane + 1) as nat, slot) == F128::zero()
            <==> held_at(t, refs@[lane], slot) == t.internal[lane][slot],
{
    broadcast use group_field_units;

    reveal_with_fuel(weight_sum, 12);
    reveal_with_fuel(product_at, 4);

    let f = |l: int| selection_lane(refs, l);
    let w = (lane + 1) as nat;
    lemma_own_lane(t, f, 4, lane, w, slot);
    lemma_plus_is_zero(held_at(t, refs@[lane], slot), t.internal[lane][slot]);
    assert(cell(t, ColRef::Internal(lane as usize), slot) == t.internal[lane][slot]);
}

// ---------------------------------------------------------------------------
// Feed-forward families
// ---------------------------------------------------------------------------

/// The left and right child at a slot: the carried child is the left one where the
/// direction is unset.
pub open spec fn ff_left(t: ColumnTable, refs: FfMerkleFamilyRefs, slot: int) -> Seq<F128> {
    let pair = if held_at(t, refs.d, slot) == F128::zero() {
        refs.cr@
    } else {
        refs.sib@
    };
    seq![held_at(t, pair[0], slot), held_at(t, pair[1], slot)]
}

pub open spec fn ff_right(t: ColumnTable, refs: FfMerkleFamilyRefs, slot: int) -> Seq<F128> {
    let pair = if held_at(t, refs.d, slot) == F128::zero() {
        refs.sib@
    } else {
        refs.cr@
    };
    seq![held_at(t, pair[0], slot), held_at(t, pair[1], slot)]
}

proof fn lemma_ff_node_lane(t: ColumnTable, refs: FfMerkleFamilyRefs, lane: int, slot: int)
    requires
        0 <= lane < 2,
    ensures
        ({
            let n = table_at(t, refs.node, slot);
            let d = held_at(t, refs.d, slot);
            let (x, y) = (held_at(t, refs.cr@[lane], slot), held_at(t, refs.sib@[lane], slot));
            let c = cell(t, ColRef::CommittedShift(refs.c@[lane]), slot);
            let e = cell(t, ColRef::CommittedShift(refs.c@[lane + 2]), slot);
            &&& weight_at(t, feed_forward_node(refs, lane), lane as nat, slot) == n.times(c).plus(
                n.times(x),
            ).plus(n.times(d).times(x)).plus(n.times(d).times(y))
            &&& weight_at(t, feed_forward_node(refs, lane), (lane + 2) as nat, slot) == n.times(
                e,
            ).plus(n.times(y)).plus(n.times(d).times(x)).plus(n.times(d).times(y)).plus(
                table_at(t, refs.iv@[lane], slot),
            )
        }),
{
    broadcast use group_field_units;

    reveal_with_fuel(weight_sum, 10);
    reveal_with_fuel(product_at, 4);
}

proof fn lemma_ff_lane(t: ColumnTable, refs: FfMerkleFamilyRefs, region: usize, lane: int, slot: int)
    requires
        0 <= lane < 2,
    ensures
        ({
            let s = feed_forward_carry_terms(refs, region) + feed_forward_node_terms(refs);
            let r = table_at(t, region, slot);
            let c = cell(t, ColRef::CommittedShift(refs.c@[lane]), slot);
            let e = cell(t, ColRef::CommittedShift(refs.c@[lane + 2]), slot);
            &&& weight_at(t, s, lane as nat, slot) == r.times(c).plus(
                weight_at(t, feed_forward_node(refs, lane), lane as nat, slot),
            )
            &&& weight_at(t, s, (lane + 2) as nat, slot) == r.times(e).plus(
                weight_at(t, feed_forward_node(refs, lane), (lane + 2) as nat, slot),
            )
        }),
{
    let f = |l: int| feed_forward_carry(refs, region, l);
    let g = |l: int| feed_forward_node(refs, l);
    let (u, v) = (lane as nat, (lane + 2) as nat);
    lemma_own_lane(t, f, 4, lane, u, slot);
    lemma_own_lane(t, f, 4, lane + 2, v, slot);
    lemma_own_lane(t, g, 2, lane, u, slot);
    lemma_own_lane(t, g, 2, lane, v, slot);
    let (a, b) = (feed_forward_carry_terms(refs, region), feed_forward_node_terms(refs));
    lemma_weight_concat(t, a, b, u, slot);
    lemma_weight_concat(t, a, b, v, slot);
    lemma_carry_sum(t, refs, region, lane, slot);
    lemma_carry_sum(t, refs, region, lane + 2, slot);
}

proof fn lemma_carry_sum(t: ColumnTable, refs: FfMerkleFamilyRefs, region: usize, lane: int, slot: int)
    requires
        0 <= lane < 4,
    ensures
        weight_at(t, feed_forward_carry(refs, region, lane), lane as nat, slot) == table_at(
            t,
            region,
            slot,
        ).times(cell(t, ColRef::CommittedShift(refs.c@[lane]), slot)),
{
    broadcast use group_field_units;

    reveal_with_fuel(weight_sum, 2);
    reveal_with_fuel(product_at, 3);
}

/// At a node of a feed-forward family the terms add up to the compression's input:
/// the left child, then the right child over the capacity value.
pub proof fn lemma_feed_forward_input(
    t: ColumnTable,
    refs: FfMerkleFamilyRefs,
    region: usize,
    lane: int,
    slot: int,
)
    requires
        0 <= lane < 2,
        table_at(t, region, slot) == F128::one(),
        table_at(t, refs.node, slot) == F128::one(),
        held_at(t, refs.d, slot).is_bit(),
    ensures
        ({
            let s = family_feed_forward(MerkleProtocolFamily::FeedForward { refs, region });
            &&& weight_at(t, s, lane as nat, slot) == ff_left(t, refs, slot)[lane]
            &&& weight_at(t, s, (lane + 2) as nat, slot) == ff_right(t, refs, slot)[lane].plus(
                table_at(t, refs.iv@[lane], slot),
            )
        }),
{
    broadcast use {group_field_units, lemma_plus_is_zero};

    lemma_ff_lane(t, refs, region, lane, slot);
    lemma_ff_node_lane(t, refs, lane, slot);
    let d = held_at(t, refs.d, slot);
    let (x, y) = (held_at(t, refs.cr@[lane], slot), held_at(t, refs.sib@[lane], slot));
    let c = cell(t, ColRef::CommittedShift(refs.c@[lane]), slot);
    let e = cell(t, ColRef::CommittedShift(refs.c@[lane + 2]), slot);
    let v = table_at(t, refs.iv@[lane], slot);
    assert(F128::one() != F128::zero());
    if d == F128::zero() {
        lemma_cancel(c, x);
        lemma_plus_assoc(e, y, v);
        lemma_cancel(e, y.plus(v));
    } else {
        // c + ((c + x) + x + y)
        assert(c.plus(x).plus(x) == c);
        lemma_cancel(c, y);
        // e + ((e + y) + x + y + v)
        lemma_plus_assoc(e.plus(y), x, y);
        lemma_plus_comm(x, y);
        lemma_plus_assoc(e.plus(y), y, x);
        assert(e.plus(y).plus(y) == e);
        lemma_plus_assoc(e, x, v);
        lemma_cancel(e, x.plus(v));
    }
}

/// Within the region but off the nodes, a feed-forward family carries the state of
/// the slot before.
pub proof fn lemma_feed_forward_carries(
    t: ColumnTable,
    refs: FfMerkleFamilyRefs,
    region: usize,
    lane: int,
    slot: int,
)
    requires
        0 <= lane < 4,
        slot >= 1,
        table_at(t, region, slot) == F128::one(),
        table_at(t, refs.node, slot) == F128::zero(),
        table_at(t, refs.iv@[0], slot) == F128::zero(),
        table_at(t, refs.iv@[1], slot) == F128::zero(),
    ensures
        weight_at(
            t,
            family_feed_forward(MerkleProtocolFamily::FeedForward { refs, region }),
            lane as nat,
            slot,
        ) == held_at(t, refs.c@[lane], slot - 1),
{
    broadcast use group_field_units;

    lemma_ff_lane(t, refs, region, lane % 2, slot);
    lemma_ff_node_lane(t, refs, lane % 2, slot);
}

/// The link of a feed-forward family vanishes at a node that is not a first one
/// exactly where the carried child is the parent before it: the permutation's
/// output plus the left child that went in.
pub proof fn lemma_feed_forward_link(
    t: ColumnTable,
    refs: FfMerkleFamilyRefs,
    region: usize,
    lane: int,
    slot: int,
)
    requires
        0 <= lane < 2,
        slot >= 1,
        table_at(t, refs.nodens, slot) == F128::one(),
        held_at(t, refs.d, slot - 1).is_bit(),
    ensures
        weight_at(
            t,
            family_link(MerkleProtocolFamily::FeedForward { refs, region }),
            (lane + 1) as nat,
            slot,
        ) == F128::zero() <==> held_at(t, refs.cr@[lane], slot) == held_at(
            t,
            refs.c@[lane],
            slot - 1,
        ).plus(ff_left(t, refs, slot - 1)[lane]),
{
    broadcast use {group_field_units, lemma_plus_is_zero};

    let g = |l: int| feed_forward_link(refs, l);
    let w = (lane + 1) as nat;
    lemma_own_lane(t, g, 2, lane, w, slot);
    let d = held_at(t, refs.d, slot - 1);
    let now = held_at(t, refs.cr@[lane], slot);
    let c = held_at(t, refs.c@[lane], slot - 1);
    let (x, y) = (held_at(t, refs.cr@[lane], slot - 1), held_at(t, refs.sib@[lane], slot - 1));
    lemma_link_sum(t, refs, lane, slot);
    assert(F128::one() != F128::zero());
    if d == F128::zero() {
        lemma_plus_assoc(now, c, x);
        lemma_plus_is_zero(now, c.plus(x));
    } else {
        assert(now.plus(c).plus(x).plus(x) == now.plus(c));
        lemma_plus_assoc(now, c, y);
        lemma_plus_is_zero(now, c.plus(y));
    }
}

proof fn lemma_link_sum(t: ColumnTable, refs: FfMerkleFamilyRefs, lane: int, slot: int)
    requires
        0 <= lane < 2,
        slot >= 1,
        table_at(t, refs.nodens, slot) == F128::one(),
    ensures
        ({
            let d = held_at(t, refs.d, slot - 1);
            let x = held_at(t, refs.cr@[lane], slot - 1);
            let y = held_at(t, refs.sib@[lane], slot - 1);
            weight_at(t, feed_forward_link(refs, lane), (lane + 1) as nat, slot) == held_at(
                t,
                refs.cr@[lane],
                slot,
            ).plus(held_at(t, refs.c@[lane], slot - 1)).plus(x).plus(d.times(x)).plus(d.times(y))
        }),
{
    broadcast use group_field_units;

    reveal_with_fuel(weight_sum, 6);
    reveal_with_fuel(product_at, 4);
}

/// The feed-forward compression of two digests.
pub open spec fn ff_compressed(
    p: Permutation,
    iv: Seq<F128>,
    left: Seq<F128>,
    right: Seq<F128>,
) -> Seq<F128> {
    let s = permuted(
        p,
        seq![left[0], left[1], right[0].plus(iv[0]), right[1].plus(iv[1])],
    );
    seq![s[0].plus(left[0]), s[1].plus(left[1])]
}

/// The digest that a path of feed-forward nodes gives.
pub open spec fn ff_root(
    p: Permutation,
    iv: Seq<F128>,
    entry: Seq<F128>,
    siblings: Seq<Seq<F128>>,
    directions: Seq<bool>,
    depth: nat,
) -> Seq<F128>
    decreases depth,
{
    if depth == 0 {
        entry
    } else {
        let l = depth - 1;
        let node = ff_root(p, iv, entry, siblings, directions, l as nat);
        if directions[l] {
            ff_compressed(p, iv, siblings[l], node)
        } else {
            ff_compressed(p, iv, node, siblings[l])
        }
    }
}

/// A slot whose columns are the permutation of the input that terms give.
pub open spec fn walked(
    t: ColumnTable,
    p: Permutation,
    s: Seq<Shape>,
    c: Seq<usize>,
    slot: int,
) -> bool {
    let input = Seq::new(4, |l: int| weight_at(t, s, l as nat, slot));
    forall|l: int| 0 <= l < 4 ==> held_at(t, #[trigger] c[l], slot) == permuted(p, input)[l]
}

/// A run of feed-forward nodes from `base` on.
pub open spec fn ff_run(
    t: ColumnTable,
    p: Permutation,
    iv: Seq<F128>,
    refs: FfMerkleFamilyRefs,
    region: usize,
    base: int,
    slot: int,
) -> bool {
    let f = MerkleProtocolFamily::FeedForward { refs, region };
    &&& table_at(t, region, slot) == F128::one()
    &&& table_at(t, refs.node, slot) == F128::one()
    &&& table_at(t, refs.iv@[0], slot) == iv[0]
    &&& table_at(t, refs.iv@[1], slot) == iv[1]
    &&& held_at(t, refs.d, slot).is_bit()
    &&& walked(t, p, family_feed_forward(f), refs.c@, slot)
    &&& slot > base ==> {
        &&& table_at(t, refs.nodens, slot) == F128::one()
        &&& weight_at(t, family_link(f), 1, slot) == F128::zero()
        &&& weight_at(t, family_link(f), 2, slot) == F128::zero()
    }
}

/// Soundness of a feed-forward family: in a run of nodes whose slots are walked and
/// whose links vanish, the child carried to a slot is the root of the path below
/// it, of the siblings and directions in the columns.
pub proof fn lemma_feed_forward_path(
    t: ColumnTable,
    p: Permutation,
    iv: Seq<F128>,
    refs: FfMerkleFamilyRefs,
    region: usize,
    base: int,
    depth: nat,
)
    requires
        base >= 0,
        iv.len() == 2,
        forall|k: int| base <= k <= base + depth ==> #[trigger] ff_run(t, p, iv, refs, region, base, k),
    ensures
        seq![
            held_at(t, refs.cr@[0], base + depth),
            held_at(t, refs.cr@[1], base + depth),
        ] == ff_root(
            p,
            iv,
            seq![held_at(t, refs.cr@[0], base), held_at(t, refs.cr@[1], base)],
            Seq::new(
                depth,
                |k: int|
                    seq![held_at(t, refs.sib@[0], base + k), held_at(t, refs.sib@[1], base + k)],
            ),
            Seq::new(depth, |k: int| held_at(t, refs.d, base + k) == F128::one()),
            depth,
        ),
    decreases depth,
{
    let entry = seq![held_at(t, refs.cr@[0], base), held_at(t, refs.cr@[1], base)];
    let sib = |k: int| seq![held_at(t, refs.sib@[0], base + k), held_at(t, refs.sib@[1], base + k)];
    let dir = |k: int| held_at(t, refs.d, base + k) == F128::one();
    let (ss, ds) = (Seq::new(depth, sib), Seq::new(depth, dir));
    if depth > 0 {
        let m = (depth - 1) as nat;
        let slot = base + depth;
        lemma_feed_forward_path(t, p, iv, refs, region, base, m);
        let (sm, dm) = (Seq::new(m, sib), Seq::new(m, dir));
        lemma_ff_root_prefix(p, iv, entry, ss, ds, sm, dm, m);
        assert(ff_run(t, p, iv, refs, region, base, slot));
        assert(ff_run(t, p, iv, refs, region, base, slot - 1));
        lemma_feed_forward_input(t, refs, region, 0, slot - 1);
        lemma_feed_forward_input(t, refs, region, 1, slot - 1);
        lemma_feed_forward_link(t, refs, region, 0, slot);
        lemma_feed_forward_link(t, refs, region, 1, slot);
        let f = MerkleProtocolFamily::FeedForward { refs, region };
        let terms = family_feed_forward(f);
        let (left, right) = (ff_left(t, refs, slot - 1), ff_right(t, refs, slot - 1));
        let input = Seq::new(4, |l: int| weight_at(t, terms, l as nat, slot - 1));
        assert(input =~= seq![left[0], left[1], right[0].plus(iv[0]), right[1].plus(iv[1])]) by {
            assert(input[2] == weight_at(t, terms, (0 + 2) as nat, slot - 1));
            assert(input[3] == weight_at(t, terms, (1 + 2) as nat, slot - 1));
        }
        assert(held_at(t, refs.c@[0], slot - 1) == permuted(p, input)[0]);
        assert(held_at(t, refs.c@[1], slot - 1) == permuted(p, input)[1]);
        let node = seq![held_at(t, refs.cr@[0], slot - 1), held_at(t, refs.cr@[1], slot - 1)];
        assert(ss[m as int] == sib(m as int));
        assert(ds[m as int] == dir(m as int));
        assert(F128::one() != F128::zero());
        assert(left =~= if dir(m as int) {
            sib(m as int)
        } else {
            node
        });
        assert(right =~= if dir(m as int) {
            node
        } else {
            sib(m as int)
        });
        assert(weight_at(t, family_link(f), (0 + 1) as nat, slot) == F128::zero());
        assert(weight_at(t, family_link(f), (1 + 1) as nat, slot) == F128::zero());
        assert(seq![held_at(t, refs.cr@[0], slot), held_at(t, refs.cr@[1], slot)]
            =~= ff_compressed(p, iv, left, right));
    }
}

proof fn lemma_ff_root_prefix(
    p: Permutation,
    iv: Seq<F128>,
    entry: Seq<F128>,
    a: Seq<Seq<F128>>,
    b: Seq<bool>,
    c: Seq<Seq<F128>>,
    d: Seq<bool>,
    n: nat,
)
    requires
        n <= a.len(),
        n <= b.len(),
        n <= c.len(),
        n <= d.len(),
        forall|i: int| 0 <= i < n ==> #[trigger] a[i] == c[i],
        forall|i: int| 0 <= i < n ==> #[trigger] b[i] == d[i],
    ensures
        ff_root(p, iv, entry, a, b, n) == ff_root(p, iv, entry, c, d, n),
    decreases n,
{
    if n > 0 {
        lemma_ff_root_prefix(p, iv, entry, a, b, c, d, (n - 1) as nat);
        assert(a[n - 1] == c[n - 1]);
        assert(b[n - 1] == d[n - 1]);
    }
}

// ---------------------------------------------------------------------------
// Two-permutation families
// ---------------------------------------------------------------------------

/// A level's first or second slot, the first level or a later one.
pub open spec fn two_tables(
    t: ColumnTable,
    refs: MerkleFamilyRefs,
    region: usize,
    even: bool,
    start: bool,
    slot: int,
) -> bool {
    &&& table_at(t, region, slot) == F128::one()
    &&& table_at(t, refs.even, slot) == F128::of_bool(even)
    &&& table_at(t, refs.evenstart, slot) == F128::of_bool(even && start)
    &&& table_at(t, refs.evenns, slot) == F128::of_bool(even && !start)
    &&& table_at(t, refs.odd, slot) == F128::of_bool(!even)
    &&& table_at(t, refs.oddstart, slot) == F128::of_bool(!even && start)
    &&& table_at(t, refs.oddns, slot) == F128::of_bool(!even && !start)
}

/// The digest that comes to a level: the entry at the first, else what the slot
/// before holds.
pub open spec fn two_current(
    t: ColumnTable,
    refs: MerkleFamilyRefs,
    start: bool,
    lane: int,
    slot: int,
) -> F128 {
    if start {
        held_at(t, refs.e@[lane], slot)
    } else {
        held_at(t, refs.c@[lane], slot - 1)
    }
}

proof fn lemma_two_even(
    t: ColumnTable,
    refs: MerkleFamilyRefs,
    region: usize,
    start: bool,
    lane: int,
    slot: int,
)
    requires
        0 <= lane < 2,
        slot >= 0,
        slot >= 1 || start,
        two_tables(t, refs, region, true, start, slot),
    ensures
        ({
            let d = held_at(t, refs.d, slot);
            let x = two_current(t, refs, start, lane, slot);
            weight_at(t, two_permutation_lane(refs, region, lane), lane as nat, slot) == if start {
                d.times(held_at(t, refs.sib@[lane], slot)).plus(x).plus(d.times(x))
            } else {
                x.plus(d.times(x)).plus(d.times(held_at(t, refs.sib@[lane], slot)))
            }
        }),
{
    broadcast use {group_field_units, lemma_plus_is_zero};

    reveal_with_fuel(weight_sum, 11);
    reveal_with_fuel(product_at, 4);
}

proof fn lemma_two_odd(
    t: ColumnTable,
    refs: MerkleFamilyRefs,
    region: usize,
    start: bool,
    lane: int,
    slot: int,
)
    requires
        0 <= lane < 2,
        slot >= 1,
        slot >= 2 || start,
        two_tables(t, refs, region, false, start, slot),
    ensures
        ({
            let d = held_at(t, refs.d, slot - 1);
            let s = held_at(t, refs.sib@[lane], slot - 1);
            weight_at(t, two_permutation_lane(refs, region, lane), lane as nat, slot) == held_at(
                t,
                refs.c@[lane],
                slot - 1,
            ).plus(s).plus(d.times(s)).plus(
                d.times(two_current(t, refs, start, lane, slot - 1)),
            )
        }),
{
    broadcast use group_field_units;

    reveal_with_fuel(weight_sum, 11);
    reveal_with_fuel(product_at, 4);
}

/// At a slot of a two-permutation level the terms add up to the compression's
/// input: at the first slot the left child over the capacity value, at the second
/// the state before it with the right child added. The digest that comes to the
/// level is the left child where the direction is unset.
pub proof fn lemma_two_permutation_input(
    t: ColumnTable,
    refs: MerkleFamilyRefs,
    region: usize,
    even: bool,
    start: bool,
    lane: int,
    slot: int,
)
    requires
        0 <= lane < 2,
        slot >= (if even {
            0int
        } else {
            1int
        }) + (if start {
            0int
        } else {
            1int
        }),
        two_tables(t, refs, region, even, start, slot),
        even ==> held_at(t, refs.d, slot).is_bit(),
        !even ==> held_at(t, refs.d, slot - 1).is_bit(),
    ensures
        ({
            let s = family_two_permutation(MerkleProtocolFamily::TwoPermutation { refs, region });
            let at = if even {
                slot
            } else {
                slot - 1
            };
            let x = two_current(t, refs, start, lane, at);
            let y = held_at(t, refs.sib@[lane], at);
            let set = held_at(t, refs.d, at) == F128::one();
            &&& weight_at(t, s, lane as nat, slot) == if even {
                if set {
                    y
                } else {
                    x
                }
            } else {
                held_at(t, refs.c@[lane], slot - 1).plus(
                    if set {
                        x
                    } else {
                        y
                    },
                )
            }
            &&& weight_at(t, s, (lane + 2) as nat, slot) == if even {
                table_at(t, refs.iv@[lane], slot)
            } else {
                held_at(t, refs.c@[lane + 2], slot - 1).plus(table_at(t, refs.iv@[lane], slot))
            }
        }),
{
    broadcast use {group_field_units, lemma_plus_is_zero};

    let f = |l: int| two_permutation_lane(refs, region, l);
    lemma_own_lane(t, f, 4, lane, lane as nat, slot);
    lemma_own_lane(t, f, 4, lane + 2, (lane + 2) as nat, slot);
    lemma_two_capacity(t, refs, region, lane + 2, slot);
    assert(F128::one() != F128::zero());
    let e = cell(t, ColRef::CommittedShift(refs.c@[lane + 2]), slot);
    if even {
        lemma_two_even(t, refs, region, start, lane, slot);
        let x = two_current(t, refs, start, lane, slot);
        let y = held_at(t, refs.sib@[lane], slot);
        assert(y.plus(x).plus(x) == y);
        assert(e.plus(e) == F128::zero());
    } else {
        lemma_two_odd(t, refs, region, start, lane, slot);
        let c = held_at(t, refs.c@[lane], slot - 1);
        let y = held_at(t, refs.sib@[lane], slot - 1);
        assert(c.plus(y).plus(y) == c);
    }
}

proof fn lemma_two_capacity(
    t: ColumnTable,
    refs: MerkleFamilyRefs,
    region: usize,
    lane: int,
    slot: int,
)
    requires
        2 <= lane < 4,
    ensures
        ({
            let c = cell(t, ColRef::CommittedShift(refs.c@[lane]), slot);
            weight_at(t, two_permutation_lane(refs, region, lane), lane as nat, slot) == table_at(
                t,
                region,
                slot,
            ).times(c).plus(table_at(t, refs.even, slot).times(c)).plus(
                table_at(t, refs.iv@[lane - 2], slot),
            )
        }),
{
    broadcast use group_field_units;

    reveal_with_fuel(weight_sum, 4);
    reveal_with_fuel(product_at, 3);
}

/// The two slots of a level, walked.
pub open spec fn two_level(
    t: ColumnTable,
    p: Permutation,
    iv: Seq<F128>,
    refs: MerkleFamilyRefs,
    region: usize,
    base: int,
    level: int,
) -> bool {
    let (even, odd) = (base + 2 * level, base + 2 * level + 1);
    let s = family_two_permutation(MerkleProtocolFamily::TwoPermutation { refs, region });
    &&& two_tables(t, refs, region, true, level == 0, even)
    &&& two_tables(t, refs, region, false, level == 0, odd)
    &&& table_at(t, refs.iv@[0], even) == iv[0]
    &&& table_at(t, refs.iv@[1], even) == iv[1]
    &&& table_at(t, refs.iv@[0], odd) == F128::zero()
    &&& table_at(t, refs.iv@[1], odd) == F128::zero()
    &&& held_at(t, refs.d, even).is_bit()
    &&& walked(t, p, s, refs.c@, even)
    &&& walked(t, p, s, refs.c@, odd)
}

/// One walked level makes the parent of what comes to it.
proof fn lemma_two_level(
    t: ColumnTable,
    p: Permutation,
    iv: Seq<F128>,
    refs: MerkleFamilyRefs,
    region: usize,
    base: int,
    level: int,
    node: Seq<F128>,
)
    requires
        base >= 0,
        level >= 0,
        iv.len() == 2,
        node.len() == 2,
        two_level(t, p, iv, refs, region, base, level),
        node[0] == two_current(t, refs, level == 0, 0, base + 2 * level),
        node[1] == two_current(t, refs, level == 0, 1, base + 2 * level),
    ensures
        ({
            let even = base + 2 * level;
            let sib = seq![held_at(t, refs.sib@[0], even), held_at(t, refs.sib@[1], even)];
            seq![held_at(t, refs.c@[0], even + 1), held_at(t, refs.c@[1], even + 1)] == parent(
                p,
                iv,
                node,
                sib,
                held_at(t, refs.d, even) == F128::one(),
            )
        }),
{
    broadcast use group_field_units;

    let (even, odd) = (base + 2 * level, base + 2 * level + 1);
    let start = level == 0;
    let s = family_two_permutation(MerkleProtocolFamily::TwoPermutation { refs, region });
    let sib = seq![held_at(t, refs.sib@[0], even), held_at(t, refs.sib@[1], even)];
    let set = held_at(t, refs.d, even) == F128::one();
    lemma_two_permutation_input(t, refs, region, true, start, 0, even);
    lemma_two_permutation_input(t, refs, region, true, start, 1, even);
    lemma_two_permutation_input(t, refs, region, false, start, 0, odd);
    lemma_two_permutation_input(t, refs, region, false, start, 1, odd);
    let (left, right) = if set {
        (sib, node)
    } else {
        (node, sib)
    };
    let first = Seq::new(4, |l: int| weight_at(t, s, l as nat, even));
    let second = Seq::new(4, |l: int| weight_at(t, s, l as nat, odd));
    assert(first[2] == weight_at(t, s, (0 + 2) as nat, even));
    assert(first[3] == weight_at(t, s, (1 + 2) as nat, even));
    assert(second[2] == weight_at(t, s, (0 + 2) as nat, odd));
    assert(second[3] == weight_at(t, s, (1 + 2) as nat, odd));
    assert(first =~= seq![left[0], left[1], iv[0], iv[1]]);
    let m = permuted(p, first);
    assert(held_at(t, refs.c@[0], even) == m[0] && held_at(t, refs.c@[1], even) == m[1]);
    assert(held_at(t, refs.c@[2], even) == m[2] && held_at(t, refs.c@[3], even) == m[3]);
    assert(second =~= seq![m[0].plus(right[0]), m[1].plus(right[1]), m[2], m[3]]);
    assert(held_at(t, refs.c@[0], odd) == permuted(p, second)[0]);
    assert(held_at(t, refs.c@[1], odd) == permuted(p, second)[1]);
    assert(seq![held_at(t, refs.c@[0], odd), held_at(t, refs.c@[1], odd)] =~= compressed(
        p,
        iv,
        left,
        right,
    ));
}

/// Soundness of a two-permutation family: in walked levels the digest after any
/// number of them is the root of the path from the entry, of the siblings and
/// directions in the columns.
pub proof fn lemma_two_permutation_path(
    t: ColumnTable,
    p: Permutation,
    iv: Seq<F128>,
    refs: MerkleFamilyRefs,
    region: usize,
    base: int,
    depth: nat,
)
    requires
        base >= 0,
        iv.len() == 2,
        depth >= 1,
        forall|k: int| 0 <= k < depth ==> #[trigger] two_level(t, p, iv, refs, region, base, k),
    ensures
        ({
            let last = base + 2 * depth - 1;
            seq![held_at(t, refs.c@[0], last), held_at(t, refs.c@[1], last)] == path_root(
                p,
                iv,
                seq![held_at(t, refs.e@[0], base), held_at(t, refs.e@[1], base)],
                Seq::new(
                    depth,
                    |k: int|
                        seq![
                            held_at(t, refs.sib@[0], base + 2 * k),
                            held_at(t, refs.sib@[1], base + 2 * k),
                        ],
                ),
                Seq::new(depth, |k: int| held_at(t, refs.d, base + 2 * k) == F128::one()),
                depth,
            )
        }),
    decreases depth,
{
    let entry = seq![held_at(t, refs.e@[0], base), held_at(t, refs.e@[1], base)];
    let sib = |k: int|
        seq![held_at(t, refs.sib@[0], base + 2 * k), held_at(t, refs.sib@[1], base + 2 * k)];
    let dir = |k: int| held_at(t, refs.d, base + 2 * k) == F128::one();
    let (ss, ds) = (Seq::new(depth, sib), Seq::new(depth, dir));
    let m = (depth - 1) as nat;
    let node = path_root(p, iv, entry, ss, ds, m);
    assert(two_level(t, p, iv, refs, region, base, m as int));
    if depth > 1 {
        lemma_two_permutation_path(t, p, iv, refs, region, base, m);
        let (sm, dm) = (Seq::new(m, sib), Seq::new(m, dir));
        lemma_path_prefix(p, iv, entry, ss, ds, sm, dm, m);
        let last = base + 2 * m - 1;
        assert(node == seq![held_at(t, refs.c@[0], last), held_at(t, refs.c@[1], last)]);
    }
    lemma_two_level(t, p, iv, refs, region, base, m as int, node);
    assert(ss[m as int] == sib(m as int));
    assert(ds[m as int] == dir(m as int));
}

proof fn lemma_path_prefix(
    p: Permutation,
    iv: Seq<F128>,
    entry: Seq<F128>,
    a: Seq<Seq<F128>>,
    b: Seq<bool>,
    c: Seq<Seq<F128>>,
    d: Seq<bool>,
    n: nat,
)
    requires
        n <= a.len(),
        n <= b.len(),
        n <= c.len(),
        n <= d.len(),
        forall|i: int| 0 <= i < n ==> #[trigger] a[i] == c[i],
        forall|i: int| 0 <= i < n ==> #[trigger] b[i] == d[i],
    ensures
        path_root(p, iv, entry, a, b, n) == path_root(p, iv, entry, c, d, n),
    decreases n,
{
    if n > 0 {
        lemma_path_prefix(p, iv, entry, a, b, c, d, (n - 1) as nat);
        assert(a[n - 1] == c[n - 1]);
        assert(b[n - 1] == d[n - 1]);
    }
}

/// Where a level starts, the direction terms vanish exactly where the direction is
/// a bit.
pub proof fn lemma_direction_means(
    t: ColumnTable,
    refs: MerkleFamilyRefs,
    region: usize,
    slot: int,
)
    requires
        table_at(t, refs.even, slot) == F128::one(),
    ensures
        weight_at(
            t,
            family_direction(MerkleProtocolFamily::TwoPermutation { refs, region }),
            0,
            slot,
        ) == F128::zero() <==> held_at(t, refs.d, slot).is_bit(),
{
    broadcast use group_field_units;

    reveal_with_fuel(weight_sum, 3);
    reveal_with_fuel(product_at, 4);
    let d = held_at(t, refs.d, slot);
    lemma_plus_is_zero(d.times(d), d);
    crate::field::lemma_square_fixed(d);
}

// ---------------------------------------------------------------------------
// Paired updates
// ---------------------------------------------------------------------------

/// Within its region, a paired family's terms add up to the input that its columns
/// give.
pub proof fn lemma_paired_input(
    t: ColumnTable,
    refs: PairedMerkleUpdateRefs,
    region: usize,
    iv: Seq<F128>,
    lane: int,
    slot: int,
)
    requires
        0 <= lane < 4,
        slot >= 0,
        tables_at(t, refs, iv),
        table_at(t, region, slot) == F128::one(),
    ensures
        weight_at(
            t,
            family_paired(MerkleProtocolFamily::PairedUpdate { refs, region }),
            lane as nat,
            slot,
        ) == input_lane(t, refs, iv, slot, lane),
{
    let f = |l: int| gated_terms(l, region, input_factors(refs, l));
    lemma_own_lane(t, f, 4, lane, lane as nat, slot);
    let fs = input_factors(refs, lane);
    lemma_gated_sum(t, lane, region, fs, slot, fs.len());
    crate::paired_relations::lemma_input_lane(t, refs, iv, slot, lane);
}

proof fn lemma_gated_sum(
    t: ColumnTable,
    lane: int,
    region: usize,
    fs: Seq<Seq<ColRef>>,
    slot: int,
    n: nat,
)
    requires
        0 <= lane,
        n <= fs.len(),
        table_at(t, region, slot) == F128::one(),
    ensures
        weight_sum(t, gated_terms(lane, region, fs), lane as nat, slot, n) == factor_sum(
            t,
            fs,
            slot,
            n,
        ),
    decreases n,
{
    if n > 0 {
        lemma_gated_sum(t, lane, region, fs, slot, (n - 1) as nat);
        lemma_gated_factors(t, region, fs[n - 1], slot);
    }
}

/// A gate that is open does not count.
proof fn lemma_gated_factors(t: ColumnTable, region: usize, f: Seq<ColRef>, slot: int)
    requires
        table_at(t, region, slot) == F128::one(),
    ensures
        factors_at(t, gated(region, f), slot) == factors_at(t, f, slot),
{
    if !has_fixed(f) {
        lemma_gated_prefix(t, region, f, slot, f.len());
    }
}

proof fn lemma_gated_prefix(t: ColumnTable, region: usize, f: Seq<ColRef>, slot: int, n: nat)
    requires
        n <= f.len(),
        table_at(t, region, slot) == F128::one(),
    ensures
        product_at(
            t,
            Product { coeff: F128::one(), factors: seq![ColRef::Fixed(region)] + f },
            slot,
            n + 1,
        ) == product_at(t, Product { coeff: F128::one(), factors: f }, slot, n),
    decreases n,
{
    broadcast use group_field_units;

    let g = seq![ColRef::Fixed(region)] + f;
    if n == 0 {
        reveal_with_fuel(product_at, 2);
        assert(g[0] == ColRef::Fixed(region));
    } else {
        lemma_gated_prefix(t, region, f, slot, (n - 1) as nat);
        assert(g[n as int] == f[n - 1]);
    }
}

// ---------------------------------------------------------------------------
// Leaf sponges
// ---------------------------------------------------------------------------

/// At a slot of a leaf the terms add up to the sponge's input: a first block over
/// the capacity value, a later block added to the state of the slot before.
pub proof fn lemma_sponge_input(
    t: ColumnTable,
    refs: SpongeLeafRefs,
    region: usize,
    odd: bool,
    lane: int,
    slot: int,
)
    requires
        0 <= lane < 2,
        slot >= 0,
        odd ==> slot >= 1,
        table_at(t, region, slot) == F128::one(),
        table_at(t, refs.odd, slot) == F128::of_bool(odd),
    ensures
        ({
            let s = sponge_lane_terms(refs, region);
            let block = held_at(t, refs.in_@[lane], slot);
            let v = table_at(t, refs.iv@[lane], slot);
            &&& weight_at(t, s, lane as nat, slot) == if odd {
                held_at(t, refs.c@[lane], slot - 1).plus(block)
            } else {
                block
            }
            &&& weight_at(t, s, (lane + 2) as nat, slot) == if odd {
                held_at(t, refs.c@[lane + 2], slot - 1).plus(v)
            } else {
                v
            }
        }),
{
    broadcast use group_field_units;

    let f = |l: int| sponge_lane(refs, region, l);
    lemma_own_lane(t, f, 4, lane, lane as nat, slot);
    lemma_own_lane(t, f, 4, lane + 2, (lane + 2) as nat, slot);
    lemma_sponge_sum(t, refs, region, lane, slot);
    lemma_sponge_sum(t, refs, region, lane + 2, slot);
    let block = held_at(t, refs.in_@[lane], slot);
    lemma_plus_comm(block, cell(t, ColRef::CommittedShift(refs.c@[lane]), slot));
    lemma_plus_comm(
        table_at(t, refs.iv@[lane], slot),
        cell(t, ColRef::CommittedShift(refs.c@[lane + 2]), slot),
    );
}

proof fn lemma_sponge_sum(
    t: ColumnTable,
    refs: SpongeLeafRefs,
    region: usize,
    lane: int,
    slot: int,
)
    requires
        0 <= lane < 4,
        table_at(t, region, slot) == F128::one(),
    ensures
        weight_at(t, sponge_lane(refs, region, lane), lane as nat, slot) == (if lane < 2 {
            held_at(t, refs.in_@[lane], slot)
        } else {
            table_at(t, refs.iv@[lane - 2], slot)
        }).plus(
            table_at(t, refs.odd, slot).times(
                cell(t, ColRef::CommittedShift(refs.c@[lane]), slot),
            ),
        ),
{
    broadcast use group_field_units;

    reveal_with_fuel(weight_sum, 3);
    reveal_with_fuel(product_at, 3);
    let first = if lane < 2 {
        seq![ColRef::Committed(refs.in_@[lane])]
    } else {
        seq![ColRef::Fixed(refs.iv@[lane - 2])]
    };
    lemma_gated_factors(t, region, first, slot);
    lemma_gated_factors(
        t,
        region,
        seq![ColRef::Fixed(refs.odd), ColRef::CommittedShift(refs.c@[lane])],
        slot,
    );
}

/// A slot of a leaf, walked. The capacity value stands where a leaf starts.
pub open spec fn sponge_slot(
    t: ColumnTable,
    p: Permutation,
    iv: Seq<F128>,
    refs: SpongeLeafRefs,
    region: usize,
    base: int,
    slot: int,
) -> bool {
    let first = slot == base;
    &&& table_at(t, region, slot) == F128::one()
    &&& table_at(t, refs.odd, slot) == F128::of_bool(!first)
    &&& table_at(t, refs.iv@[0], slot) == if first {
        iv[0]
    } else {
        F128::zero()
    }
    &&& table_at(t, refs.iv@[1], slot) == if first {
        iv[1]
    } else {
        F128::zero()
    }
    &&& walked(t, p, sponge_lane_terms(refs, region), refs.c@, slot)
}

/// Soundness of a leaf sponge: after `n` walked slots the columns hold the sponge
/// of the `n` blocks that were absorbed.
pub proof fn lemma_sponge_walk(
    t: ColumnTable,
    p: Permutation,
    iv: Seq<F128>,
    refs: SpongeLeafRefs,
    region: usize,
    base: int,
    n: nat,
)
    requires
        base >= 0,
        iv.len() == 2,
        n >= 1,
        forall|k: int|
            base <= k < base + n ==> #[trigger] sponge_slot(t, p, iv, refs, region, base, k),
    ensures
        ({
            let blocks = Seq::new(
                n,
                |k: int|
                    seq![held_at(t, refs.in_@[0], base + k), held_at(t, refs.in_@[1], base + k)],
            );
            forall|l: int|
                0 <= l < 4 ==> held_at(t, #[trigger] refs.c@[l], base + n - 1) == sponge_state(
                    p,
                    iv,
                    blocks,
                    n,
                )[l]
        }),
    decreases n,
{
    broadcast use group_field_units;

    let block = |k: int|
        seq![held_at(t, refs.in_@[0], base + k), held_at(t, refs.in_@[1], base + k)];
    let blocks = Seq::new(n, block);
    let m = (n - 1) as nat;
    let slot = base + m;
    let s = sponge_lane_terms(refs, region);
    assert(sponge_slot(t, p, iv, refs, region, base, slot));
    lemma_sponge_input(t, refs, region, m > 0, 0, slot);
    lemma_sponge_input(t, refs, region, m > 0, 1, slot);
    let input = Seq::new(4, |l: int| weight_at(t, s, l as nat, slot));
    assert(input[2] == weight_at(t, s, (0 + 2) as nat, slot));
    assert(input[3] == weight_at(t, s, (1 + 2) as nat, slot));
    let before = sponge_state(p, iv, blocks, m);
    assert(blocks[m as int] == block(m as int));
    if m > 0 {
        lemma_sponge_walk(t, p, iv, refs, region, base, m);
        let shorter = Seq::new(m, block);
        lemma_sponge_prefix(p, iv, blocks, shorter, m);
        assert(before == sponge_state(p, iv, shorter, m));
        assert(held_at(t, refs.c@[0], slot - 1) == before[0]);
        assert(held_at(t, refs.c@[1], slot - 1) == before[1]);
        assert(held_at(t, refs.c@[2], slot - 1) == before[2]);
        assert(held_at(t, refs.c@[3], slot - 1) == before[3]);
    }
    assert(input =~= absorbed(before, blocks[m as int]));
}

proof fn lemma_sponge_prefix(
    p: Permutation,
    iv: Seq<F128>,
    a: Seq<Seq<F128>>,
    b: Seq<Seq<F128>>,
    n: nat,
)
    requires
        n <= a.len(),
        n <= b.len(),
        forall|i: int| 0 <= i < n ==> #[trigger] a[i] == b[i],
    ensures
        sponge_state(p, iv, a, n) == sponge_state(p, iv, b, n),
    decreases n,
{
    if n > 0 {
        lemma_sponge_prefix(p, iv, a, b, (n - 1) as nat);
        assert(a[n - 1] == b[n - 1]);
    }
}

// ---------------------------------------------------------------------------
// Tails of split duplexes
// ---------------------------------------------------------------------------

/// At a slot of a tail the terms add up to the input of its permutation. A first
/// slot takes its own pair, with the constants, and the pair of the slot before as
/// its capacity; a carried slot adds its pair to the state of the slot before.
pub proof fn lemma_split_tail_input(
    t: ColumnTable,
    refs: SplitDuplexTailRefs,
    first: bool,
    lane: int,
    slot: int,
)
    requires
        0 <= lane < 2,
        slot >= 1,
        table_at(t, refs.region, slot) == F128::one(),
        table_at(t, refs.first, slot) == F128::of_bool(first),
        table_at(t, refs.carry, slot) == F128::of_bool(!first),
    ensures
        ({
            let s = split_tail_lane_terms(refs);
            let own = held_at(t, refs.a@[lane], slot).plus(table_at(t, refs.consts@[lane], slot));
            &&& weight_at(t, s, lane as nat, slot) == if first {
                own
            } else {
                own.plus(held_at(t, refs.c@[lane], slot - 1))
            }
            &&& weight_at(t, s, (lane + 2) as nat, slot) == if first {
                held_at(t, refs.a@[lane], slot - 1)
            } else {
                held_at(t, refs.c@[lane + 2], slot - 1)
            }
        }),
{
    broadcast use group_field_units;

    let f = |l: int| split_tail_lane(refs, l);
    lemma_own_lane(t, f, 4, lane, lane as nat, slot);
    lemma_own_lane(t, f, 4, lane + 2, (lane + 2) as nat, slot);
    lemma_tail_sum(t, refs, lane, slot);
}

proof fn lemma_tail_sum(t: ColumnTable, refs: SplitDuplexTailRefs, lane: int, slot: int)
    requires
        0 <= lane < 2,
        slot >= 1,
    ensures
        weight_at(t, split_tail_lane(refs, lane), lane as nat, slot) == table_at(
            t,
            refs.region,
            slot,
        ).times(held_at(t, refs.a@[lane], slot)).plus(table_at(t, refs.consts@[lane], slot)).plus(
            table_at(t, refs.carry, slot).times(held_at(t, refs.c@[lane], slot - 1)),
        ),
        weight_at(t, split_tail_lane(refs, lane + 2), (lane + 2) as nat, slot) == table_at(
            t,
            refs.first,
            slot,
        ).times(held_at(t, refs.a@[lane], slot - 1)).plus(
            table_at(t, refs.carry, slot).times(held_at(t, refs.c@[lane + 2], slot - 1)),
        ),
{
    broadcast use group_field_units;

    reveal_with_fuel(weight_sum, 4);
    reveal_with_fuel(product_at, 3);
}

// ---------------------------------------------------------------------------
// Source trees
// ---------------------------------------------------------------------------

/// At a slot of a source tree the terms add up to the input of its permutation: an
/// inner node's left child over the capacity value, then its right child added to
/// the state of the slot before, and at a leaf its code over the capacity value.
pub proof fn lemma_source_tree_input(
    t: ColumnTable,
    refs: SourceTreeRefs,
    kind: int,
    lane: int,
    slot: int,
)
    requires
        0 <= lane < 2,
        0 <= kind < 3,
        slot >= 1,
        table_at(t, refs.even_int, slot) == F128::of_bool(kind == 0),
        table_at(t, refs.odd_int, slot) == F128::of_bool(kind == 1),
        table_at(t, refs.leafodd, slot) == F128::of_bool(kind == 2),
    ensures
        ({
            let s = source_tree_lane_terms(refs);
            let kid = held_at(t, refs.kid@[lane], slot);
            let v = table_at(t, refs.iv@[lane], slot);
            &&& weight_at(t, s, lane as nat, slot) == if kind == 0 {
                kid
            } else if kind == 1 {
                kid.plus(held_at(t, refs.c@[lane], slot - 1))
            } else {
                held_at(t, refs.code@[lane], slot)
            }
            &&& weight_at(t, s, (lane + 2) as nat, slot) == if kind == 1 {
                v.plus(held_at(t, refs.c@[lane + 2], slot - 1))
            } else {
                v
            }
        }),
{
    broadcast use group_field_units;

    let f = |l: int| source_tree_lane(refs, l);
    lemma_own_lane(t, f, 4, lane, lane as nat, slot);
    lemma_own_lane(t, f, 4, lane + 2, (lane + 2) as nat, slot);
    lemma_tree_sum(t, refs, lane, slot);
}

proof fn lemma_tree_sum(t: ColumnTable, refs: SourceTreeRefs, lane: int, slot: int)
    requires
        0 <= lane < 2,
        slot >= 1,
    ensures
        ({
            let (even, odd) = (table_at(t, refs.even_int, slot), table_at(t, refs.odd_int, slot));
            let kid = held_at(t, refs.kid@[lane], slot);
            &&& weight_at(t, source_tree_lane(refs, lane), lane as nat, slot) == even.times(
                kid,
            ).plus(odd.times(kid)).plus(odd.times(held_at(t, refs.c@[lane], slot - 1))).plus(
                table_at(t, refs.leafodd, slot).times(held_at(t, refs.code@[lane], slot)),
            )
            &&& weight_at(t, source_tree_lane(refs, lane + 2), (lane + 2) as nat, slot)
                == table_at(t, refs.iv@[lane], slot).plus(
                odd.times(held_at(t, refs.c@[lane + 2], slot - 1)),
            )
        }),
{
    broadcast use group_field_units;

    reveal_with_fuel(weight_sum, 5);
    reveal_with_fuel(product_at, 3);
}

/// Soundness of an inner node of a source tree: two walked slots hold the
/// compression of its children.
pub proof fn lemma_source_tree_node(
    t: ColumnTable,
    p: Permutation,
    iv: Seq<F128>,
    refs: SourceTreeRefs,
    slot: int,
)
    requires
        slot >= 1,
        iv.len() == 2,
        table_at(t, refs.even_int, slot) == F128::one(),
        table_at(t, refs.odd_int, slot) == F128::zero(),
        table_at(t, refs.leafodd, slot) == F128::zero(),
        table_at(t, refs.even_int, slot + 1) == F128::zero(),
        table_at(t, refs.odd_int, slot + 1) == F128::one(),
        table_at(t, refs.leafodd, slot + 1) == F128::zero(),
        table_at(t, refs.iv@[0], slot) == iv[0],
        table_at(t, refs.iv@[1], slot) == iv[1],
        table_at(t, refs.iv@[0], slot + 1) == F128::zero(),
        table_at(t, refs.iv@[1], slot + 1) == F128::zero(),
        walked(t, p, source_tree_lane_terms(refs), refs.c@, slot),
        walked(t, p, source_tree_lane_terms(refs), refs.c@, slot + 1),
    ensures
        seq![held_at(t, refs.c@[0], slot + 1), held_at(t, refs.c@[1], slot + 1)] == compressed(
            p,
            iv,
            seq![held_at(t, refs.kid@[0], slot), held_at(t, refs.kid@[1], slot)],
            seq![held_at(t, refs.kid@[0], slot + 1), held_at(t, refs.kid@[1], slot + 1)],
        ),
{
    broadcast use group_field_units;

    let s = source_tree_lane_terms(refs);
    lemma_source_tree_input(t, refs, 0, 0, slot);
    lemma_source_tree_input(t, refs, 0, 1, slot);
    lemma_source_tree_input(t, refs, 1, 0, slot + 1);
    lemma_source_tree_input(t, refs, 1, 1, slot + 1);
    let a = seq![held_at(t, refs.kid@[0], slot), held_at(t, refs.kid@[1], slot)];
    let b = seq![held_at(t, refs.kid@[0], slot + 1), held_at(t, refs.kid@[1], slot + 1)];
    let first = Seq::new(4, |l: int| weight_at(t, s, l as nat, slot));
    let second = Seq::new(4, |l: int| weight_at(t, s, l as nat, slot + 1));
    assert(first[2] == weight_at(t, s, (0 + 2) as nat, slot));
    assert(first[3] == weight_at(t, s, (1 + 2) as nat, slot));
    assert(second[2] == weight_at(t, s, (0 + 2) as nat, slot + 1));
    assert(second[3] == weight_at(t, s, (1 + 2) as nat, slot + 1));
    assert(first =~= seq![a[0], a[1], iv[0], iv[1]]);
    let m = permuted(p, first);
    assert(held_at(t, refs.c@[0], slot) == m[0] && held_at(t, refs.c@[1], slot) == m[1]);
    assert(held_at(t, refs.c@[2], slot) == m[2] && held_at(t, refs.c@[3], slot) == m[3]);
    lemma_plus_comm(b[0], m[0]);
    lemma_plus_comm(b[1], m[1]);
    assert(second =~= seq![m[0].plus(b[0]), m[1].plus(b[1]), m[2], m[3]]);
    assert(held_at(t, refs.c@[0], slot + 1) == permuted(p, second)[0]);
    assert(held_at(t, refs.c@[1], slot + 1) == permuted(p, second)[1]);
    assert(seq![held_at(t, refs.c@[0], slot + 1), held_at(t, refs.c@[1], slot + 1)]
        =~= compressed(p, iv, a, b));
}

} // verus!
