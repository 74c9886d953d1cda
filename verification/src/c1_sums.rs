//! What joined terms mean: duplexes with their recordings, the spine's exposure,
//! unions of families, and a relation under its weights.

use vstd::prelude::*;
use crate::c1_meaning::{
    held_at, lemma_no_weight, lemma_own_lane, lemma_weight_concat, table_at, weight_at, weight_sum,
};
use crate::c1_terms::{
    direction_terms, duplex_carry, duplex_carry_terms, duplex_lane, duplex_lane_terms, duplex_pairs,
    duplex_selected_shapes, duplex_sets, duplex_shapes, exposure_shapes, family_direction,
    family_feed_forward, family_link, family_paired, family_paired_zero, family_two_permutation,
    feed_forward_carry_terms, feed_forward_link_terms, feed_forward_node_terms, gather,
    leaves_shapes, mds_weight, mds_weights, paired_terms, paired_zero_terms, source_tree_lane_terms,
    split_tail_lane_terms, sponge_lane_terms, substitution_shapes, tails_shapes,
    two_permutation_lane_terms, walk_a_shapes, weight_of, weighted, zero_shapes, C1Term,
    DuplexFamilyRefs, MerkleProtocolFamily, Shape, SplitDuplexTailRefs, SpongeLeafRefs, WalkAUnion,
};
use crate::extension::{Extension, F256};
use crate::field::{
    group_field_units, lemma_plus_assoc, lemma_plus_comm, lemma_plus_is_zero, lemma_plus_swap,
    lemma_times_assoc, lemma_times_comm, lemma_times_plus, F128,
};
use crate::poseidon::{dot, mds};
use crate::relations::{factors_at, product_at, ColumnTable};
use crate::sumcheck::lemma_plus_times;

verus! {

// ---------------------------------------------------------------------------
// Duplexes
// ---------------------------------------------------------------------------

/// A family does nothing at a slot: it neither starts nor absorbs, and has no
/// constants there.
pub open spec fn idle(t: ColumnTable, refs: DuplexFamilyRefs, slot: int) -> bool {
    &&& table_at(t, refs.start, slot) == F128::zero()
    &&& forall|l: int| 0 <= l < 2 ==> table_at(t, #[trigger] refs.abs@[l], slot) == F128::zero()
    &&& forall|l: int| 0 <= l < 4 ==> table_at(t, #[trigger] refs.consts@[l], slot) == F128::zero()
}

/// The state before a slot.
pub open spec fn state_before(t: ColumnTable, refs: DuplexFamilyRefs, lane: int, slot: int) -> F128 {
    if slot >= 1 {
        held_at(t, refs.c@[lane], slot - 1)
    } else {
        F128::zero()
    }
}

/// What a family adds to a lane: an absorbed value, and the lane's constant.
pub open spec fn fed(t: ColumnTable, refs: DuplexFamilyRefs, lane: int, slot: int) -> F128 {
    let k = table_at(t, refs.consts@[lane], slot);
    if lane < 2 && table_at(t, refs.abs@[lane], slot) == F128::one() {
        held_at(t, refs.a@[lane], slot).plus(k)
    } else {
        k
    }
}

proof fn lemma_duplex_lane(
    t: ColumnTable,
    refs: DuplexFamilyRefs,
    offset: usize,
    lane: int,
    slot: int,
)
    requires
        0 <= lane < 4,
        offset <= 4,
    ensures
        weight_at(t, duplex_lane_terms(refs, offset), (offset + lane) as nat, slot) == table_at(
            t,
            refs.start,
            slot,
        ).times(state_before(t, refs, lane, slot)).plus(
            if lane < 2 {
                table_at(t, refs.abs@[lane], slot).times(held_at(t, refs.a@[lane], slot)).plus(
                    table_at(t, refs.consts@[lane], slot),
                )
            } else {
                table_at(t, refs.consts@[lane], slot)
            },
        ),
        forall|w: nat|
            w < offset || offset + 4 <= w ==> #[trigger] weight_at(
                t,
                duplex_lane_terms(refs, offset),
                w,
                slot,
            ) == F128::zero(),
{
    broadcast use group_field_units;

    reveal_with_fuel(weight_sum, 6);
    reveal_with_fuel(product_at, 4);
    let f = |l: int| duplex_lane(refs, offset, l);
    let w = (offset + lane) as nat;
    lemma_own_lane(t, f, 4, lane, w, slot);
    if lane < 2 {
        lemma_plus_assoc(
            table_at(t, refs.start, slot).times(state_before(t, refs, lane, slot)),
            table_at(t, refs.abs@[lane], slot).times(held_at(t, refs.a@[lane], slot)),
            table_at(t, refs.consts@[lane], slot),
        );
    }
    assert forall|v: nat| v < offset || offset + 4 <= v implies #[trigger] weight_at(
        t,
        duplex_lane_terms(refs, offset),
        v,
        slot,
    ) == F128::zero() by {
        lemma_own_lane(t, f, 4, 4, v, slot);
    }
}

proof fn lemma_idle_lane(
    t: ColumnTable,
    refs: DuplexFamilyRefs,
    offset: usize,
    lane: int,
    slot: int,
)
    requires
        0 <= lane < 4,
        offset <= 4,
        idle(t, refs, slot),
    ensures
        weight_at(t, duplex_lane_terms(refs, offset), (offset + lane) as nat, slot)
            == F128::zero(),
{
    broadcast use group_field_units;

    lemma_duplex_lane(t, refs, offset, lane, slot);
    assert(table_at(t, refs.consts@[lane], slot) == F128::zero());
    if lane < 2 {
        assert(table_at(t, refs.abs@[lane], slot) == F128::zero());
    }
}

proof fn lemma_sets_at(
    t: ColumnTable,
    sets: Seq<DuplexFamilyRefs>,
    k: int,
    lane: int,
    slot: int,
    n: nat,
)
    requires
        0 <= lane < 4,
        n <= sets.len(),
        forall|i: int| 0 <= i < n && i != k ==> idle(t, #[trigger] sets[i], slot),
    ensures
        weight_at(t, duplex_sets(sets, n), lane as nat, slot) == if 0 <= k < n {
            weight_at(t, duplex_lane_terms(sets[k], 0), lane as nat, slot)
        } else {
            F128::zero()
        },
    decreases n,
{
    broadcast use group_field_units;

    if n > 0 {
        let m = (n - 1) as nat;
        lemma_sets_at(t, sets, k, lane, slot, m);
        lemma_weight_concat(
            t,
            duplex_sets(sets, m),
            duplex_lane_terms(sets[n - 1], 0),
            lane as nat,
            slot,
        );
        if k != n - 1 {
            lemma_idle_lane(t, sets[n - 1], 0, lane, slot);
        }
    }
}

proof fn lemma_duplex_carry(t: ColumnTable, refs: DuplexFamilyRefs, lane: int, slot: int)
    requires
        0 <= lane < 4,
    ensures
        weight_at(t, duplex_carry_terms(refs), lane as nat, slot) == state_before(
            t,
            refs,
            lane,
            slot,
        ),
{
    broadcast use group_field_units;

    reveal_with_fuel(weight_sum, 3);
    reveal_with_fuel(product_at, 3);
    let f = |l: int| duplex_carry(refs, l);
    lemma_own_lane(t, f, 4, lane, lane as nat, slot);
}

/// A duplex with its recordings, at a slot where set `k` alone is at work: a set that
/// starts takes what is fed to it, any other takes it on top of the state before.
pub proof fn lemma_duplex_input(
    t: ColumnTable,
    sets: Seq<DuplexFamilyRefs>,
    k: int,
    lane: int,
    slot: int,
)
    requires
        0 <= lane < 4,
        0 <= k < sets.len(),
        sets[k].c == sets[0].c,
        forall|i: int| 0 <= i < sets.len() && i != k ==> idle(t, #[trigger] sets[i], slot),
        table_at(t, sets[k].start, slot).is_bit(),
        lane < 2 ==> table_at(t, sets[k].abs@[lane], slot).is_bit(),
    ensures
        weight_at(t, duplex_shapes(sets), lane as nat, slot) == if table_at(
            t,
            sets[k].start,
            slot,
        ) == F128::one() {
            fed(t, sets[k], lane, slot)
        } else {
            state_before(t, sets[k], lane, slot).plus(fed(t, sets[k], lane, slot))
        },
{
    broadcast use {group_field_units, lemma_plus_is_zero};

    lemma_duplex_carry(t, sets[0], lane, slot);
    lemma_sets_at(t, sets, k, lane, slot, sets.len());
    lemma_duplex_lane(t, sets[k], 0, lane, slot);
    lemma_weight_concat(
        t,
        duplex_carry_terms(sets[0]),
        duplex_sets(sets, sets.len()),
        lane as nat,
        slot,
    );
    assert(state_before(t, sets[0], lane, slot) == state_before(t, sets[k], lane, slot));
}

/// Where no set is at work, a duplex permutes the state before.
pub proof fn lemma_duplex_idle(
    t: ColumnTable,
    sets: Seq<DuplexFamilyRefs>,
    lane: int,
    slot: int,
)
    requires
        0 <= lane < 4,
        0 < sets.len(),
        forall|i: int| 0 <= i < sets.len() ==> idle(t, #[trigger] sets[i], slot),
    ensures
        weight_at(t, duplex_shapes(sets), lane as nat, slot) == state_before(
            t,
            sets[0],
            lane,
            slot,
        ),
{
    broadcast use group_field_units;

    lemma_duplex_carry(t, sets[0], lane, slot);
    lemma_sets_at(t, sets, -1, lane, slot, sets.len());
    lemma_weight_concat(
        t,
        duplex_carry_terms(sets[0]),
        duplex_sets(sets, sets.len()),
        lane as nat,
        slot,
    );
}

/// The first set of each pair.
pub open spec fn firsts(sets: Seq<DuplexFamilyRefs>, n: nat) -> Seq<DuplexFamilyRefs> {
    Seq::new(n, |i: int| sets[2 * i])
}

proof fn lemma_sets_prefix(a: Seq<DuplexFamilyRefs>, b: Seq<DuplexFamilyRefs>, n: nat)
    requires
        n <= a.len(),
        n <= b.len(),
        forall|i: int| 0 <= i < n ==> #[trigger] a[i] == b[i],
    ensures
        duplex_sets(a, n) == duplex_sets(b, n),
    decreases n,
{
    if n > 0 {
        lemma_sets_prefix(a, b, (n - 1) as nat);
        assert(a[n - 1] == b[n - 1]);
    }
}

proof fn lemma_pairs_at(
    t: ColumnTable,
    sets: Seq<DuplexFamilyRefs>,
    lane: int,
    slot: int,
    n: nat,
)
    requires
        0 <= lane < 4,
        2 * n <= sets.len(),
    ensures
        weight_at(t, duplex_pairs(sets, n), lane as nat, slot) == weight_at(
            t,
            duplex_sets(firsts(sets, n), n),
            lane as nat,
            slot,
        ),
        weight_at(t, duplex_pairs(sets, n), lane as nat, slot).plus(
            weight_at(t, duplex_pairs(sets, n), (lane + 4) as nat, slot),
        ) == weight_at(t, duplex_sets(sets, 2 * n), lane as nat, slot),
    decreases n,
{
    broadcast use group_field_units;

    reveal_with_fuel(duplex_sets, 3);
    if n > 0 {
        let m = (n - 1) as nat;
        lemma_pairs_at(t, sets, lane, slot, m);
        let (a, b) = (sets[2 * (n - 1)], sets[2 * (n - 1) + 1]);
        let (u, v) = (lane as nat, (lane + 4) as nat);
        let (p, q) = (duplex_lane_terms(a, 0), duplex_lane_terms(b, 4));
        let r = duplex_pairs(sets, m);
        lemma_weight_concat(t, r + p, q, u, slot);
        lemma_weight_concat(t, r + p, q, v, slot);
        lemma_weight_concat(t, r, p, u, slot);
        lemma_weight_concat(t, r, p, v, slot);
        lemma_duplex_lane(t, a, 0, lane, slot);
        lemma_duplex_lane(t, b, 4, lane, slot);
        lemma_duplex_lane(t, b, 0, lane, slot);
        assert(weight_at(t, p, v, slot) == F128::zero());
        assert(weight_at(t, q, u, slot) == F128::zero());
        assert(weight_at(t, q, v, slot) == weight_at(t, duplex_lane_terms(b, 0), u, slot));
        let f = firsts(sets, n);
        lemma_sets_prefix(f, firsts(sets, m), m);
        lemma_weight_concat(t, duplex_sets(f, m), duplex_lane_terms(f[n - 1], 0), u, slot);
        let s = duplex_sets(sets, 2 * m);
        assert(duplex_sets(sets, 2 * n) == s + duplex_lane_terms(a, 0) + duplex_lane_terms(b, 0));
        lemma_weight_concat(t, s + p, duplex_lane_terms(b, 0), u, slot);
        lemma_weight_concat(t, s, p, u, slot);
        let (x, y) = (weight_at(t, r, u, slot), weight_at(t, r, v, slot));
        let (c, d) = (weight_at(t, p, u, slot), weight_at(t, q, v, slot));
        lemma_plus_swap(x, c, y, d);
        lemma_plus_assoc(x.plus(y), c, d);
    }
}

/// A lane of paired duplexes under a selector: the plain weight, and the selected
/// one times the selector.
pub open spec fn selected_input(
    t: ColumnTable,
    sets: Seq<DuplexFamilyRefs>,
    selector: F128,
    lane: int,
    slot: int,
) -> F128 {
    weight_at(t, duplex_selected_shapes(sets), lane as nat, slot).plus(
        selector.times(weight_at(t, duplex_selected_shapes(sets), (lane + 4) as nat, slot)),
    )
}

/// A selector of one takes every set of a list of pairs, one of zero the first of
/// each pair alone.
pub proof fn lemma_duplex_selected(
    t: ColumnTable,
    sets: Seq<DuplexFamilyRefs>,
    lane: int,
    slot: int,
)
    requires
        0 <= lane < 4,
        0 < sets.len(),
        sets.len() % 2 == 0,
    ensures
        selected_input(t, sets, F128::one(), lane, slot) == weight_at(
            t,
            duplex_shapes(sets),
            lane as nat,
            slot,
        ),
        selected_input(t, sets, F128::zero(), lane, slot) == weight_at(
            t,
            duplex_shapes(firsts(sets, sets.len() / 2)),
            lane as nat,
            slot,
        ),
{
    broadcast use group_field_units;

    let n = sets.len() / 2;
    let (u, v) = (lane as nat, (lane + 4) as nat);
    let c = duplex_carry_terms(sets[0]);
    let p = duplex_pairs(sets, n);
    lemma_pairs_at(t, sets, lane, slot, n);
    lemma_weight_concat(t, c, p, u, slot);
    lemma_weight_concat(t, c, p, v, slot);
    let f = |l: int| duplex_carry(sets[0], l);
    lemma_own_lane(t, f, 4, 4, v, slot);
    assert(weight_at(t, c, v, slot) == F128::zero());
    lemma_weight_concat(t, c, duplex_sets(sets, sets.len()), u, slot);
    lemma_plus_assoc(
        weight_at(t, c, u, slot),
        weight_at(t, p, u, slot),
        weight_at(t, p, v, slot),
    );
    let e = firsts(sets, n);
    lemma_weight_concat(t, duplex_carry_terms(e[0]), duplex_sets(e, n), u, slot);
}

// ---------------------------------------------------------------------------
// The spine's exposure
// ---------------------------------------------------------------------------

/// Where table zero is one, the exposure vanishes exactly where the two columns hold
/// what the other two hold at the odd slot; where it is zero it vanishes.
pub proof fn lemma_exposure_means(t: ColumnTable, slot: int)
    requires
        table_at(t, 0, slot).is_bit(),
    ensures
        table_at(t, 0, slot) == F128::one() ==> {
            &&& weight_at(t, exposure_shapes(), 1, slot) == F128::zero() <==> held_at(t, 0, slot)
                == held_at(t, 2, 2 * slot + 1)
            &&& weight_at(t, exposure_shapes(), 2, slot) == F128::zero() <==> held_at(t, 1, slot)
                == held_at(t, 3, 2 * slot + 1)
        },
        table_at(t, 0, slot) == F128::zero() ==> {
            &&& weight_at(t, exposure_shapes(), 1, slot) == F128::zero()
            &&& weight_at(t, exposure_shapes(), 2, slot) == F128::zero()
        },
        forall|w: nat|
            w != 1 && w != 2 ==> #[trigger] weight_at(t, exposure_shapes(), w, slot)
                == F128::zero(),
{
    broadcast use group_field_units;

    reveal_with_fuel(weight_sum, 6);
    reveal_with_fuel(product_at, 4);
    vstd::arithmetic::power2::lemma2_to64();
    lemma_plus_is_zero(held_at(t, 0, slot), held_at(t, 2, 2 * slot + 1));
    lemma_plus_is_zero(held_at(t, 1, slot), held_at(t, 3, 2 * slot + 1));
    assert(slot * 2 + 1 == 2 * slot + 1);
    assert(exposure_shapes().len() == 4);
    assert forall|w: nat| w != 1 && w != 2 implies #[trigger] weight_at(
        t,
        exposure_shapes(),
        w,
        slot,
    ) == F128::zero() by {
        lemma_no_weight(t, exposure_shapes(), w, slot, 4);
    }
}

// ---------------------------------------------------------------------------
// Unions of families
// ---------------------------------------------------------------------------

proof fn lemma_gather_prefix(
    a: Seq<MerkleProtocolFamily>,
    b: Seq<MerkleProtocolFamily>,
    f: spec_fn(MerkleProtocolFamily) -> Seq<Shape>,
    n: nat,
)
    requires
        n <= a.len(),
        n <= b.len(),
        forall|i: int| 0 <= i < n ==> #[trigger] a[i] == b[i],
    ensures
        gather(a, f, n) == gather(b, f, n),
    decreases n,
{
    if n > 0 {
        lemma_gather_prefix(a, b, f, (n - 1) as nat);
        assert(a[n - 1] == b[n - 1]);
    }
}

proof fn lemma_gather_adds(
    t: ColumnTable,
    families: Seq<MerkleProtocolFamily>,
    last: MerkleProtocolFamily,
    f: spec_fn(MerkleProtocolFamily) -> Seq<Shape>,
    w: nat,
    slot: int,
)
    ensures
        weight_at(t, gather(families.push(last), f, families.len() + 1), w, slot) == weight_at(
            t,
            gather(families, f, families.len()),
            w,
            slot,
        ).plus(weight_at(t, f(last), w, slot)),
{
    let all = families.push(last);
    lemma_gather_prefix(all, families, f, families.len());
    lemma_weight_concat(t, gather(all, f, families.len()), f(last), w, slot);
}

/// What the terms of permutation inputs of one family sum to: its own, whatever its
/// kind.
pub open spec fn family_input(t: ColumnTable, f: MerkleProtocolFamily, w: nat, slot: int) -> F128 {
    match f {
        MerkleProtocolFamily::FeedForward { refs, region } => weight_at(
            t,
            feed_forward_carry_terms(refs, region) + feed_forward_node_terms(refs),
            w,
            slot,
        ),
        MerkleProtocolFamily::TwoPermutation { refs, region } => weight_at(
            t,
            two_permutation_lane_terms(refs, region),
            w,
            slot,
        ),
        MerkleProtocolFamily::PairedUpdate { refs, region } => weight_at(
            t,
            paired_terms(refs, region),
            w,
            slot,
        ),
    }
}

/// What the terms of one family that must vanish sum to.
pub open spec fn family_zero(t: ColumnTable, f: MerkleProtocolFamily, w: nat, slot: int) -> F128 {
    match f {
        MerkleProtocolFamily::FeedForward { refs, .. } => weight_at(
            t,
            feed_forward_link_terms(refs),
            w,
            slot,
        ),
        MerkleProtocolFamily::TwoPermutation { refs, .. } => weight_at(
            t,
            direction_terms(refs),
            w,
            slot,
        ),
        MerkleProtocolFamily::PairedUpdate { refs, .. } => weight_at(
            t,
            paired_zero_terms(refs, 6),
            w,
            slot,
        ),
    }
}

/// A family more adds what it sums to on its own.
pub proof fn lemma_families_add(
    t: ColumnTable,
    families: Seq<MerkleProtocolFamily>,
    last: MerkleProtocolFamily,
    w: nat,
    slot: int,
)
    ensures
        weight_at(t, substitution_shapes(families.push(last)), w, slot) == weight_at(
            t,
            substitution_shapes(families),
            w,
            slot,
        ).plus(family_input(t, last, w, slot)),
        weight_at(t, zero_shapes(families.push(last)), w, slot) == weight_at(
            t,
            zero_shapes(families),
            w,
            slot,
        ).plus(family_zero(t, last, w, slot)),
        weight_at(t, substitution_shapes(Seq::empty()), w, slot) == F128::zero(),
        weight_at(t, zero_shapes(Seq::empty()), w, slot) == F128::zero(),
{
    broadcast use group_field_units;

    let all = families.push(last);
    let k = families.len();
    let none = Seq::<MerkleProtocolFamily>::empty();
    let f = |f: MerkleProtocolFamily| family_feed_forward(f);
    let g = |f: MerkleProtocolFamily| family_two_permutation(f);
    let h = |f: MerkleProtocolFamily| family_paired(f);
    lemma_three_adds(t, families, last, f, g, h, w, slot);
    assert(substitution_shapes(all) == gather(all, f, k + 1) + gather(all, g, k + 1) + gather(
        all,
        h,
        k + 1,
    ));
    assert(substitution_shapes(none) =~= Seq::empty());
    let a = |f: MerkleProtocolFamily| family_direction(f);
    let b = |f: MerkleProtocolFamily| family_link(f);
    let c = |f: MerkleProtocolFamily| family_paired_zero(f);
    lemma_three_adds(t, families, last, a, b, c, w, slot);
    assert(zero_shapes(all) == gather(all, a, k + 1) + gather(all, b, k + 1) + gather(
        all,
        c,
        k + 1,
    ));
    assert(zero_shapes(none) =~= Seq::empty());
    assert(weight_at(t, Seq::<Shape>::empty(), w, slot) == F128::zero());
}

proof fn lemma_three_adds(
    t: ColumnTable,
    families: Seq<MerkleProtocolFamily>,
    last: MerkleProtocolFamily,
    f: spec_fn(MerkleProtocolFamily) -> Seq<Shape>,
    g: spec_fn(MerkleProtocolFamily) -> Seq<Shape>,
    h: spec_fn(MerkleProtocolFamily) -> Seq<Shape>,
    w: nat,
    slot: int,
)
    ensures
        ({
            let (all, k) = (families.push(last), families.len());
            weight_at(
                t,
                gather(all, f, k + 1) + gather(all, g, k + 1) + gather(all, h, k + 1),
                w,
                slot,
            ) == weight_at(
                t,
                gather(families, f, k) + gather(families, g, k) + gather(families, h, k),
                w,
                slot,
            ).plus(
                weight_at(t, f(last), w, slot).plus(weight_at(t, g(last), w, slot)).plus(
                    weight_at(t, h(last), w, slot),
                ),
            )
        }),
{
    let (all, k) = (families.push(last), families.len());
    lemma_gather_adds(t, families, last, f, w, slot);
    lemma_gather_adds(t, families, last, g, w, slot);
    lemma_gather_adds(t, families, last, h, w, slot);
    let (a, b, c) = (gather(all, f, k + 1), gather(all, g, k + 1), gather(all, h, k + 1));
    lemma_weight_concat(t, a + b, c, w, slot);
    lemma_weight_concat(t, a, b, w, slot);
    let (x, y, z) = (gather(families, f, k), gather(families, g, k), gather(families, h, k));
    lemma_weight_concat(t, x + y, z, w, slot);
    lemma_weight_concat(t, x, y, w, slot);
    let (p, q, r) = (
        weight_at(t, f(last), w, slot),
        weight_at(t, g(last), w, slot),
        weight_at(t, h(last), w, slot),
    );
    let (i, j, l) = (weight_at(t, x, w, slot), weight_at(t, y, w, slot), weight_at(t, z, w, slot));
    lemma_plus_swap(i, p, j, q);
    lemma_plus_swap(i.plus(j), p.plus(q), l, r);
}

/// What the leaves of a walk sum to.
pub open spec fn leaves_input(
    t: ColumnTable,
    leaves: Seq<(SpongeLeafRefs, usize)>,
    w: nat,
    slot: int,
    n: nat,
) -> F128
    decreases n,
{
    if n == 0 {
        F128::zero()
    } else {
        leaves_input(t, leaves, w, slot, (n - 1) as nat).plus(
            weight_at(t, sponge_lane_terms(leaves[n - 1].0, leaves[n - 1].1), w, slot),
        )
    }
}

/// What the split tails of a walk sum to.
pub open spec fn tails_input(
    t: ColumnTable,
    tails: Seq<SplitDuplexTailRefs>,
    w: nat,
    slot: int,
    n: nat,
) -> F128
    decreases n,
{
    if n == 0 {
        F128::zero()
    } else {
        tails_input(t, tails, w, slot, (n - 1) as nat).plus(
            weight_at(t, split_tail_lane_terms(tails[n - 1]), w, slot),
        )
    }
}

proof fn lemma_leaves_add(
    t: ColumnTable,
    leaves: Seq<(SpongeLeafRefs, usize)>,
    w: nat,
    slot: int,
    n: nat,
)
    ensures
        weight_at(t, leaves_shapes(leaves, n), w, slot) == leaves_input(t, leaves, w, slot, n),
    decreases n,
{
    if n > 0 {
        lemma_leaves_add(t, leaves, w, slot, (n - 1) as nat);
        lemma_weight_concat(
            t,
            leaves_shapes(leaves, (n - 1) as nat),
            sponge_lane_terms(leaves[n - 1].0, leaves[n - 1].1),
            w,
            slot,
        );
    }
}

proof fn lemma_tails_add(
    t: ColumnTable,
    tails: Seq<SplitDuplexTailRefs>,
    w: nat,
    slot: int,
    n: nat,
)
    ensures
        weight_at(t, tails_shapes(tails, n), w, slot) == tails_input(t, tails, w, slot, n),
    decreases n,
{
    if n > 0 {
        lemma_tails_add(t, tails, w, slot, (n - 1) as nat);
        lemma_weight_concat(
            t,
            tails_shapes(tails, (n - 1) as nat),
            split_tail_lane_terms(tails[n - 1]),
            w,
            slot,
        );
    }
}

/// The leaf walk sums what its leaves, its split tails, its state sponge and its
/// spine, tree and wrapping sponge, sum to on their own.
pub proof fn lemma_walk_adds(t: ColumnTable, u: WalkAUnion, w: nat, slot: int)
    ensures
        weight_at(t, walk_a_shapes(u), w, slot) == leaves_input(
            t,
            u.leaf_refs@,
            w,
            slot,
            u.leaf_refs@.len(),
        ).plus(tails_input(t, u.split_tails@, w, slot, u.split_tails@.len())).plus(
            match u.es_sponge {
                Some((refs, region)) => weight_at(t, sponge_lane_terms(refs, region), w, slot),
                None => F128::zero(),
            },
        ).plus(
            match u.spine {
                Some(spec) => weight_at(t, source_tree_lane_terms(spec.tree_refs), w, slot).plus(
                    weight_at(t, sponge_lane_terms(spec.wrap_refs, spec.wrap_region), w, slot),
                ),
                None => F128::zero(),
            },
        ),
{
    let a = leaves_shapes(u.leaf_refs@, u.leaf_refs@.len());
    let b = tails_shapes(u.split_tails@, u.split_tails@.len());
    let c = match u.es_sponge {
        Some((refs, region)) => sponge_lane_terms(refs, region),
        None => Seq::empty(),
    };
    let d = match u.spine {
        Some(spec) => source_tree_lane_terms(spec.tree_refs) + sponge_lane_terms(
            spec.wrap_refs,
            spec.wrap_region,
        ),
        None => Seq::empty(),
    };
    lemma_leaves_add(t, u.leaf_refs@, w, slot, u.leaf_refs@.len());
    lemma_tails_add(t, u.split_tails@, w, slot, u.split_tails@.len());
    assert(weight_at(t, Seq::<Shape>::empty(), w, slot) == F128::zero());
    assert(walk_a_shapes(u) == a + b + c + d);
    lemma_weight_concat(t, a + b + c, d, w, slot);
    lemma_weight_concat(t, a + b, c, w, slot);
    lemma_weight_concat(t, a, b, w, slot);
    if let Some(spec) = u.spine {
        lemma_weight_concat(
            t,
            source_tree_lane_terms(spec.tree_refs),
            sponge_lane_terms(spec.wrap_refs, spec.wrap_region),
            w,
            slot,
        );
    }
}

// ---------------------------------------------------------------------------
// A relation under its weights
// ---------------------------------------------------------------------------

/// What the first `n` terms of a relation sum to at a slot.
pub open spec fn relation_at(t: ColumnTable, terms: Seq<C1Term>, slot: int, n: nat) -> F256
    decreases n,
{
    if n == 0 {
        F256::spec_zero()
    } else {
        relation_at(t, terms, slot, (n - 1) as nat).plus(
            terms[n - 1].coeff.scaled(factors_at(t, terms[n - 1].factors, slot)),
        )
    }
}

/// The sums of the first `k` weights, each under its weight.
pub open spec fn weights_at(
    t: ColumnTable,
    s: Seq<Shape>,
    table: Seq<F256>,
    slot: int,
    n: nat,
    k: nat,
) -> F256
    decreases k,
{
    if k == 0 {
        F256::spec_zero()
    } else {
        weights_at(t, s, table, slot, n, (k - 1) as nat).plus(
            table[k - 1].scaled(weight_sum(t, s, (k - 1) as nat, slot, n)),
        )
    }
}

proof fn lemma_scaled_plus(x: F256, a: F128, b: F128)
    ensures
        x.scaled(a.plus(b)) == x.scaled(a).plus(x.scaled(b)),
{
    lemma_times_plus(x.lo, a, b);
    lemma_times_plus(x.hi, a, b);
}

proof fn lemma_pair_swap(a: F256, b: F256, c: F256, d: F256)
    ensures
        a.plus(b).plus(c.plus(d)) == a.plus(c).plus(b.plus(d)),
        a.plus(b).plus(c) == a.plus(c).plus(b),
        a.plus(b).plus(c) == a.plus(b.plus(c)),
{
    lemma_plus_swap(a.lo, b.lo, c.lo, d.lo);
    lemma_plus_swap(a.hi, b.hi, c.hi, d.hi);
    lemma_plus_assoc(a.lo, b.lo, c.lo);
    lemma_plus_assoc(a.hi, b.hi, c.hi);
    lemma_plus_assoc(a.lo, c.lo, b.lo);
    lemma_plus_assoc(a.hi, c.hi, b.hi);
    lemma_plus_comm(b.lo, c.lo);
    lemma_plus_comm(b.hi, c.hi);
}

/// One term more enters the sum of its own weight.
proof fn lemma_weights_step(
    t: ColumnTable,
    s: Seq<Shape>,
    table: Seq<F256>,
    slot: int,
    n: nat,
    k: nat,
)
    requires
        0 < n <= s.len(),
        k <= table.len(),
    ensures
        weights_at(t, s, table, slot, n, k) == if s[n - 1].weight < k {
            weights_at(t, s, table, slot, (n - 1) as nat, k).plus(
                table[s[n - 1].weight as int].scaled(factors_at(t, s[n - 1].factors, slot)),
            )
        } else {
            weights_at(t, s, table, slot, (n - 1) as nat, k)
        },
    decreases k,
{
    broadcast use group_field_units;

    if k > 0 {
        let j = (k - 1) as nat;
        lemma_weights_step(t, s, table, slot, n, j);
        let v = factors_at(t, s[n - 1].factors, slot);
        let own = table[s[n - 1].weight as int].scaled(v);
        let before = weights_at(t, s, table, slot, (n - 1) as nat, j);
        let sum = weight_sum(t, s, j, slot, (n - 1) as nat);
        if s[n - 1].weight == j {
            lemma_scaled_plus(table[j as int], sum, v);
            lemma_pair_swap(before, table[j as int].scaled(sum), own, own);
        } else {
            lemma_pair_swap(before, own, table[j as int].scaled(sum), own);
        }
    }
}

proof fn lemma_no_weights(t: ColumnTable, s: Seq<Shape>, table: Seq<F256>, slot: int, k: nat)
    ensures
        weights_at(t, s, table, slot, 0, k) == F256::spec_zero(),
    decreases k,
{
    broadcast use group_field_units;

    if k > 0 {
        lemma_no_weights(t, s, table, slot, (k - 1) as nat);
    }
}

/// A relation of weighted terms is the sum over its weights of the weight times what
/// the terms of that weight sum to.
pub proof fn lemma_relation_by_weight(
    t: ColumnTable,
    s: Seq<Shape>,
    table: Seq<F256>,
    slot: int,
    n: nat,
)
    requires
        n <= s.len(),
    ensures
        relation_at(t, weighted(s, table), slot, n) == weights_at(
            t,
            s,
            table,
            slot,
            n,
            table.len(),
        ),
    decreases n,
{
    broadcast use group_field_units;

    if n == 0 {
        lemma_no_weights(t, s, table, slot, table.len());
    } else {
        lemma_relation_by_weight(t, s, table, slot, (n - 1) as nat);
        lemma_weights_step(t, s, table, slot, n, table.len());
        let v = factors_at(t, s[n - 1].factors, slot);
        let before = relation_at(t, weighted(s, table), slot, (n - 1) as nat);
        assert(weighted(s, table)[n - 1].coeff == weight_of(table, s[n - 1].weight));
        assert(before.plus(F256::spec_zero()) == before);
    }
}

/// Lanes under their weights.
pub open spec fn lanes_under(weights: Seq<F256>, x: Seq<F128>, n: nat) -> F256
    decreases n,
{
    if n == 0 {
        F256::spec_zero()
    } else {
        lanes_under(weights, x, (n - 1) as nat).plus(weights[n - 1].scaled(x[n - 1]))
    }
}

/// Values under the powers of a challenge, from the first power on.
pub open spec fn under_powers(e: Extension, alpha: F256, y: Seq<F128>, n: nat) -> F256
    decreases n,
{
    if n == 0 {
        F256::spec_zero()
    } else {
        under_powers(e, alpha, y, (n - 1) as nat).plus(e.pow(alpha, n).scaled(y[n - 1]))
    }
}

/// The weights of input lanes put the first matrix times the input under the powers
/// of the challenge.
pub proof fn lemma_input_weights(
    e: Extension,
    full: Seq<Seq<F128>>,
    alpha: F256,
    x: Seq<F128>,
)
    ensures
        lanes_under(mds_weights(e, full, alpha), x, 4) == under_powers(e, alpha, mds(full, x), 4),
{
    let w = mds_weights(e, full, alpha);
    lemma_rows_under(e, full, alpha, x, 4);
    lemma_lanes_same(w, Seq::new(4, |l: int| mds_weight(e, full, alpha, l, 4)), x, 4);
}

proof fn lemma_lanes_same(a: Seq<F256>, b: Seq<F256>, x: Seq<F128>, n: nat)
    requires
        forall|l: int| 0 <= l < n ==> #[trigger] a[l] == b[l],
    ensures
        lanes_under(a, x, n) == lanes_under(b, x, n),
    decreases n,
{
    if n > 0 {
        lemma_lanes_same(a, b, x, (n - 1) as nat);
        assert(a[n - 1] == b[n - 1]);
    }
}

/// Row by row.
proof fn lemma_rows_under(
    e: Extension,
    full: Seq<Seq<F128>>,
    alpha: F256,
    x: Seq<F128>,
    k: nat,
)
    requires
        k <= 4,
    ensures
        lanes_under(Seq::new(4, |l: int| mds_weight(e, full, alpha, l, k)), x, 4) == under_powers(
            e,
            alpha,
            mds(full, x),
            k,
        ),
    decreases k,
{
    broadcast use group_field_units;

    let w = Seq::new(4, |l: int| mds_weight(e, full, alpha, l, k));
    if k == 0 {
        lemma_lanes_zero(w, x, 4);
    } else {
        let j = (k - 1) as nat;
        let before = Seq::new(4, |l: int| mds_weight(e, full, alpha, l, j));
        lemma_rows_under(e, full, alpha, x, j);
        lemma_row_under(e.pow(alpha, k), full[k - 1], before, w, x, 4);
    }
}

proof fn lemma_lanes_zero(w: Seq<F256>, x: Seq<F128>, n: nat)
    requires
        forall|l: int| 0 <= l < n ==> #[trigger] w[l] == F256::spec_zero(),
    ensures
        lanes_under(w, x, n) == F256::spec_zero(),
    decreases n,
{
    broadcast use group_field_units;

    if n > 0 {
        lemma_lanes_zero(w, x, (n - 1) as nat);
        assert(w[n - 1] == F256::spec_zero());
    }
}

proof fn lemma_row_under(
    p: F256,
    row: Seq<F128>,
    before: Seq<F256>,
    w: Seq<F256>,
    x: Seq<F128>,
    n: nat,
)
    requires
        forall|l: int| 0 <= l < n ==> #[trigger] w[l] == before[l].plus(p.scaled(row[l])),
    ensures
        lanes_under(w, x, n) == lanes_under(before, x, n).plus(p.scaled(dot(row, x, n))),
    decreases n,
{
    broadcast use group_field_units;

    if n > 0 {
        let m = (n - 1) as nat;
        lemma_row_under(p, row, before, w, x, m);
        let (a, r, v) = (before[n - 1], row[n - 1], x[n - 1]);
        assert(w[n - 1] == a.plus(p.scaled(r)));
        lemma_plus_times(a.lo, p.lo.times(r), v);
        lemma_plus_times(a.hi, p.hi.times(r), v);
        lemma_times_assoc(p.lo, r, v);
        lemma_times_assoc(p.hi, r, v);
        lemma_times_comm(r, v);
        assert(w[n - 1].scaled(v) == a.scaled(v).plus(p.scaled(v.times(r))));
        lemma_scaled_plus(p, dot(row, x, m), v.times(r));
        lemma_pair_swap(
            lanes_under(before, x, m),
            p.scaled(dot(row, x, m)),
            a.scaled(v),
            p.scaled(v.times(r)),
        );
    }
}

} // verus!
