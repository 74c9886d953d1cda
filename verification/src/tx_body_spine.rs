//! Transaction bodies over the spine: sixteen leaves hashed by a tree of
//! compressions, and a last permutation that wraps its root.

use vstd::prelude::*;
use vstd::arithmetic::power2::pow2;
use crate::accepted_claim_batch::free_rows;
use crate::batch_eval::{
    linear_ok, linear_terms, linear_values, reversed, round_values, term_views, terms_at,
    terms_below, BatchEvalReductionTrace, LinearEvalClaimTrace, LinearEvalProofTrace, LinearEvalTermTrace,
    MultiBatchEvalProofTrace,
};
use crate::block_spine::{tensors_of, BlockSpineUnifiedProofTrace};
use crate::channel::{
    challenges_held, drew, kept, lemma_drew_end, lemma_drew_fresh, lemma_drew_kept,
    lemma_drew_trans, squeezed_wires, tape, Op, RawChannelTrace, Tape,
};
use crate::circuit::{
    all_below, group_circuit, group_lin, lins, prefix, sat, Circuit, FieldR1csBuilder, Lin, LinExpr,
    Row,
};
use crate::field::{group_field_units, F128};
use crate::gadget::{
    all_zero, binds, computed, enforces, holds_past, lemma_binds_none, lemma_computed_refl,
    lemma_computed_trans, lemma_enforces, lemma_enforces_after, lemma_enforces_trans,
    lemma_past_split, lemma_pinned_none, pinned,
};
use crate::multilinear::evals_at;
use crate::permutation_network::row_eval;
use crate::poseidon::{permuted, state_lins, Permutation, PoseidonTables};
use crate::public_arithmetic::{SpineInputsTrace, TX_BODY_RAW_LEAVES};
use crate::shape::N_SPINE_SLOTS;
use crate::spine_claims::{
    absorbed, block_lins, blocks_at, blocks_below, lemma_blocks_grow, point_index, relation_holds,
    relations_hold, state_at, state_term, terms_sum,
};
use crate::spine_columns::{point_tensors, ColumnAccumulator, ColumnSums, PointTensors};
use crate::spine_family::{
    family_checked, family_lins, family_run, lemma_family_keeps, lemma_family_sound, opening_tape, proof_ok,
    verify_spine_relations, FamilyLins, FamilyRun, SpineTags,
};
use crate::spine_proofs::{
    allocate_pairs, lemma_pairs_stable, pair_views, pair_wires, poly_lens, poly_views, proof_width,
    proof_wires, SpineProof, SpineProofTrace,
};
use crate::spine_replay::{
    accumulates, at_tensors, close_replay, closed_pins, closing_rows, columns_equal, columns_of,
    lemma_closed_pins, no_sums, raws_at, reduction_values, replay_rows, replay_slot, replaying,
    start_replay,
};
use crate::spine_shift::BlockSpineShiftProofTrace;
use crate::structural_region::{
    allocated, lemma_allocated, lemma_allocated_computed, lemma_allocated_none,
};

verus! {

broadcast use {group_circuit, lemma_computed_trans};

/// What a slot computes.
#[derive(Clone, Copy, Debug, PartialEq, Eq)]
pub enum InstanceRole {
    /// The left child of a node over the capacity.
    CompressPermA { level: u8, pos: u8 },
    /// The right child of a node added to the rate.
    CompressPermB { level: u8, pos: u8 },
    /// The root over the wrap's capacity.
    WrapPerm,
}

/// A slot of the layout. A child that no slot computes is a leaf.
#[derive(Clone, Copy, Debug)]
pub struct SpineSlot {
    pub role: InstanceRole,
    pub left_child: Option<usize>,
    pub right_child: Option<usize>,
    pub prev_output_src: Option<usize>,
    pub capacity_iv: [F128; 2],
}

/// The leaf on a side of a node of the first level.
pub open spec fn leaf_index(pos: u8, is_left: bool) -> int {
    if is_left {
        2 * pos
    } else {
        2 * pos + 1
    }
}

pub open spec fn earlier(child: Option<usize>, id: int) -> bool {
    match child {
        Some(k) => k < id,
        None => false,
    }
}

/// A child is an earlier slot or, at the first level, a leaf.
pub open spec fn child_ok(child: Option<usize>, level: u8, leaf: int, id: int) -> bool {
    match child {
        Some(k) => k < id,
        None => level == 1 && leaf < TX_BODY_RAW_LEAVES,
    }
}

pub open spec fn slot_ok(s: SpineSlot, id: int) -> bool {
    match s.role {
        InstanceRole::CompressPermA { level, pos } => child_ok(
            s.left_child,
            level,
            leaf_index(pos, true),
            id,
        ),
        InstanceRole::CompressPermB { level, pos } => child_ok(
            s.right_child,
            level,
            leaf_index(pos, false),
            id,
        ) && earlier(s.prev_output_src, id),
        InstanceRole::WrapPerm => earlier(s.left_child, id),
    }
}

/// Every slot draws on leaves and earlier slots.
pub open spec fn layout_ok(slots: Seq<SpineSlot>) -> bool {
    forall|i: int| 0 <= i < slots.len() ==> slot_ok(#[trigger] slots[i], i)
}

/// The digest of a child.
pub open spec fn child_digest(
    child: Option<usize>,
    leaf: int,
    leaves: Seq<Seq<F128>>,
    outs: Seq<Seq<F128>>,
) -> Seq<F128> {
    match child {
        Some(k) => seq![outs[k as int][0], outs[k as int][1]],
        None => leaves[leaf],
    }
}

/// What a slot starts from.
pub open spec fn slot_input(s: SpineSlot, leaves: Seq<Seq<F128>>, outs: Seq<Seq<F128>>) -> Seq<F128> {
    let iv = s.capacity_iv;
    match s.role {
        InstanceRole::CompressPermA { level, pos } => {
            let left = child_digest(s.left_child, leaf_index(pos, true), leaves, outs);
            seq![left[0], left[1], iv[0], iv[1]]
        },
        InstanceRole::CompressPermB { level, pos } => {
            let right = child_digest(s.right_child, leaf_index(pos, false), leaves, outs);
            absorbed(outs[s.prev_output_src->0 as int], right)
        },
        InstanceRole::WrapPerm => {
            let root = child_digest(s.left_child, 0, leaves, outs);
            seq![root[0], root[1], iv[0], iv[1]]
        },
    }
}

/// What the first `n` slots end on.
pub open spec fn slot_outputs(
    p: Permutation,
    slots: Seq<SpineSlot>,
    leaves: Seq<Seq<F128>>,
    n: nat,
) -> Seq<Seq<F128>>
    decreases n,
{
    if n == 0 {
        Seq::empty()
    } else {
        let outs = slot_outputs(p, slots, leaves, (n - 1) as nat);
        outs.push(permuted(p, slot_input(slots[n - 1], leaves, outs)))
    }
}

/// What the first `n` slots start from.
pub open spec fn slot_inputs(
    p: Permutation,
    slots: Seq<SpineSlot>,
    leaves: Seq<Seq<F128>>,
    n: nat,
) -> Seq<Seq<F128>>
    decreases n,
{
    if n == 0 {
        Seq::empty()
    } else {
        slot_inputs(p, slots, leaves, (n - 1) as nat).push(
            slot_input(
                slots[n - 1],
                leaves,
                slot_outputs(p, slots, leaves, (n - 1) as nat),
            ),
        )
    }
}

impl SpineInputsTrace {
    pub open spec fn wf(&self, n: nat) -> bool {
        self.leaves@.len() == TX_BODY_RAW_LEAVES && blocks_below(self.leaves@, n)
    }

    pub open spec fn at(&self, z: Seq<F128>) -> Seq<Seq<F128>> {
        blocks_at(block_lins(self.leaves@), z)
    }
}

/// The wires of each transaction's leaves.
pub open spec fn body_leaves(inputs: Seq<SpineInputsTrace>) -> Seq<Seq<Seq<Lin>>> {
    Seq::new(inputs.len(), |i: int| block_lins(inputs[i].leaves@))
}

/// What the slots of the first `n` transactions start from.
pub open spec fn bodies_inputs(
    p: Permutation,
    slots: Seq<SpineSlot>,
    leaves: Seq<Seq<Seq<Lin>>>,
    n: nat,
    z: Seq<F128>,
) -> Seq<Seq<F128>>
    decreases n,
{
    if n == 0 {
        Seq::empty()
    } else {
        bodies_inputs(p, slots, leaves, (n - 1) as nat, z) + slot_inputs(
            p,
            slots,
            blocks_at(leaves[n - 1], z),
            slots.len(),
        )
    }
}

/// The columns of all the slots at a point are given values.
pub open spec fn bodies_discharged(
    p: Permutation,
    slots: Seq<SpineSlot>,
    leaves: Seq<Seq<Seq<Lin>>>,
    point: Seq<Lin>,
    values: Seq<Lin>,
    z: Seq<F128>,
) -> bool {
    columns_equal(
        columns_of(
            p,
            tensors_of(evals_at(point, z)),
            bodies_inputs(p, slots, leaves, leaves.len(), z),
            leaves.len() * slots.len(),
        ),
        values,
        z,
    )
}

// ---------------------------------------------------------------------------
// The replay
// ---------------------------------------------------------------------------

/// The expressions of a child's digest.
pub open spec fn child_lins(
    child: Option<usize>,
    leaf: int,
    leaves: Seq<Seq<Lin>>,
    outs: Seq<Seq<Lin>>,
) -> Seq<Lin> {
    match child {
        Some(k) => seq![outs[k as int][0], outs[k as int][1]],
        None => leaves[leaf],
    }
}

/// The expressions that a slot starts from.
pub open spec fn slot_lins(s: SpineSlot, leaves: Seq<Seq<Lin>>, outs: Seq<Seq<Lin>>) -> Seq<Lin> {
    let iv = s.capacity_iv;
    match s.role {
        InstanceRole::CompressPermA { level, pos } => {
            let left = child_lins(s.left_child, leaf_index(pos, true), leaves, outs);
            seq![left[0], left[1], Lin::constant(iv[0]), Lin::constant(iv[1])]
        },
        InstanceRole::CompressPermB { level, pos } => {
            let right = child_lins(s.right_child, leaf_index(pos, false), leaves, outs);
            let o = outs[s.prev_output_src->0 as int];
            seq![o[0].plus(right[0]), o[1].plus(right[1]), o[2], o[3]]
        },
        InstanceRole::WrapPerm => {
            let root = child_lins(s.left_child, leaf_index(0, true), leaves, outs);
            seq![root[0], root[1], Lin::constant(iv[0]), Lin::constant(iv[1])]
        },
    }
}

/// The rows of a transaction's first `n` slots, the sums, and what the slots end
/// on.
pub open spec fn body_rows(
    c: Seq<Row>,
    p: Permutation,
    t: PointTensors,
    base: int,
    sums: ColumnSums,
    slots: Seq<SpineSlot>,
    leaves: Seq<Seq<Lin>>,
    n: nat,
) -> (Seq<Row>, ColumnSums, Seq<Seq<Lin>>)
    decreases n,
{
    if n == 0 {
        (c, sums, Seq::empty())
    } else {
        let (c1, before, outs) = body_rows(c, p, t, base, sums, slots, leaves, (n - 1) as nat);
        let raw = slot_lins(slots[n - 1], leaves, outs);
        let (c2, now, out) = replay_rows(c1, p, t, base + n - 1, before, raw);
        (c2, now, outs.push(out))
    }
}

/// The rows of the first `n` transactions.
pub open spec fn bodies_rows(
    c: Seq<Row>,
    p: Permutation,
    t: PointTensors,
    slots: Seq<SpineSlot>,
    leaves: Seq<Seq<Seq<Lin>>>,
    n: nat,
) -> (Seq<Row>, ColumnSums)
    decreases n,
{
    if n == 0 {
        (c, no_sums())
    } else {
        let (c1, sums) = bodies_rows(c, p, t, slots, leaves, (n - 1) as nat);
        let (c2, now, outs) = body_rows(
            c1,
            p,
            t,
            (n - 1) * slots.len(),
            sums,
            slots,
            leaves[n - 1],
            slots.len(),
        );
        (c2, now)
    }
}

/// The rows of a discharge: they depend on wires and the layout alone.
pub open spec fn bodies_discharge_rows(
    c: Seq<Row>,
    p: Permutation,
    slots: Seq<SpineSlot>,
    leaves: Seq<Seq<Seq<Lin>>>,
    point: Seq<Lin>,
    values: Seq<Lin>,
) -> Seq<Row> {
    let t = point_tensors(c, point);
    let (rows, sums) = bodies_rows(t.rows, p, t, slots, leaves, leaves.len());
    closing_rows(rows, sums, values)
}

pub open spec fn out_views(outs: Seq<[LinExpr; 4]>) -> Seq<Seq<Lin>> {
    Seq::new(outs.len(), |i: int| state_lins(outs[i]))
}

fn chain_absorb_pair_trace(s: &[LinExpr; 4], absorb: &[LinExpr; 2]) -> (r: [LinExpr; 4])
    ensures
        state_lins(r) == seq![
            s[0]@.plus(absorb[0]@),
            s[1]@.plus(absorb[1]@),
            s[2]@,
            s[3]@,
        ],
{
    let r = [s[0].add(&absorb[0]), s[1].add(&absorb[1]), s[2].dup(), s[3].dup()];
    assert(state_lins(r) =~= seq![s[0]@.plus(absorb[0]@), s[1]@.plus(absorb[1]@), s[2]@, s[3]@]);
    r
}

/// A leaf of the first level.
fn resolve_raw_leaf(inputs: &SpineInputsTrace, pos: u8, is_left: bool) -> (r: [LinExpr; 2])
    requires
        inputs.leaves@.len() == TX_BODY_RAW_LEAVES,
        leaf_index(pos, is_left) < TX_BODY_RAW_LEAVES,
    ensures
        lins(r@) == lins(
            inputs.leaves@[leaf_index(pos, is_left)]@,
        ),
{
    let side: usize = if is_left {
        0
    } else {
        1
    };
    let leaf: usize = 2 * (pos as usize) + side;
    let pair = &inputs.leaves[leaf];
    let r = [pair[0].dup(), pair[1].dup()];
    assert(lins(r@) =~= lins(pair@));
    r
}

fn child_pair(
    outs: &Vec<[LinExpr; 4]>,
    child: Option<usize>,
    inputs: &SpineInputsTrace,
    level: u8,
    pos: u8,
    is_left: bool,
    Ghost(n): Ghost<nat>,
) -> (r: [LinExpr; 2])
    requires
        inputs.wf(n),
        child_ok(
            child,
            level,
            leaf_index(pos, is_left),
            outs@.len() as int,
        ),
        outs_below(outs@, n),
    ensures
        all_below(lins(r@), n),
        lins(r@) == child_lins(
            child,
            leaf_index(pos, is_left),
            block_lins(inputs.leaves@),
            out_views(outs@),
        ),
        forall|z: Seq<F128>|
            evals_at(lins(r@), z) == #[trigger] child_digest(
                child,
                leaf_index(pos, is_left),
                inputs.at(z),
                outs_at(outs@, z),
            ),
{
    match child {
        Some(k) => {
            let s = &outs[k];
            let r = [s[0].dup(), s[1].dup()];
            proof {
                let sl = state_lins(outs@[k as int]);
                assert(all_below(sl, n));
                assert(sl[0].below(n) && sl[1].below(n));
                assert(lins(r@) =~= seq![sl[0], sl[1]]);
                assert forall|z: Seq<F128>|
                    evals_at(lins(r@), z) == #[trigger] child_digest(
                        child,
                        leaf_index(pos, is_left),
                        inputs.at(z),
                        outs_at(outs@, z),
                    ) by {
                    let o = outs_at(outs@, z)[k as int];
                    assert(o[0] == sl[0].eval(z) && o[1] == sl[1].eval(z));
                    assert(evals_at(lins(r@), z) =~= seq![o[0], o[1]]);
                }
            }
            r
        },
        None => {
            let r = resolve_raw_leaf(inputs, pos, is_left);
            proof {
                let leaf = leaf_index(pos, is_left);
                assert(all_below(lins(inputs.leaves@[leaf]@), n));
                assert forall|z: Seq<F128>|
                    evals_at(lins(r@), z) == #[trigger] child_digest(
                        child,
                        leaf,
                        inputs.at(z),
                        outs_at(outs@, z),
                    ) by {
                    assert(inputs.at(z)[leaf] == evals_at(lins(r@), z));
                }
            }
            r
        },
    }
}

pub open spec fn outs_at(outs: Seq<[LinExpr; 4]>, z: Seq<F128>) -> Seq<Seq<F128>> {
    Seq::new(outs.len(), |i: int| row_eval(state_lins(outs[i]), z))
}

pub open spec fn outs_below(outs: Seq<[LinExpr; 4]>, n: nat) -> bool {
    forall|i: int| 0 <= i < outs.len() ==> all_below(state_lins(#[trigger] outs[i]), n)
}

proof fn lemma_outs_grow(outs: Seq<[LinExpr; 4]>, m: nat, n: nat)
    requires
        outs_below(outs, m),
        m <= n,
    ensures
        outs_below(outs, n),
{
    assert forall|i: int| 0 <= i < outs.len() implies all_below(
        state_lins(#[trigger] outs[i]),
        n,
    ) by {
        crate::eval_gadgets::lemma_below_grow(state_lins(outs[i]), m, n);
    }
}

/// The state that a slot starts from.
fn slot_state(
    slot: &SpineSlot,
    inputs: &SpineInputsTrace,
    outs: &Vec<[LinExpr; 4]>,
    Ghost(n): Ghost<nat>,
) -> (r: [LinExpr; 4])
    requires
        slot_ok(*slot, outs@.len() as int),
        inputs.wf(n),
        outs_below(outs@, n),
    ensures
        all_below(state_lins(r), n),
        state_lins(r) == slot_lins(*slot, block_lins(inputs.leaves@), out_views(outs@)),
        forall|z: Seq<F128>|
            row_eval(state_lins(r), z) == #[trigger] slot_input(
                *slot,
                inputs.at(z),
                outs_at(outs@, z),
            ),
{
    broadcast use group_lin;

    let iv = &slot.capacity_iv;
    match slot.role {
        InstanceRole::CompressPermA { level, pos } => {
            let left = child_pair(outs, slot.left_child, inputs, level, pos, true, Ghost(n));
            let r = [
                left[0].dup(),
                left[1].dup(),
                LinExpr::constant(iv[0]),
                LinExpr::constant(iv[1]),
            ];
            proof {
                let ll = lins(left@);
                assert(ll[0].below(n) && ll[1].below(n));
                assert(state_lins(r) =~= seq![
                    ll[0],
                    ll[1],
                    Lin::constant(iv[0]),
                    Lin::constant(iv[1]),
                ]);
                assert forall|z: Seq<F128>|
                    row_eval(state_lins(r), z) == #[trigger] slot_input(
                        *slot,
                        inputs.at(z),
                        outs_at(outs@, z),
                    ) by {
                    let d = child_digest(
                        slot.left_child,
                        leaf_index(pos, true),
                        inputs.at(z),
                        outs_at(outs@, z),
                    );
                    assert(evals_at(ll, z) == d);
                    assert(d[0] == ll[0].eval(z) && d[1] == ll[1].eval(z));
                    assert(row_eval(state_lins(r), z) =~= seq![d[0], d[1], iv[0], iv[1]]);
                }
            }
            r
        },
        InstanceRole::CompressPermB { level, pos } => {
            let right = child_pair(outs, slot.right_child, inputs, level, pos, false, Ghost(n));
            let src: usize = slot.prev_output_src.unwrap();
            let r = chain_absorb_pair_trace(&outs[src], &right);
            proof {
                let rl = lins(right@);
                let sl = state_lins(outs@[src as int]);
                assert(out_views(outs@)[src as int] == sl);
                assert(state_lins(r) =~= seq![
                    sl[0].plus(rl[0]),
                    sl[1].plus(rl[1]),
                    sl[2],
                    sl[3],
                ]);
                assert(rl[0].below(n) && rl[1].below(n));
                assert(all_below(sl, n));
                assert(sl[0].below(n) && sl[1].below(n) && sl[2].below(n) && sl[3].below(n));
                assert forall|z: Seq<F128>|
                    row_eval(state_lins(r), z) == #[trigger] slot_input(
                        *slot,
                        inputs.at(z),
                        outs_at(outs@, z),
                    ) by {
                    let d = child_digest(
                        slot.right_child,
                        leaf_index(pos, false),
                        inputs.at(z),
                        outs_at(outs@, z),
                    );
                    assert(evals_at(rl, z) == d);
                    assert(d[0] == rl[0].eval(z) && d[1] == rl[1].eval(z));
                    let o = outs_at(outs@, z)[src as int];
                    assert(o[0] == sl[0].eval(z) && o[1] == sl[1].eval(z) && o[2] == sl[2].eval(z)
                        && o[3] == sl[3].eval(z));
                    assert(row_eval(state_lins(r), z) =~= absorbed(o, d));
                }
            }
            r
        },
        InstanceRole::WrapPerm => {
            let root = child_pair(outs, slot.left_child, inputs, 1, 0, true, Ghost(n));
            let r = [
                root[0].dup(),
                root[1].dup(),
                LinExpr::constant(iv[0]),
                LinExpr::constant(iv[1]),
            ];
            proof {
                let ll = lins(root@);
                assert(ll[0].below(n) && ll[1].below(n));
                assert(state_lins(r) =~= seq![
                    ll[0],
                    ll[1],
                    Lin::constant(iv[0]),
                    Lin::constant(iv[1]),
                ]);
                assert forall|z: Seq<F128>|
                    row_eval(state_lins(r), z) == #[trigger] slot_input(
                        *slot,
                        inputs.at(z),
                        outs_at(outs@, z),
                    ) by {
                    let d = child_digest(
                        slot.left_child,
                        leaf_index(0, true),
                        inputs.at(z),
                        outs_at(outs@, z),
                    );
                    assert(evals_at(ll, z) == d);
                    assert(d[0] == ll[0].eval(z) && d[1] == ll[1].eval(z));
                    assert(row_eval(state_lins(r), z) =~= seq![d[0], d[1], iv[0], iv[1]]);
                }
            }
            r
        },
    }
}

/// Replays the slots of a transaction.
#[verifier::rlimit(60)]
fn push_tx_body_spine_slots(
    b: &mut FieldR1csBuilder,
    acc: &mut ColumnAccumulator,
    t: &PoseidonTables,
    slots: &Vec<SpineSlot>,
    inputs: &SpineInputsTrace,
    Ghost(point): Ghost<Seq<Lin>>,
    Ghost(raws): Ghost<Seq<Seq<Lin>>>,
    Ghost(n): Ghost<nat>,
) -> (r: Ghost<Seq<Seq<Lin>>>)
    requires
        old(b)@.wf(),
        t@.rounds() < 128,
        layout_ok(slots@),
        inputs.wf(old(b)@.rows.len()),
        old(acc).next_slot + slots@.len() <= old(acc).n_slots,
        replaying(old(acc), t@, point, raws, old(b)@.rows, n),
    ensures
        computed(old(b)@, final(b)@),
        final(acc).n_slots == old(acc).n_slots,
        replaying(final(acc), t@, point, r@, final(b)@.rows, n),
        r@.len() == raws.len() + slots@.len(),
        final(acc).next_slot == old(acc).next_slot + slots@.len(),
        forall|ts: PointTensors| #[trigger]
            at_tensors(old(acc), ts) ==> {
                let (rows, sums, outs) = body_rows(
                    old(b)@.rows,
                    t@,
                    ts,
                    old(acc).next_slot as int,
                    old(acc).sums(),
                    slots@,
                    block_lins(inputs.leaves@),
                    slots@.len(),
                );
                at_tensors(final(acc), ts) && final(b)@.rows == rows && final(acc).sums() == sums
            },
        forall|z: Seq<F128>| #[trigger]
            holds_past(final(b)@.rows, n, z) ==> raws_at(r@, z) == raws_at(raws, z) + slot_inputs(
                t@,
                slots@,
                inputs.at(z),
                slots@.len(),
            ),
{
    let ghost p = t@;
    let ghost b0 = b@;
    let ghost m = b0.rows.len();
    let count: usize = slots.len();
    let total: usize = acc.n_slots;
    let ghost base: nat = acc.next_slot as nat;
    let mut outs: Vec<[LinExpr; 4]> = Vec::new();
    let ghost mut now = raws;
    let ghost acc0 = *acc;
    let ghost ll = block_lins(inputs.leaves@);
    proof {
        lemma_computed_refl(b0);
        assert(out_views(outs@) =~= Seq::empty());
        assert forall|z: Seq<F128>| #[trigger] holds_past(b@.rows, n, z) implies raws_at(now, z)
            == raws_at(raws, z) + slot_inputs(p, slots@, inputs.at(z), 0) && outs_at(outs@, z)
            == slot_outputs(p, slots@, inputs.at(z), 0) by {
            assert(raws_at(now, z) =~= raws_at(raws, z) + slot_inputs(p, slots@, inputs.at(z), 0));
            assert(outs_at(outs@, z) =~= slot_outputs(p, slots@, inputs.at(z), 0));
        }
    }
    while outs.len() < count
        invariant
            outs@.len() <= count,
            count == slots@.len(),
            p == t@,
            p.rounds() < 128,
            layout_ok(slots@),
            m == b0.rows.len(),
            inputs.wf(m),
            b@.wf(),
            computed(b0, b@),
            acc.n_slots == total,
            base + count <= total,
            base == raws.len(),
            now.len() == base + outs@.len(),
            replaying(acc, p, point, now, b@.rows, n),
            base == acc0.next_slot,
            acc.next_slot == base + outs@.len(),
            ll == block_lins(inputs.leaves@),
            forall|ts: PointTensors| #[trigger]
                at_tensors(&acc0, ts) ==> at_tensors(acc, ts) && (
                    b@.rows,
                    acc.sums(),
                    out_views(outs@),
                ) == body_rows(
                    b0.rows,
                    p,
                    ts,
                    base as int,
                    acc0.sums(),
                    slots@,
                    ll,
                    outs@.len(),
                ),
            outs_below(outs@, b@.rows.len()),
            forall|z: Seq<F128>| #[trigger]
                holds_past(b@.rows, n, z) ==> raws_at(now, z) == raws_at(raws, z) + slot_inputs(
                    p,
                    slots@,
                    inputs.at(z),
                    outs@.len(),
                ) && outs_at(outs@, z) == slot_outputs(p, slots@, inputs.at(z), outs@.len()),
        decreases count - outs@.len(),
    {
        let i: usize = outs.len();
        let ghost c = b@;
        let ghost k = c.rows.len();
        let ghost prior = now;
        let ghost before = outs@;
        proof {
            assert(slot_ok(slots@[i as int], i as int));
            lemma_blocks_grow(inputs.leaves@, m, k);
        }
        let state = slot_state(&slots[i], inputs, &outs, Ghost(k));
        let ghost raw = state_lins(state);
        let ghost acc1 = *acc;
        let out = replay_slot(b, acc, t, &state, Ghost(point), Ghost(now), Ghost(n));
        proof {
            lemma_outs_grow(outs@, k, b@.rows.len());
        }
        outs.push(out);
        proof {
            assert(out_views(outs@) =~= out_views(before).push(state_lins(out)));
            assert forall|ts: PointTensors| #[trigger] at_tensors(&acc0, ts) implies at_tensors(
                acc,
                ts,
            ) && (b@.rows, acc.sums(), out_views(outs@)) == body_rows(
                b0.rows,
                p,
                ts,
                base as int,
                acc0.sums(),
                slots@,
                ll,
                (i + 1) as nat,
            ) by {
                assert(at_tensors(&acc1, ts));
            }
            now = now.push(raw);
            let rows = b@.rows;
            assert forall|z: Seq<F128>| #[trigger] holds_past(rows, n, z) implies raws_at(now, z)
                == raws_at(raws, z) + slot_inputs(p, slots@, inputs.at(z), (i + 1) as nat)
                && outs_at(outs@, z) == slot_outputs(
                p,
                slots@,
                inputs.at(z),
                (i + 1) as nat,
            ) by {
                lemma_past_split(rows, c.rows, n, z);
                let sv = slot_input(slots@[i as int], inputs.at(z), outs_at(before, z));
                assert(row_eval(raw, z) == sv);
                assert(raws_at(now, z) =~= raws_at(prior, z).push(sv));
                assert(raws_at(now, z) =~= raws_at(raws, z) + slot_inputs(
                    p,
                    slots@,
                    inputs.at(z),
                    (i + 1) as nat,
                ));
                assert(outs_at(outs@, z) =~= outs_at(before, z).push(permuted(p, sv)));
            }
        }
    }
    Ghost(now)
}

/// Replays every transaction's slots and binds their columns to the reductions.
#[verifier::rlimit(60)]
pub fn discharge_tx_body_trace(
    b: &mut FieldR1csBuilder,
    t: &PoseidonTables,
    slots: &Vec<SpineSlot>,
    inputs: &Vec<SpineInputsTrace>,
    reductions: &[BatchEvalReductionTrace; 3],
)
    requires
        old(b)@.wf(),
        t@.rounds() < 128,
        layout_ok(slots@),
        inputs@.len() * slots@.len() > 0,
        reductions[0].point@.len() >= 9,
        inputs@.len() * slots@.len() <= pow2((reductions[0].point@.len() - 9) as nat),
        pow2((reductions[0].point@.len() - 9) as nat) <= usize::MAX,
        all_below(lins(reductions[0].point@), old(b)@.rows.len()),
        forall|i: int| 0 <= i < 3 ==> (#[trigger] reductions[i]).value@.below(old(b)@.rows.len()),
        forall|i: int| 0 <= i < inputs@.len() ==> (#[trigger] inputs@[i]).wf(old(b)@.rows.len()),
    ensures
        enforces(
            old(b)@,
            final(b)@,
            |z: Seq<F128>|
                bodies_discharged(
                    t@,
                    slots@,
                    body_leaves(inputs@),
                    lins(reductions[0].point@),
                    reduction_values(*reductions),
                    z,
                ),
        ),
        final(b)@.rows == bodies_discharge_rows(
            old(b)@.rows,
            t@,
            slots@,
            body_leaves(inputs@),
            lins(reductions[0].point@),
            reduction_values(*reductions),
        ),
{
    let ghost p = t@;
    let ghost b0 = b@;
    let ghost n = b0.rows.len();
    let ghost pl = lins(reductions[0].point@);
    let ghost (sl, ins) = (slots@, inputs@);
    let ghost ls = body_leaves(inputs@);
    let live_slots: usize = inputs.len() * slots.len();
    let mut acc = start_replay(b, &reductions[0].point, live_slots, Ghost(p));
    let ghost ts = point_tensors(b0.rows, pl);
    let ghost mut raws: Seq<Seq<Lin>> = Seq::empty();
    let mut i: usize = 0;
    proof {
        assert forall|z: Seq<F128>| #[trigger] holds_past(b@.rows, n, z) implies raws_at(raws, z)
            == bodies_inputs(p, sl, ls, 0, z) by {
            assert(raws_at(raws, z) =~= bodies_inputs(p, sl, ls, 0, z));
        }
    }
    while i < inputs.len()
        invariant
            i <= inputs@.len(),
            sl == slots@,
            ins == inputs@,
            ls == body_leaves(ins),
            p == t@,
            p.rounds() < 128,
            layout_ok(sl),
            n == b0.rows.len(),
            live_slots == ins.len() * sl.len(),
            forall|k: int| 0 <= k < ins.len() ==> (#[trigger] ins[k]).wf(n),
            b@.wf(),
            computed(b0, b@),
            acc.n_slots == live_slots,
            replaying(&acc, p, pl, raws, b@.rows, n),
            at_tensors(&acc, ts),
            (b@.rows, acc.sums()) == bodies_rows(ts.rows, p, ts, sl, ls, i as nat),
            raws.len() == i * sl.len(),
            forall|z: Seq<F128>| #[trigger]
                holds_past(b@.rows, n, z) ==> raws_at(raws, z) == bodies_inputs(
                    p,
                    sl,
                    ls,
                    i as nat,
                    z,
                ),
        decreases inputs@.len() - i,
    {
        let ghost c = b@;
        proof {
            assert(ins[i as int].wf(n));
            assert(ls[i as int] == block_lins(ins[i as int].leaves@));
            lemma_blocks_grow(inputs@[i as int].leaves@, n, b@.rows.len());
            assert((i + 1) * sl.len() <= ins.len() * sl.len()) by (nonlinear_arith)
                requires
                    i + 1 <= ins.len(),
            ;
            assert((i + 1) * sl.len() == i * sl.len() + sl.len()) by (nonlinear_arith);
        }
        let now = push_tx_body_spine_slots(
            b,
            &mut acc,
            t,
            slots,
            &inputs[i],
            Ghost(pl),
            Ghost(raws),
            Ghost(n),
        );
        proof {
            let rows = b@.rows;
            assert forall|z: Seq<F128>| #[trigger] holds_past(rows, n, z) implies raws_at(now@, z)
                == bodies_inputs(p, sl, ls, (i + 1) as nat, z) by {
                lemma_past_split(rows, c.rows, n, z);
            }
            raws = now@;
        }
        i += 1;
    }
    let ghost b3 = b@;
    let ghost pins = Seq::<Lin>::empty();
    proof {
        lemma_pinned_none(b0, b@);
        lemma_binds_none(b@.rows);
    }
    close_replay(b, &acc, reductions, Ghost(b0), Ghost(pins));
    proof {
        let all = closed_pins(pins, &acc, *reductions);
        let values = reduction_values(*reductions);
        let f = |z: Seq<F128>| bodies_discharged(p, sl, ls, pl, values, z);
        assert forall|z: Seq<F128>| #[trigger] holds_past(b@.rows, n, z) implies (all_zero(all, z)
            <==> f(z)) by {
            lemma_past_split(b@.rows, b3.rows, n, z);
            assert(accumulates(&acc, p, pl, raws, z));
            lemma_closed_pins(pins, &acc, *reductions, p, pl, raws, z);
        }
        lemma_enforces(b0, b@, all, f);
    }
}

// ---------------------------------------------------------------------------
// The verifier
// ---------------------------------------------------------------------------

/// The terms that bind every transaction's hash to what its wrap ends on.
pub open spec fn pin_terms(rounds: nat, n: nat, slots_per_tx: nat) -> Seq<Seq<(nat, Lin)>> {
    Seq::new(
        2 * n,
        |k: int|
            seq![
                (
                    point_index(
                        ((k / 2) * slots_per_tx + slots_per_tx - 1) as nat,
                        rounds,
                        (k % 2) as nat,
                    ),
                    Lin::constant(F128::one()),
                ),
            ],
    )
}

pub open spec fn pin_values(hashes: Seq<Seq<Lin>>) -> Seq<Lin> {
    Seq::new(2 * hashes.len(), |k: int| hashes[k / 2][k % 2])
}

/// Relations that bind the hashes: a hash is what the column holds at its wrap's
/// end.
pub proof fn lemma_hashes_bound(
    rounds: nat,
    hashes: Seq<Seq<Lin>>,
    slots_per_tx: nat,
    column: Seq<F128>,
    i: int,
    lane: int,
    z: Seq<F128>,
)
    requires
        0 <= i < hashes.len(),
        0 <= lane < 2,
        relations_hold(
            pin_terms(rounds, hashes.len(), slots_per_tx),
            pin_values(hashes),
            column,
            z,
        ),
    ensures
        hashes[i][lane].eval(z) == state_at(
            column,
            (i * slots_per_tx + slots_per_tx - 1) as nat,
            rounds,
        )[lane],
{
    broadcast use {group_lin, group_field_units};

    let k = 2 * i + lane;
    let terms = pin_terms(rounds, hashes.len(), slots_per_tx);
    assert(k / 2 == i && k % 2 == lane);
    assert(relation_holds(terms_at(terms[k], z), pin_values(hashes)[k].eval(z), column));
    let at = point_index((i * slots_per_tx + slots_per_tx - 1) as nat, rounds, lane as nat);
    assert(terms_at(terms[k], z) =~= seq![(at, F128::one())]);
    reveal_with_fuel(terms_sum, 2);
}

/// The relations that bind the hashes.
pub fn tx_hash_pin_claims_trace(
    tx_body_hashes: &Vec<[LinExpr; 2]>,
    slots_per_tx: usize,
    rounds: usize,
    num_vars: usize,
) -> (r: Vec<LinearEvalClaimTrace>)
    requires
        slots_per_tx > 0,
        rounds < 128,
        9 <= num_vars < usize::BITS,
        tx_body_hashes@.len() * slots_per_tx <= pow2((num_vars - 9) as nat),
        pow2((num_vars - 9) as nat) <= usize::MAX,
    ensures
        linear_terms(r@) == pin_terms(
            rounds as nat,
            tx_body_hashes@.len(),
            slots_per_tx as nat,
        ),
        linear_values(r@) == pin_values(block_lins(tx_body_hashes@)),
        forall|n: nat| #[trigger] blocks_below(tx_body_hashes@, n) ==> linear_ok(r@, n),
{
    let ghost terms = pin_terms(rounds as nat, tx_body_hashes@.len(), slots_per_tx as nat);
    let ghost values = pin_values(block_lins(tx_body_hashes@));
    let mut r: Vec<LinearEvalClaimTrace> = Vec::new();
    let mut i: usize = 0;
    while i < tx_body_hashes.len()
        invariant
            i <= tx_body_hashes@.len(),
            slots_per_tx > 0,
            rounds < 128,
            9 <= num_vars < usize::BITS,
            tx_body_hashes@.len() * slots_per_tx <= pow2((num_vars - 9) as nat),
            pow2((num_vars - 9) as nat) <= usize::MAX,
            terms == pin_terms(rounds as nat, tx_body_hashes@.len(), slots_per_tx as nat),
            values == pin_values(block_lins(tx_body_hashes@)),
            r@.len() == 2 * i,
            forall|k: int| 0 <= k < r@.len() ==> term_views((#[trigger] r@[k]).terms@) == terms[k],
            forall|k: int| 0 <= k < r@.len() ==> (#[trigger] r@[k]).value@ == values[k],
            forall|n: nat, k: int|
                blocks_below(tx_body_hashes@, n) && 0 <= k < r@.len()
                    ==> #[trigger] crate::spine_claims::claim_below(r@[k], n),
        decreases tx_body_hashes@.len() - i,
    {
        proof {
            assert((i + 1) * slots_per_tx <= tx_body_hashes@.len() * slots_per_tx)
                by (nonlinear_arith)
                requires
                    i + 1 <= tx_body_hashes@.len(),
            ;
            assert((i + 1) * slots_per_tx == i * slots_per_tx + slots_per_tx)
                by (nonlinear_arith);
            assert(i * slots_per_tx >= 0) by (nonlinear_arith);
        }
        let wrap: usize = i * slots_per_tx + (slots_per_tx - 1);
        let mut lane: usize = 0;
        while lane < 2
            invariant
                lane <= 2,
                i < tx_body_hashes@.len(),
                rounds < 128,
                9 <= num_vars < usize::BITS,
                wrap == i * slots_per_tx + slots_per_tx - 1,
                wrap < pow2((num_vars - 9) as nat),
                terms == pin_terms(rounds as nat, tx_body_hashes@.len(), slots_per_tx as nat),
                values == pin_values(block_lins(tx_body_hashes@)),
                r@.len() == 2 * i + lane,
                forall|k: int|
                    0 <= k < r@.len() ==> term_views((#[trigger] r@[k]).terms@) == terms[k],
                forall|k: int| 0 <= k < r@.len() ==> (#[trigger] r@[k]).value@ == values[k],
                forall|n: nat, k: int|
                    blocks_below(tx_body_hashes@, n) && 0 <= k < r@.len()
                        ==> #[trigger] crate::spine_claims::claim_below(r@[k], n),
            decreases 2 - lane,
        {
            let ghost before = r@;
            let mut own: Vec<LinearEvalTermTrace> = Vec::new();
            own.push(state_term(num_vars, wrap, rounds, lane, LinExpr::constant(F128::one())));
            let c = LinearEvalClaimTrace { terms: own, value: tx_body_hashes[i][lane].dup() };
            r.push(c);
            proof {
                let at = 2 * i + lane;
                assert(at / 2 == i && at % 2 == lane as int);
                assert(block_lins(tx_body_hashes@)[i as int] == lins(tx_body_hashes@[i as int]@));
                assert(term_views(own@) =~= terms[at as int]);
                assert forall|n: nat, k: int|
                    blocks_below(tx_body_hashes@, n) && 0 <= k
                        < r@.len() implies #[trigger] crate::spine_claims::claim_below(
                    r@[k],
                    n,
                ) by {
                    if k < at {
                        assert(r@[k] == before[k]);
                        assert(crate::spine_claims::claim_below(before[k], n));
                    } else {
                        assert(all_below(lins(tx_body_hashes@[i as int]@), n));
                        assert(lins(tx_body_hashes@[i as int]@)[lane as int].below(n));
                    }
                }
            }
            lane += 1;
        }
        i += 1;
    }
    proof {
        assert(linear_terms(r@) =~= terms);
        assert(linear_values(r@) =~= values);
        assert forall|n: nat| #[trigger] blocks_below(tx_body_hashes@, n) implies linear_ok(
            r@,
            n,
        ) by {
            assert forall|k: int| 0 <= k < r@.len() implies terms_below(
                (#[trigger] r@[k]).terms@,
                n,
            ) && r@[k].value@.below(n) by {
                assert(crate::spine_claims::claim_below(r@[k], n));
            }
        }
    }
    r
}

/// A proof about transaction bodies.
#[derive(Debug)]
pub struct TxBodySpineProofTrace {
    pub main: BlockSpineUnifiedProofTrace,
    pub shift: BlockSpineShiftProofTrace,
    pub tx_hash_pins: LinearEvalProofTrace,
    pub batch: MultiBatchEvalProofTrace,
    pub num_vars: usize,
    pub live_slots: usize,
}

impl TxBodySpineProofTrace {
    /// The wires of the proof.
    pub open spec fn family(&self) -> FamilyLins {
        family_lins(&self.main, &self.shift, &self.tx_hash_pins, &self.batch)
    }

    pub open spec fn wf(&self, n: nat) -> bool {
        &&& proof_ok(
            &self.main,
            &self.shift,
            &self.tx_hash_pins,
            &self.batch,
            self.num_vars as nat,
            n,
        )
        &&& self.live_slots <= pow2((self.num_vars - 9) as nat)
    }

    /// Fresh wires of a proof about `n_instances` transactions.
    pub fn allocate(
        b: &mut FieldR1csBuilder,
        native: &SpineProof,
        n_instances: usize,
        num_vars: usize,
    ) -> (r: TxBodySpineProofTrace)
        requires
            old(b)@.wf(),
            9 <= num_vars < usize::BITS,
            pow2((num_vars - 9) as nat) <= usize::MAX,
            native.wf(num_vars as nat),
            n_instances * N_SPINE_SLOTS <= pow2((num_vars - 9) as nat),
        ensures
            allocated(old(b)@, final(b)@, native.values()),
            r.wf(final(b)@.rows.len()),
            r.num_vars == num_vars,
            r.live_slots == n_instances * N_SPINE_SLOTS,
            r.family() == proof_wires(
                old(b)@.rows.len() as int,
                num_vars as nat,
                poly_lens(poly_views(native.main.round_polys@)),
                poly_lens(poly_views(native.shift.round_polys@)),
            ),
            native.values().len() == proof_width(
                num_vars as nat,
                poly_lens(poly_views(native.main.round_polys@)),
                poly_lens(poly_views(native.shift.round_polys@)),
            ),
    {
        let r = SpineProofTrace::allocate(b, native, num_vars);
        TxBodySpineProofTrace {
            main: r.main,
            shift: r.shift,
            tx_hash_pins: r.chain,
            batch: r.batch,
            num_vars,
            live_slots: n_instances * N_SPINE_SLOTS,
        }
    }
}

/// The operations that absorb the first `n` hashes.
pub open spec fn hash_ops(hashes: Seq<Seq<Lin>>, n: nat) -> Seq<Op>
    decreases n,
{
    if n == 0 {
        Seq::empty()
    } else {
        hash_ops(hashes, (n - 1) as nat).push(Op::Absorb(hashes[n - 1][0])).push(
            Op::Absorb(hashes[n - 1][1]),
        )
    }
}

/// The run of the verifier over given hashes, on rows and operations that precede
/// it.
pub open spec fn bodies_run(
    rows: Seq<Row>,
    ops: Seq<Op>,
    p: Permutation,
    f: FamilyLins,
    live: nat,
    hashes: Seq<Seq<Lin>>,
    tags: SpineTags,
) -> FamilyRun {
    let start = Tape { rows, ops: ops + hash_ops(hashes, hashes.len()) };
    family_run(
        start,
        p,
        live,
        f,
        opening_tape(start, p, live, f).rows,
        pin_terms(p.rounds(), hashes.len(), N_SPINE_SLOTS as nat),
        pin_values(hashes),
        tags,
    )
}

/// The verifier's four sumchecks hold under given values.
pub open spec fn bodies_checked(
    run: FamilyRun,
    p: Permutation,
    f: FamilyLins,
    live: nat,
    hashes: Seq<Seq<Lin>>,
    z: Seq<F128>,
) -> bool {
    family_checked(
        run,
        p,
        live,
        f,
        pin_terms(p.rounds(), hashes.len(), N_SPINE_SLOTS as nat),
        pin_values(hashes),
        z,
    )
}

/// Verifies transaction bodies: absorbs their hashes, opens the spine, binds the
/// hashes to the wraps and closes on one point of each column.
pub fn verify_block_spine_killshot_trace(
    b: &mut FieldR1csBuilder,
    ch: &mut RawChannelTrace,
    t: &PoseidonTables,
    proof: &TxBodySpineProofTrace,
    tx_body_hashes: &Vec<[LinExpr; 2]>,
    tags: SpineTags,
) -> (r: [BatchEvalReductionTrace; 3])
    requires
        old(b)@.wf(),
        t@.rounds() < 128,
        tx_body_hashes@.len() > 0,
        proof.wf(old(b)@.rows.len()),
        proof.live_slots == tx_body_hashes@.len() * N_SPINE_SLOTS,
        blocks_below(tx_body_hashes@, old(b)@.rows.len()),
    ensures
        ({
            let (p, f, live) = (t@, proof.family(), proof.live_slots as nat);
            let hashes = block_lins(tx_body_hashes@);
            let run = bodies_run(old(b)@.rows, old(ch)@, p, f, live, hashes, tags);
            &&& tape(*final(b), *final(ch)) == run.multi.tape
            &&& pinned(old(b)@, final(b)@, run.pins)
            &&& enforces(
                old(b)@,
                final(b)@,
                |z: Seq<F128>| bodies_checked(run, p, f, live, hashes, z),
            )
            &&& forall|i: int|
                0 <= i < 3 ==> lins((#[trigger] r[i]).point@) == reversed(run.multi.challenges)
                    && r[i].value@ == proof.batch.b_finals@[i]@
        }),
        final(b)@.grows(old(b)@),
        forall|i: int|
            0 <= i < 3 ==> (#[trigger] r[i]).fits(proof.num_vars as nat, final(b)@.rows.len()),
        drew(old(b)@, *old(ch), final(b)@, *final(ch)),
{
    let ghost (b0, ch0) = (b@, *ch);
    let ghost o = ch@;
    absorb_hashes(ch, tx_body_hashes);
    let ghost start = tape(*b, *ch);
    let ghost ch1 = *ch;
    let claims = tx_hash_pin_claims_trace(
        tx_body_hashes,
        N_SPINE_SLOTS,
        t.rc.len(),
        proof.num_vars,
    );
    assert(linear_terms(claims@).len() == claims@.len());
    let r = verify_spine_relations(
        b,
        ch,
        t,
        &proof.main,
        &proof.shift,
        &proof.tx_hash_pins,
        &proof.batch,
        &claims,
        proof.num_vars,
        proof.live_slots,
        tags,
    );
    proof {
        let hl = block_lins(tx_body_hashes@);
        assert(start == Tape { rows: b0.rows, ops: o + hash_ops(hl, hl.len()) });
        lemma_drew_kept(b0, ch0, b0, ch1);
        lemma_drew_trans(b0, ch0, b0, ch1, b@, *ch);
        let (p, f, live) = (t@, proof.family(), proof.live_slots as nat);
        let run = bodies_run(b0.rows, o, p, f, live, hl, tags);
        let checked = |z: Seq<F128>| bodies_checked(run, p, f, live, hl, z);
        crate::spine_family::lemma_proof_family(
            &proof.main,
            &proof.shift,
            &proof.tx_hash_pins,
            &proof.batch,
            proof.num_vars as nat,
            b0.rows.len(),
        );
        assert forall|z: Seq<F128>| #[trigger] sat(b@.rows, z) implies sat(b0.rows, z) && checked(
            z,
        ) by {
            lemma_family_sound(
                start,
                p,
                live,
                f,
                proof.num_vars as nat,
                opening_tape(start, p, live, f).rows,
                pin_terms(p.rounds(), hl.len(), N_SPINE_SLOTS as nat),
                pin_values(hl),
                tags,
                z,
            );
        }
        assert(checked(b@.values) == bodies_checked(run, p, f, live, hl, b@.values));
    }
    r
}

/// Absorbs hashes.
fn absorb_hashes(ch: &mut RawChannelTrace, tx_body_hashes: &Vec<[LinExpr; 2]>)
    ensures
        final(ch)@ == old(ch)@ + hash_ops(block_lins(tx_body_hashes@), tx_body_hashes@.len()),
        kept(*old(ch), *final(ch)),
{
    let ghost hl = block_lins(tx_body_hashes@);
    let ghost o = ch@;
    let mut i: usize = 0;
    assert(ch@ =~= o + hash_ops(hl, 0));
    while i < tx_body_hashes.len()
        invariant
            i <= tx_body_hashes@.len(),
            hl == block_lins(tx_body_hashes@),
            ch@ == o + hash_ops(hl, i as nat),
            kept(*old(ch), *ch),
        decreases tx_body_hashes@.len() - i,
    {
        assert(hl[i as int] == lins(tx_body_hashes@[i as int]@));
        ch.absorb(&tx_body_hashes[i][0]);
        ch.absorb(&tx_body_hashes[i][1]);
        i += 1;
        assert(ch@ =~= o + hash_ops(hl, i as nat));
    }
}

// ---------------------------------------------------------------------------
// The slot
// ---------------------------------------------------------------------------

/// The leaves of a transaction body.
#[derive(Debug)]
pub struct SpineInputs {
    pub leaves: Vec<[F128; 2]>,
}

impl SpineInputsTrace {
    /// Fresh wires of the leaves.
    pub fn allocate(b: &mut FieldR1csBuilder, native: &SpineInputs) -> (r: SpineInputsTrace)
        requires
            old(b)@.wf(),
            native.leaves@.len() == TX_BODY_RAW_LEAVES,
        ensures
            allocated(
                old(b)@,
                final(b)@,
                round_values(native.leaves@, native.leaves@.len()),
            ),
            final(b)@.rows.len() == old(b)@.rows.len() + 2 * TX_BODY_RAW_LEAVES,
            block_lins(r.leaves@) == pair_wires(
                old(b)@.rows.len() as int,
                TX_BODY_RAW_LEAVES as nat,
            ),
            r.wf(final(b)@.rows.len()),
            r.at(final(b)@.values) == pair_views(native.leaves@),
    {
        SpineInputsTrace { leaves: allocate_pairs(b, &native.leaves) }
    }
}

/// Wires of leaves with their values.
pub open spec fn leaves_hold(
    wires: Seq<SpineInputsTrace>,
    inputs: Seq<SpineInputs>,
    z: Seq<F128>,
) -> bool {
    forall|i: int|
        0 <= i < wires.len() ==> (#[trigger] wires[i]).at(z) == pair_views(inputs[i].leaves@)
}

pub open spec fn bodies_ok(inputs: Seq<SpineInputsTrace>, n: nat) -> bool {
    forall|i: int| 0 <= i < inputs.len() ==> (#[trigger] inputs[i]).wf(n)
}

proof fn lemma_bodies_keep(
    wires: Seq<SpineInputsTrace>,
    inputs: Seq<SpineInputs>,
    before: Circuit,
    after: Circuit,
)
    requires
        bodies_ok(wires, before.rows.len()),
        leaves_hold(wires, inputs, before.values),
        after.grows(before),
    ensures
        bodies_ok(wires, after.rows.len()),
        leaves_hold(wires, inputs, after.values),
{
    assert forall|i: int| 0 <= i < wires.len() implies (#[trigger] wires[i]).wf(after.rows.len())
        && wires[i].at(after.values) == pair_views(inputs[i].leaves@) by {
        assert(wires[i].wf(before.rows.len()));
        lemma_pairs_stable(before, after, wires[i].leaves@);
    }
}

/// The values of the first `n` transactions' leaves, in the order of their wires.
pub open spec fn leaf_values(inputs: Seq<SpineInputs>, n: nat) -> Seq<F128>
    decreases n,
{
    if n == 0 {
        Seq::empty()
    } else {
        leaf_values(inputs, (n - 1) as nat) + round_values(
            inputs[n - 1].leaves@,
            inputs[n - 1].leaves@.len(),
        )
    }
}

/// Consecutive wires of the leaves of `n` transactions.
pub open spec fn leaf_wires(start: int, n: nat) -> Seq<Seq<Seq<Lin>>> {
    Seq::new(
        n,
        |i: int| pair_wires(start + 2 * TX_BODY_RAW_LEAVES * i, TX_BODY_RAW_LEAVES as nat),
    )
}

fn allocate_bodies(b: &mut FieldR1csBuilder, inputs: &Vec<SpineInputs>) -> (r: Vec<
    SpineInputsTrace,
>)
    requires
        old(b)@.wf(),
        forall|i: int|
            0 <= i < inputs@.len() ==> (#[trigger] inputs@[i]).leaves@.len()
                == TX_BODY_RAW_LEAVES,
    ensures
        allocated(old(b)@, final(b)@, leaf_values(inputs@, inputs@.len())),
        final(b)@.rows.len() == old(b)@.rows.len() + 2 * TX_BODY_RAW_LEAVES * inputs@.len(),
        r@.len() == inputs@.len(),
        body_leaves(r@) == leaf_wires(old(b)@.rows.len() as int, inputs@.len()),
        bodies_ok(r@, final(b)@.rows.len()),
        leaves_hold(r@, inputs@, final(b)@.values),
{
    let ghost b0 = b@;
    let mut r: Vec<SpineInputsTrace> = Vec::new();
    proof {
        lemma_allocated_none(b0);
    }
    while r.len() < inputs.len()
        invariant
            r@.len() <= inputs@.len(),
            forall|i: int|
                0 <= i < inputs@.len() ==> (#[trigger] inputs@[i]).leaves@.len()
                    == TX_BODY_RAW_LEAVES,
            b@.wf(),
            allocated(b0, b@, leaf_values(inputs@, r@.len())),
            b@.rows.len() == b0.rows.len() + 2 * TX_BODY_RAW_LEAVES * r@.len(),
            forall|i: int|
                0 <= i < r@.len() ==> block_lins((#[trigger] r@[i]).leaves@) == pair_wires(
                    b0.rows.len() + 2 * TX_BODY_RAW_LEAVES * i,
                    TX_BODY_RAW_LEAVES as nat,
                ),
            bodies_ok(r@, b@.rows.len()),
            leaves_hold(r@, inputs@, b@.values),
        decreases inputs@.len() - r@.len(),
    {
        let i: usize = r.len();
        let ghost c = b@;
        let ghost prior = r@;
        let body = SpineInputsTrace::allocate(b, &inputs[i]);
        r.push(body);
        proof {
            lemma_allocated(
                b0,
                c,
                b@,
                leaf_values(inputs@, i as nat),
                round_values(inputs@[i as int].leaves@, inputs@[i as int].leaves@.len()),
            );
            assert(2 * TX_BODY_RAW_LEAVES * (i + 1) == 2 * TX_BODY_RAW_LEAVES * i + 2
                * TX_BODY_RAW_LEAVES) by (nonlinear_arith);
            lemma_bodies_keep(prior, inputs@, c, b@);
            assert forall|k: int| 0 <= k < r@.len() implies (#[trigger] r@[k]).wf(b@.rows.len())
                && r@[k].at(b@.values) == pair_views(inputs@[k].leaves@) && block_lins(
                r@[k].leaves@,
            ) == pair_wires(
                b0.rows.len() + 2 * TX_BODY_RAW_LEAVES * k,
                TX_BODY_RAW_LEAVES as nat,
            ) by {
                if k < i {
                    assert(r@[k] == prior[k]);
                }
            }
        }
    }
    assert(body_leaves(r@) =~= leaf_wires(b0.rows.len() as int, inputs@.len()));
    r
}

/// The wires of a slot: leaves, hashes and proof.
pub struct BodyWires {
    pub leaves: Seq<Seq<Seq<Lin>>>,
    pub hashes: Seq<Seq<Lin>>,
    pub proof: FamilyLins,
}

/// The wires of a slot of `count` transactions, one after the other.
pub open spec fn body_wires(
    start: int,
    count: nat,
    n: nat,
    main: Seq<nat>,
    shift: Seq<nat>,
) -> BodyWires {
    let at = start + 2 * TX_BODY_RAW_LEAVES * count;
    BodyWires {
        leaves: leaf_wires(start, count),
        hashes: pair_wires(at, count),
        proof: proof_wires(at + 2 * count, n, main, shift),
    }
}

/// How many wires a slot takes before its verifier.
pub open spec fn body_width(count: nat, n: nat, main: Seq<nat>, shift: Seq<nat>) -> nat {
    2 * TX_BODY_RAW_LEAVES as nat * count + 2 * count + proof_width(n, main, shift)
}

/// The slot's conditions on values: the verifier's sumchecks, over a transcript
/// that starts with the hashes, and the columns of the replayed slots at the
/// point that the transcript ends on, which are the proof's final values.
#[verifier::opaque]
pub open spec fn body_slot_accepts(
    wired: Seq<Row>,
    p: Permutation,
    slots: Seq<SpineSlot>,
    w: BodyWires,
    tags: SpineTags,
    z: Seq<F128>,
) -> bool {
    let live = w.hashes.len() * N_SPINE_SLOTS as nat;
    let run = bodies_run(wired, Seq::empty(), p, w.proof, live, w.hashes, tags);
    &&& bodies_checked(run, p, w.proof, live, w.hashes, z)
    &&& bodies_discharged(
        p,
        slots,
        w.leaves,
        reversed(run.multi.challenges),
        w.proof.finals,
        z,
    )
}

/// The wires of the challenges that the verifier draws.
#[verifier::opaque]
pub open spec fn body_challenges(
    wired: Seq<Row>,
    p: Permutation,
    w: BodyWires,
    tags: SpineTags,
) -> Seq<Lin> {
    let live = w.hashes.len() * N_SPINE_SLOTS as nat;
    let run = bodies_run(wired, Seq::empty(), p, w.proof, live, w.hashes, tags);
    squeezed_wires(run.multi.tape.ops)
}

/// The rows of a verifier and a replay on given wires.
#[verifier::opaque]
pub open spec fn checked_body_rows(
    wired: Seq<Row>,
    p: Permutation,
    slots: Seq<SpineSlot>,
    w: BodyWires,
    tags: SpineTags,
) -> Seq<Row> {
    let live = w.hashes.len() * N_SPINE_SLOTS as nat;
    let run = bodies_run(wired, Seq::empty(), p, w.proof, live, w.hashes, tags);
    bodies_discharge_rows(
        run.multi.tape.rows,
        p,
        slots,
        w.leaves,
        reversed(run.multi.challenges),
        w.proof.finals,
    )
}

/// The rows of a whole slot. They depend on the shape alone: on the layout, the
/// number of transactions and the lengths of the proof, not on what the
/// transactions or the proof hold.
pub open spec fn body_slot_rows(
    c: Seq<Row>,
    p: Permutation,
    slots: Seq<SpineSlot>,
    count: nat,
    n: nat,
    main: Seq<nat>,
    shift: Seq<nat>,
    tags: SpineTags,
) -> Seq<Row> {
    checked_body_rows(
        free_rows(c, body_width(count, n, main, shift)),
        p,
        slots,
        body_wires(c.len() as int, count, n, main, shift),
        tags,
    )
}

/// Verifies and replays transactions on given wires, on a fresh channel.
#[verifier::rlimit(40)]
fn verify_body_slot(
    b: &mut FieldR1csBuilder,
    t: &PoseidonTables,
    slots: &Vec<SpineSlot>,
    wires: &TxBodySpineProofTrace,
    bodies: &Vec<SpineInputsTrace>,
    hashes: &Vec<[LinExpr; 2]>,
    challenges: Vec<F128>,
    tags: SpineTags,
    Ghost(w): Ghost<BodyWires>,
)
    requires
        old(b)@.wf(),
        t@.rounds() < 128,
        layout_ok(slots@),
        slots@.len() == N_SPINE_SLOTS,
        bodies@.len() > 0,
        bodies@.len() == hashes@.len(),
        bodies_ok(bodies@, old(b)@.rows.len()),
        blocks_below(hashes@, old(b)@.rows.len()),
        wires.wf(old(b)@.rows.len()),
        wires.live_slots == hashes@.len() * N_SPINE_SLOTS,
        w.leaves == body_leaves(bodies@),
        w.hashes == block_lins(hashes@),
        w.proof == wires.family(),
    ensures
        final(b)@.rows == checked_body_rows(old(b)@.rows, t@, slots@, w, tags),
        enforces(
            old(b)@,
            final(b)@,
            |z: Seq<F128>| body_slot_accepts(old(b)@.rows, t@, slots@, w, tags, z),
        ),
        challenges_held(
            challenges@,
            body_challenges(old(b)@.rows, t@, w, tags),
            final(b)@.values,
        ),
{
    let ghost b0 = b@;
    let mut ch = RawChannelTrace::new(challenges);
    let ghost ch0 = ch;
    let reductions = verify_block_spine_killshot_trace(b, &mut ch, t, wires, hashes, tags);
    let ghost (b1, ch1) = (b@, ch);
    let ghost p = t@;
    let ghost live = wires.live_slots as nat;
    let ghost run = bodies_run(b0.rows, Seq::empty(), p, w.proof, live, w.hashes, tags);
    proof {
        lemma_bodies_grow(bodies@, b0.rows.len(), b1.rows.len());
        assert(reductions[0].fits(wires.num_vars as nat, b1.rows.len()));
        assert(forall|i: int|
            0 <= i < 3 ==> (#[trigger] reductions[i]).fits(
                wires.num_vars as nat,
                b1.rows.len(),
            ));
        assert(lins(reductions[0].point@).len() == reductions[0].point@.len());
        assert(reduction_values(reductions) =~= w.proof.finals) by {
            assert(reductions[0].value@ == wires.batch.b_finals@[0]@);
            assert(reductions[1].value@ == wires.batch.b_finals@[1]@);
            assert(reductions[2].value@ == wires.batch.b_finals@[2]@);
        }
    }
    discharge_tx_body_trace(b, t, slots, bodies, &reductions);
    proof {
        lemma_drew_end(b0, ch0, b1, ch1, b@, ch1);
        lemma_drew_fresh(b0, ch0, b@, ch1);
        reveal(body_challenges);
        reveal(body_slot_accepts);
        reveal(checked_body_rows);
        let f = |z: Seq<F128>| bodies_checked(run, p, w.proof, live, w.hashes, z);
        let point = reversed(run.multi.challenges);
        assert(lins(reductions[0].point@) == point);
        let g = |z: Seq<F128>|
            bodies_discharged(p, slots@, w.leaves, point, w.proof.finals, z);
        assert(enforces(b0, b1, f));
        assert(enforces(b1, b@, g));
        let start = Tape {
            rows: b0.rows,
            ops: Seq::<Op>::empty() + hash_ops(w.hashes, w.hashes.len()),
        };
        crate::spine_family::lemma_proof_family(
            &wires.main,
            &wires.shift,
            &wires.tx_hash_pins,
            &wires.batch,
            wires.num_vars as nat,
            b0.rows.len(),
        );
        lemma_family_keeps(
            b0,
            b1,
            b@,
            start,
            p,
            live,
            w.proof,
            wires.num_vars as nat,
            opening_tape(start, p, live, w.proof).rows,
            pin_terms(p.rounds(), w.hashes.len(), N_SPINE_SLOTS as nat),
            pin_values(w.hashes),
            tags,
        );
        let h = |z: Seq<F128>| body_slot_accepts(b0.rows, p, slots@, w, tags, z);
        lemma_enforces_trans(b0, b1, b@, f, g, h);
    }
}

/// Leaves stay below a bound that grows.
proof fn lemma_bodies_grow(bodies: Seq<SpineInputsTrace>, m: nat, n: nat)
    requires
        bodies_ok(bodies, m),
        m <= n,
    ensures
        bodies_ok(bodies, n),
{
    assert forall|i: int| 0 <= i < bodies.len() implies (#[trigger] bodies[i]).wf(n) by {
        lemma_blocks_grow(bodies[i].leaves@, m, n);
    }
}

/// A whole slot: leaves, hashes and proof on fresh wires, the verifier on a fresh
/// channel, and the replay. The challenges are those that the channel gives.
#[verifier::rlimit(40)]
pub fn build_tx_body_slot(
    b: &mut FieldR1csBuilder,
    t: &PoseidonTables,
    slots: &Vec<SpineSlot>,
    proof: &SpineProof,
    inputs: &Vec<SpineInputs>,
    tx_body_hashes: &Vec<[F128; 2]>,
    num_vars: usize,
    challenges: Vec<F128>,
    tags: SpineTags,
) -> (r: (Vec<SpineInputsTrace>, Vec<[LinExpr; 2]>))
    requires
        old(b)@.wf(),
        t@.rounds() < 128,
        layout_ok(slots@),
        slots@.len() == N_SPINE_SLOTS,
        inputs@.len() > 0,
        inputs@.len() == tx_body_hashes@.len(),
        forall|i: int|
            0 <= i < inputs@.len() ==> (#[trigger] inputs@[i]).leaves@.len()
                == TX_BODY_RAW_LEAVES,
        9 <= num_vars < usize::BITS,
        pow2((num_vars - 9) as nat) <= usize::MAX,
        inputs@.len() * N_SPINE_SLOTS <= pow2((num_vars - 9) as nat),
        proof.wf(num_vars as nat),
    ensures
        final(b)@.grows(old(b)@),
        r.0@.len() == inputs@.len(),
        bodies_ok(r.0@, final(b)@.rows.len()),
        leaves_hold(r.0@, inputs@, final(b)@.values),
        blocks_at(block_lins(r.1@), final(b)@.values) == pair_views(tx_body_hashes@),
        ({
            let (c, count, n) = (old(b)@.rows, inputs@.len(), num_vars as nat);
            let main = poly_lens(poly_views(proof.main.round_polys@));
            let shift = poly_lens(poly_views(proof.shift.round_polys@));
            let w = body_wires(c.len() as int, count, n, main, shift);
            let wired = free_rows(c, body_width(count, n, main, shift));
            &&& body_leaves(r.0@) == w.leaves
            &&& block_lins(r.1@) == w.hashes
            &&& final(b)@.rows == body_slot_rows(c, t@, slots@, count, n, main, shift, tags)
            &&& prefix(
                old(b)@.values + slot_values(inputs@, tx_body_hashes@, *proof),
                final(b)@.values,
            )
            &&& enforces(
                old(b)@,
                final(b)@,
                |z: Seq<F128>| body_slot_accepts(wired, t@, slots@, w, tags, z),
            )
            &&& challenges_held(
                challenges@,
                body_challenges(wired, t@, w, tags),
                final(b)@.values,
            )
        }),
{
    let ghost b0 = b@;
    let bodies = allocate_bodies(b, inputs);
    let ghost b1 = b@;
    let hashes = allocate_pairs(b, tx_body_hashes);
    let ghost b2 = b@;
    let wires = TxBodySpineProofTrace::allocate(b, proof, inputs.len(), num_vars);
    let ghost b3 = b@;
    let ghost main = poly_lens(poly_views(proof.main.round_polys@));
    let ghost shift = poly_lens(poly_views(proof.shift.round_polys@));
    let ghost (count, n) = (inputs@.len(), num_vars as nat);
    let ghost w = body_wires(b0.rows.len() as int, count, n, main, shift);
    let ghost values = slot_values(inputs@, tx_body_hashes@, *proof);
    proof {
        lemma_pairs_stable(b2, b3, hashes@);
        lemma_bodies_keep(bodies@, inputs@, b1, b3);
        let (v1, v2) = (leaf_values(inputs@, count), round_values(tx_body_hashes@, count));
        lemma_allocated(b0, b1, b2, v1, v2);
        lemma_allocated(b0, b2, b3, v1 + v2, proof.values());
        lemma_allocated_computed(b0, b3, values);
    }
    verify_body_slot(b, t, slots, &wires, &bodies, &hashes, challenges, tags, Ghost(w));
    proof {
        lemma_bodies_keep(bodies@, inputs@, b3, b@);
        lemma_pairs_stable(b3, b@, hashes@);
        let f = |z: Seq<F128>| body_slot_accepts(b3.rows, t@, slots@, w, tags, z);
        assert(enforces(b3, b@, f));
        lemma_enforces_after(b0, b3, b@, f);
    }
    let r = (bodies, hashes);
    assert(r.0@ == bodies@ && r.1@ == hashes@);
    r
}

/// The values of a slot's leaves, hashes and proof, in the order of their wires.
pub open spec fn slot_values(
    inputs: Seq<SpineInputs>,
    hashes: Seq<[F128; 2]>,
    proof: SpineProof,
) -> Seq<F128> {
    leaf_values(inputs, inputs.len()) + round_values(hashes, hashes.len()) + proof.values()
}

} // verus!
