//! Wires of a checked structural frontier, at a fixed width.

use vstd::prelude::*;
use crate::accepted_claim_batch::free_rows;
use crate::circuit::{
    alloc_block, free_row, group_circuit, Circuit, FieldR1csBuilder, Lin, LinExpr, Row,
};
use crate::exact_leaves::{SlotLeafInputs, SlotLeafInputsTrace};
use crate::field::F128;
use crate::gadget::{computed, holds_past};
use crate::paired_region::{
    path_update, region_error, ExactStatePairedRegionData, ExactStatePairedRegionError,
    SegmentedSequentialMerkleUpdates,
};
use crate::state_roots::{ExactStateRootWires, StateHashing};
use crate::structural_frontier::{
    claimed_digests, frontier_error, leaf_digests, leaves_hashed,
    verify_exact_state_structural_frontier, ExactStateStructuralFrontierError,
    ExactStateStructuralFrontierInputs, FrontierHashes, SparseMerkleError, StructuralCombine,
    StructuralFrontierEvaluation, StructuralFrontierPlan, StructuralNodeRef,
};

verus! {

broadcast use group_circuit;

/// One old and new leaf with their slot.
pub struct StructuralTouchedLeafPreparation {
    pub slot_index: LinExpr,
    pub old: SlotLeafInputsTrace,
    pub new: SlotLeafInputsTrace,
}

impl StructuralTouchedLeafPreparation {
    pub open spec fn lanes(&self) -> Seq<Lin> {
        seq![self.slot_index@] + self.old.lanes() + self.new.lanes()
    }
}

/// One combined node with its children.
pub struct StructuralCombineTuplePreparation {
    pub left: [LinExpr; 2],
    pub right: [LinExpr; 2],
    pub parent: [LinExpr; 2],
    pub is_live: bool,
}

impl StructuralCombineTuplePreparation {
    pub open spec fn lanes(&self) -> Seq<Lin> {
        seq![
            self.left@[0]@,
            self.left@[1]@,
            self.right@[0]@,
            self.right@[1]@,
            self.parent@[0]@,
            self.parent@[1]@,
        ]
    }
}

/// The wires of a frontier. They carry its values; nothing here binds the
/// combined nodes to their children.
pub struct ExactStateStructuralRegionPreparation {
    pub plan: StructuralFrontierPlan,
    pub touched_leaves: Vec<StructuralTouchedLeafPreparation>,
    pub shared_sibling_frontier: Vec<[LinExpr; 2]>,
    pub live_sibling_count: usize,
    pub old_combines: Vec<StructuralCombineTuplePreparation>,
    pub new_combines: Vec<StructuralCombineTuplePreparation>,
    pub live_combine_count: usize,
    pub combine_capacity_per_root: usize,
    pub roots: ExactStateRootWires,
}

/// Why a frontier is not prepared.
#[derive(Clone, Copy, Debug, PartialEq, Eq, Structural)]
pub enum ExactStateStructuralPreparationError {
    Frontier(ExactStateStructuralFrontierError),
    CombineCapacityExceeded { required: usize, capacity: usize },
}

// ---------------------------------------------------------------------------
// Allocation
// ---------------------------------------------------------------------------

/// Consecutive wires.
pub open spec fn wires_from(start: int, n: nat) -> Seq<Lin> {
    Seq::new(n, |i: int| Lin::wire((start + i) as usize))
}

/// A circuit extended by unbound wires of given values.
pub open spec fn allocated(before: Circuit, after: Circuit, values: Seq<F128>) -> bool {
    &&& after.rows == free_rows(before.rows, values.len())
    &&& after.rows.len() == before.rows.len() + values.len()
    &&& after.values == before.values + values
    &&& after.grows(before)
    &&& after.honest() <==> before.honest()
}

pub proof fn lemma_free_rows_add(c: Seq<Row>, m: nat, n: nat)
    ensures
        free_rows(c, m).len() == c.len() + m,
        free_rows(free_rows(c, m), n) == free_rows(c, m + n),
    decreases n, m,
{
    if n == 0 {
        if m > 0 {
            lemma_free_rows_add(c, (m - 1) as nat, 0);
        }
    } else {
        lemma_free_rows_add(c, m, (n - 1) as nat);
        assert(free_rows(c, m).len() + n - 1 == c.len() + (m + n) - 1);
    }
}

pub proof fn lemma_allocated(a: Circuit, b: Circuit, c: Circuit, v: Seq<F128>, w: Seq<F128>)
    requires
        allocated(a, b, v),
        allocated(b, c, w),
    ensures
        allocated(a, c, v + w),
{
    lemma_free_rows_add(a.rows, v.len(), w.len());
    assert(a.values + v + w =~= a.values + (v + w));
}

/// Unbound wires are satisfied by any values.
pub proof fn lemma_allocated_computed(a: Circuit, b: Circuit, v: Seq<F128>)
    requires
        allocated(a, b, v),
    ensures
        computed(a, b),
{
    reveal(holds_past);
    lemma_free_rows_at(a.rows, v.len());
    assert forall|i: int| a.rows.len() <= i < b.rows.len() implies (#[trigger] b.rows[i]).holds(
        i,
        b.values,
    ) by {
        assert(b.rows[i] == free_row(i as usize));
    }
}

proof fn lemma_free_rows_at(c: Seq<Row>, n: nat)
    ensures
        free_rows(c, n).len() == c.len() + n,
        forall|i: int|
            c.len() <= i < c.len() + n ==> #[trigger] free_rows(c, n)[i] == free_row(i as usize),
    decreases n,
{
    if n > 0 {
        lemma_free_rows_at(c, (n - 1) as nat);
    }
}

pub proof fn lemma_allocated_none(a: Circuit)
    requires
        a.wf(),
    ensures
        allocated(a, a, Seq::empty()),
{
    assert(a.values + Seq::<F128>::empty() =~= a.values);
}

/// Wires of one value.
pub fn alloc_value(b: &mut FieldR1csBuilder, value: F128) -> (r: LinExpr)
    requires
        old(b)@.wf(),
    ensures
        allocated(old(b)@, final(b)@, seq![value]),
        r@ == Lin::wire(old(b)@.rows.len() as usize),
{
    let r = alloc_block(b, value);
    proof {
        reveal_with_fuel(free_rows, 2);
        assert(b@.values =~= old(b)@.values + seq![value]);
    }
    r
}

/// Wires of a digest.
fn alloc_state_hash(b: &mut FieldR1csBuilder, digest: &[F128; 2]) -> (r: [LinExpr; 2])
    requires
        old(b)@.wf(),
    ensures
        allocated(old(b)@, final(b)@, digest@),
        r@[0]@ == Lin::wire(old(b)@.rows.len() as usize),
        r@[1]@ == Lin::wire((old(b)@.rows.len() + 1) as usize),
{
    let ghost b0 = b@;
    let lo = alloc_value(b, digest[0]);
    let ghost b1 = b@;
    let hi = alloc_value(b, digest[1]);
    proof {
        lemma_allocated(b0, b1, b@, seq![digest@[0]], seq![digest@[1]]);
        assert(digest@ =~= seq![digest@[0]] + seq![digest@[1]]);
    }
    [lo, hi]
}

/// Wires of a leaf.
fn alloc_leaf(b: &mut FieldR1csBuilder, leaf: &SlotLeafInputs) -> (r: SlotLeafInputsTrace)
    requires
        old(b)@.wf(),
    ensures
        allocated(old(b)@, final(b)@, leaf.lanes()),
        r.lanes() == wires_from(old(b)@.rows.len() as int, 5),
{
    let ghost b0 = b@;
    let packed_value = alloc_value(b, leaf.packed_value);
    let ghost b1 = b@;
    let owner_hi = alloc_value(b, leaf.owner_hi);
    let ghost b2 = b@;
    let owner_lo = alloc_value(b, leaf.owner_lo);
    let ghost b3 = b@;
    let expected_leaf = alloc_state_hash(b, &leaf.expected_leaf);
    let r = SlotLeafInputsTrace { packed_value, owner_hi, owner_lo, expected_leaf };
    proof {
        let (x, y, z) = (seq![leaf.packed_value], seq![leaf.owner_hi], seq![leaf.owner_lo]);
        lemma_allocated(b0, b1, b2, x, y);
        lemma_allocated(b0, b2, b3, x + y, z);
        lemma_allocated(b0, b3, b@, x + y + z, leaf.expected_leaf@);
        assert(leaf.lanes() =~= x + y + z + leaf.expected_leaf@);
        assert(r.lanes() =~= wires_from(b0.rows.len() as int, 5));
    }
    r
}

// ---------------------------------------------------------------------------
// Values
// ---------------------------------------------------------------------------

/// The value of a plan node.
pub open spec fn node_value(
    node: StructuralNodeRef,
    leaves: Seq<[F128; 2]>,
    siblings: Seq<[F128; 2]>,
    combines: Seq<[F128; 2]>,
) -> Seq<F128> {
    match node {
        StructuralNodeRef::TouchedLeaf(i) => leaves[i as int]@,
        StructuralNodeRef::FrontierSibling(i) => siblings[i as int]@,
        StructuralNodeRef::Combine(i) => combines[i as int]@,
    }
}

/// A plan node is one of the given leaves, siblings or combined nodes.
pub open spec fn node_in(node: StructuralNodeRef, leaves: nat, siblings: nat, combines: nat) -> bool {
    match node {
        StructuralNodeRef::TouchedLeaf(i) => i < leaves,
        StructuralNodeRef::FrontierSibling(i) => i < siblings,
        StructuralNodeRef::Combine(i) => i < combines,
    }
}

/// A combined node refers to nodes that there are.
pub open spec fn combine_in(c: StructuralCombine, leaves: nat, siblings: nat, combines: nat) -> bool {
    node_in(c.left, leaves, siblings, combines) && node_in(c.right, leaves, siblings, combines)
}

/// Every combined node refers to nodes that there are.
pub open spec fn plan_in(plan: &StructuralFrontierPlan, leaves: nat, siblings: nat) -> bool {
    forall|i: int|
        0 <= i < plan.combines@.len() ==> combine_in(
            #[trigger] plan.combines@[i],
            leaves,
            siblings,
            plan.combines@.len(),
        )
}

/// The values of a combined node: left, right, parent.
pub open spec fn combine_value(
    plan: &StructuralFrontierPlan,
    leaves: Seq<[F128; 2]>,
    siblings: Seq<[F128; 2]>,
    combines: Seq<[F128; 2]>,
    i: int,
) -> Seq<F128> {
    node_value(plan.combines@[i].left, leaves, siblings, combines) + node_value(
        plan.combines@[i].right,
        leaves,
        siblings,
        combines,
    ) + combines[i]@
}

/// The values of the combined nodes of one root over its full width: those of
/// the plan, then the hash of two zero digests.
pub open spec fn half_value(
    plan: &StructuralFrontierPlan,
    leaves: Seq<[F128; 2]>,
    siblings: Seq<[F128; 2]>,
    combines: Seq<[F128; 2]>,
    ghost_parent: Seq<F128>,
    i: int,
) -> Seq<F128> {
    if i < plan.combines@.len() {
        combine_value(plan, leaves, siblings, combines, i)
    } else {
        zeros(4) + ghost_parent
    }
}

pub open spec fn zeros(n: nat) -> Seq<F128> {
    Seq::new(n, |i: int| F128::zero())
}

pub open spec fn half_values(
    plan: &StructuralFrontierPlan,
    leaves: Seq<[F128; 2]>,
    siblings: Seq<[F128; 2]>,
    combines: Seq<[F128; 2]>,
    ghost_parent: Seq<F128>,
    n: nat,
) -> Seq<F128>
    decreases n,
{
    if n == 0 {
        Seq::empty()
    } else {
        half_values(plan, leaves, siblings, combines, ghost_parent, (n - 1) as nat) + half_value(
            plan,
            leaves,
            siblings,
            combines,
            ghost_parent,
            n - 1,
        )
    }
}

/// The values of the touched leaves: slot, old leaf, new leaf.
pub open spec fn touched_values(inputs: &ExactStateStructuralFrontierInputs, n: nat) -> Seq<F128>
    decreases n,
{
    if n == 0 {
        Seq::empty()
    } else {
        touched_values(inputs, (n - 1) as nat) + (seq![
            F128::of_nat(inputs.touched_indices@[n - 1] as nat),
        ] + inputs.old_slot_leaves@[n - 1].lanes() + inputs.new_slot_leaves@[n - 1].lanes())
    }
}

/// The values of the shared siblings over their full width, zero past the last.
pub open spec fn sibling_values(siblings: Seq<[F128; 2]>, n: nat) -> Seq<F128>
    decreases n,
{
    if n == 0 {
        Seq::empty()
    } else {
        sibling_values(siblings, (n - 1) as nat) + if n - 1 < siblings.len() {
            siblings[n - 1]@
        } else {
            zeros(2)
        }
    }
}

/// A digest of a plan node.
fn structural_node_value(
    node: StructuralNodeRef,
    leaves: &Vec<[F128; 2]>,
    siblings: &Vec<[F128; 2]>,
    combines: &Vec<[F128; 2]>,
) -> (r: [F128; 2])
    requires
        node_in(node, leaves@.len(), siblings@.len(), combines@.len()),
    ensures
        r@ == node_value(node, leaves@, siblings@, combines@),
{
    match node {
        StructuralNodeRef::TouchedLeaf(i) => leaves[i],
        StructuralNodeRef::FrontierSibling(i) => siblings[i],
        StructuralNodeRef::Combine(i) => combines[i],
    }
}

/// The values of the combined nodes of a plan.
fn structural_combine_values(
    plan: &StructuralFrontierPlan,
    leaves: &Vec<[F128; 2]>,
    siblings: &Vec<[F128; 2]>,
    evaluation: &StructuralFrontierEvaluation,
) -> (r: Vec<([F128; 2], [F128; 2], [F128; 2])>)
    requires
        plan_in(plan, leaves@.len(), siblings@.len()),
        evaluation.combines@.len() == plan.combines@.len(),
    ensures
        r@.len() == plan.combines@.len(),
        forall|i: int|
            0 <= i < r@.len() ==> (#[trigger] r@[i]).0@ + r@[i].1@ + r@[i].2@ == combine_value(
                plan,
                leaves@,
                siblings@,
                evaluation.combines@,
                i,
            ),
{
    let mut r: Vec<([F128; 2], [F128; 2], [F128; 2])> = Vec::new();
    let mut i: usize = 0;
    while i < plan.combines.len()
        invariant
            i <= plan.combines@.len(),
            r@.len() == i,
            plan_in(plan, leaves@.len(), siblings@.len()),
            evaluation.combines@.len() == plan.combines@.len(),
            forall|j: int|
                0 <= j < i ==> (#[trigger] r@[j]).0@ + r@[j].1@ + r@[j].2@ == combine_value(
                    plan,
                    leaves@,
                    siblings@,
                    evaluation.combines@,
                    j,
                ),
        decreases plan.combines@.len() - i,
    {
        let combine = plan.combines[i];
        assert(combine_in(
            plan.combines@[i as int],
            leaves@.len(),
            siblings@.len(),
            plan.combines@.len(),
        ));
        let left = structural_node_value(combine.left, leaves, siblings, &evaluation.combines);
        let right = structural_node_value(combine.right, leaves, siblings, &evaluation.combines);
        r.push((left, right, evaluation.combines[i]));
        i += 1;
    }
    r
}

/// Where the wires of consecutive combined nodes are.
pub open spec fn half_wired(
    half: Seq<StructuralCombineTuplePreparation>,
    start: int,
    live: nat,
) -> bool {
    forall|i: int|
        0 <= i < half.len() ==> (#[trigger] half[i]).lanes() == wires_from(start + 6 * i, 6)
            && half[i].is_live == (i < live)
}

/// Wires of the combined nodes of one root over its full width.
fn allocate_structural_combine_half(
    b: &mut FieldR1csBuilder,
    live: &Vec<([F128; 2], [F128; 2], [F128; 2])>,
    ghost_parent: &[F128; 2],
    capacity: usize,
    Ghost(values): Ghost<spec_fn(nat) -> Seq<F128>>,
    Ghost(value): Ghost<spec_fn(int) -> Seq<F128>>,
) -> (r: Vec<StructuralCombineTuplePreparation>)
    requires
        old(b)@.wf(),
        live@.len() <= capacity,
        values(0) == Seq::<F128>::empty(),
        forall|n: nat| n < capacity ==> values(n + 1) == #[trigger] values(n) + value(n as int),
        forall|i: int|
            0 <= i < live@.len() ==> (#[trigger] live@[i]).0@ + live@[i].1@ + live@[i].2@ == value(
                i,
            ),
        forall|i: int| live@.len() <= i < capacity ==> #[trigger] value(i) == zeros(4)
            + ghost_parent@,
        forall|n: nat| n <= capacity ==> (#[trigger] values(n)).len() == 6 * n,
    ensures
        allocated(old(b)@, final(b)@, values(capacity as nat)),
        r@.len() == capacity,
        half_wired(r@, old(b)@.rows.len() as int, live@.len()),
{
    let ghost b0 = b@;
    let pad = [F128::zero(), F128::zero()];
    let mut r: Vec<StructuralCombineTuplePreparation> = Vec::new();
    proof {
        lemma_allocated_none(b0);
    }
    let mut i: usize = 0;
    while i < capacity
        invariant
            i <= capacity,
            live@.len() <= capacity,
            b0.wf(),
            b@.wf(),
            r@.len() == i,
            pad@ == zeros(2),
            allocated(b0, b@, values(i as nat)),
            values(i as nat).len() == 6 * i,
            half_wired(r@, b0.rows.len() as int, live@.len()),
            forall|n: nat|
                n < capacity ==> values(n + 1) == #[trigger] values(n) + value(n as int),
            forall|j: int|
                0 <= j < live@.len() ==> (#[trigger] live@[j]).0@ + live@[j].1@ + live@[j].2@
                    == value(j),
            forall|j: int| live@.len() <= j < capacity ==> #[trigger] value(j) == zeros(4)
                + ghost_parent@,
            forall|n: nat| n <= capacity ==> (#[trigger] values(n)).len() == 6 * n,
        decreases capacity - i,
    {
        let (left, right, parent, is_live): ([F128; 2], [F128; 2], [F128; 2], bool) = if i
            < live.len() {
            (live[i].0, live[i].1, live[i].2, true)
        } else {
            (pad, pad, *ghost_parent, false)
        };
        let ghost b1 = b@;
        let left_wires = alloc_state_hash(b, &left);
        let ghost b2 = b@;
        let right_wires = alloc_state_hash(b, &right);
        let ghost b3 = b@;
        let parent_wires = alloc_state_hash(b, &parent);
        let ghost before = r@;
        r.push(
            StructuralCombineTuplePreparation {
                left: left_wires,
                right: right_wires,
                parent: parent_wires,
                is_live,
            },
        );
        proof {
            let v = left@ + right@ + parent@;
            lemma_allocated(b1, b2, b3, left@, right@);
            lemma_allocated(b1, b3, b@, left@ + right@, parent@);
            if i < live@.len() {
                assert(v == value(i as int));
            } else {
                assert(zeros(2) + zeros(2) =~= zeros(4));
                assert(v =~= zeros(4) + ghost_parent@);
            }
            assert(values((i + 1) as nat) == values(i as nat) + value(i as int));
            lemma_allocated(b0, b1, b@, values(i as nat), v);
            let start = b0.rows.len() + 6 * i;
            assert(r@[i as int].lanes() =~= wires_from(start, 6));
            assert(half_wired(r@, b0.rows.len() as int, live@.len())) by {
                assert forall|j: int| 0 <= j < r@.len() implies (#[trigger] r@[j]).lanes()
                    == wires_from(b0.rows.len() + 6 * j, 6) && r@[j].is_live == (j
                    < live@.len()) by {
                    if j < i {
                        assert(r@[j] == before[j]);
                    }
                }
            }
        }
        i += 1;
    }
    r
}

/// What the Merkle library gives fits the inputs: there is a hash for every leaf,
/// the plan refers to their leaves and siblings, and its evaluations have a digest
/// for every node.
pub open spec fn hashes_fit(
    inputs: &ExactStateStructuralFrontierInputs,
    hashes: &FrontierHashes,
) -> bool {
    &&& leaves_hashed(inputs, hashes)
    &&& hashes.plan is Ok ==> {
        let plan = hashes.plan->Ok_0;
        &&& plan_in(&plan, inputs.touched_indices@.len(), inputs.live_sibling_digests@.len())
        &&& hashes.old_evaluation is Ok ==> hashes.old_evaluation->Ok_0.combines@.len()
            == plan.combines@.len()
        &&& hashes.new_evaluation is Ok ==> hashes.new_evaluation->Ok_0.combines@.len()
            == plan.combines@.len()
    }
}

/// Why a frontier is not prepared, if it is not.
pub open spec fn preparation_error(
    inputs: &ExactStateStructuralFrontierInputs,
    hashes: &FrontierHashes,
    capacity: usize,
) -> Option<ExactStateStructuralPreparationError> {
    match frontier_error(inputs, hashes) {
        Some(e) => Some(ExactStateStructuralPreparationError::Frontier(e)),
        None => if hashes.plan->Ok_0.combines@.len() > capacity {
            Some(
                ExactStateStructuralPreparationError::CombineCapacityExceeded {
                    required: hashes.plan->Ok_0.combines@.len() as usize,
                    capacity,
                },
            )
        } else {
            None
        },
    }
}

/// The hash of two zero digests.
pub open spec fn empty_parent(hashing: &StateHashing) -> Seq<F128> {
    crate::poseidon::compressed(hashing.tables@, hashing.node_iv@, zeros(2), zeros(2))
}

/// The values of all wires of a preparation, in order.
pub open spec fn prepared_values(
    hashing: &StateHashing,
    inputs: &ExactStateStructuralFrontierInputs,
    hashes: &FrontierHashes,
    capacity: nat,
) -> Seq<F128> {
    let plan = &hashes.plan->Ok_0;
    let siblings = inputs.live_sibling_digests@;
    touched_values(inputs, inputs.touched_indices@.len()) + sibling_values(siblings, capacity)
        + half_values(
        plan,
        leaf_digests(inputs.old_slot_leaves@),
        siblings,
        hashes.old_evaluation->Ok_0.combines@,
        empty_parent(hashing),
        capacity,
    ) + half_values(
        plan,
        leaf_digests(inputs.new_slot_leaves@),
        siblings,
        hashes.new_evaluation->Ok_0.combines@,
        empty_parent(hashing),
        capacity,
    ) + inputs.old_root@ + inputs.new_root@
}

/// Where the wires of a preparation are.
pub open spec fn prepared_wires(
    p: &ExactStateStructuralRegionPreparation,
    start: int,
    touched: nat,
    capacity: nat,
    live: nat,
) -> bool {
    let siblings_at = start + 11 * touched;
    let old_at = siblings_at + 2 * capacity;
    let new_at = old_at + 6 * capacity;
    let roots_at = new_at + 6 * capacity;
    &&& p.touched_leaves@.len() == touched
    &&& forall|i: int|
        0 <= i < touched ==> (#[trigger] p.touched_leaves@[i]).lanes() == wires_from(
            start + 11 * i,
            11,
        )
    &&& p.shared_sibling_frontier@.len() == capacity
    &&& forall|i: int|
        0 <= i < capacity ==> digest_wired(#[trigger] p.shared_sibling_frontier@[i], siblings_at + 2 * i)
    &&& p.old_combines@.len() == capacity
    &&& half_wired(p.old_combines@, old_at, live)
    &&& p.new_combines@.len() == capacity
    &&& half_wired(p.new_combines@, new_at, live)
    &&& digest_wired(p.roots.old_root, roots_at)
    &&& digest_wired(p.roots.new_root, roots_at + 2)
}

pub open spec fn digest_wired(d: [LinExpr; 2], start: int) -> bool {
    d@[0]@ == Lin::wire(start as usize) && d@[1]@ == Lin::wire((start + 1) as usize)
}

proof fn lemma_touched_len(inputs: &ExactStateStructuralFrontierInputs, n: nat)
    ensures
        touched_values(inputs, n).len() == 11 * n,
    decreases n,
{
    if n > 0 {
        lemma_touched_len(inputs, (n - 1) as nat);
    }
}

proof fn lemma_siblings_len(siblings: Seq<[F128; 2]>, n: nat)
    ensures
        sibling_values(siblings, n).len() == 2 * n,
    decreases n,
{
    if n > 0 {
        lemma_siblings_len(siblings, (n - 1) as nat);
        if n - 1 < siblings.len() {
            assert(siblings[n - 1]@.len() == 2);
        }
    }
}

proof fn lemma_half_len(
    plan: &StructuralFrontierPlan,
    leaves: Seq<[F128; 2]>,
    siblings: Seq<[F128; 2]>,
    combines: Seq<[F128; 2]>,
    ghost_parent: Seq<F128>,
    n: nat,
)
    requires
        ghost_parent.len() == 2,
    ensures
        half_values(plan, leaves, siblings, combines, ghost_parent, n).len() == 6 * n,
    decreases n,
{
    if n > 0 {
        lemma_half_len(plan, leaves, siblings, combines, ghost_parent, (n - 1) as nat);
        if n - 1 < plan.combines@.len() {
            let c = plan.combines@[n - 1];
            assert(node_value(c.left, leaves, siblings, combines).len() == 2);
            assert(node_value(c.right, leaves, siblings, combines).len() == 2);
            assert(combines[n - 1]@.len() == 2);
        }
    }
}

/// The number of wires of a preparation depends on the touched slots and the
/// width alone, not on what the tree looks like.
pub proof fn lemma_prepared_len(
    hashing: &StateHashing,
    inputs: &ExactStateStructuralFrontierInputs,
    hashes: &FrontierHashes,
    capacity: nat,
)
    ensures
        prepared_values(hashing, inputs, hashes, capacity).len() == 11
            * inputs.touched_indices@.len() + 14 * capacity + 4,
{
    let plan = &hashes.plan->Ok_0;
    let siblings = inputs.live_sibling_digests@;
    lemma_touched_len(inputs, inputs.touched_indices@.len());
    lemma_siblings_len(siblings, capacity);
    lemma_half_len(
        plan,
        leaf_digests(inputs.old_slot_leaves@),
        siblings,
        hashes.old_evaluation->Ok_0.combines@,
        empty_parent(hashing),
        capacity,
    );
    lemma_half_len(
        plan,
        leaf_digests(inputs.new_slot_leaves@),
        siblings,
        hashes.new_evaluation->Ok_0.combines@,
        empty_parent(hashing),
        capacity,
    );
}

/// Wires of the touched leaves.
fn allocate_touched(b: &mut FieldR1csBuilder, inputs: &ExactStateStructuralFrontierInputs) -> (r:
    Vec<StructuralTouchedLeafPreparation>)
    requires
        old(b)@.wf(),
        inputs.old_slot_leaves@.len() == inputs.touched_indices@.len(),
        inputs.new_slot_leaves@.len() == inputs.touched_indices@.len(),
    ensures
        allocated(
            old(b)@,
            final(b)@,
            touched_values(inputs, inputs.touched_indices@.len()),
        ),
        r@.len() == inputs.touched_indices@.len(),
        forall|i: int|
            0 <= i < r@.len() ==> (#[trigger] r@[i]).lanes() == wires_from(
                old(b)@.rows.len() + 11 * i,
                11,
            ),
{
    let ghost b0 = b@;
    let mut r: Vec<StructuralTouchedLeafPreparation> = Vec::new();
    proof {
        lemma_allocated_none(b0);
    }
    let mut i: usize = 0;
    while i < inputs.touched_indices.len()
        invariant
            i <= inputs.touched_indices@.len(),
            inputs.old_slot_leaves@.len() == inputs.touched_indices@.len(),
            inputs.new_slot_leaves@.len() == inputs.touched_indices@.len(),
            b@.wf(),
            r@.len() == i,
            allocated(b0, b@, touched_values(inputs, i as nat)),
            forall|j: int|
                0 <= j < i ==> (#[trigger] r@[j]).lanes() == wires_from(
                    b0.rows.len() + 11 * j,
                    11,
                ),
        decreases inputs.touched_indices@.len() - i,
    {
        let ghost b1 = b@;
        let value = F128::from_u128(inputs.touched_indices[i] as u128);
        let slot_index = alloc_value(b, value);
        let ghost b2 = b@;
        let old_leaf = alloc_leaf(b, &inputs.old_slot_leaves[i]);
        let ghost b3 = b@;
        let new_leaf = alloc_leaf(b, &inputs.new_slot_leaves[i]);
        let ghost before = r@;
        r.push(StructuralTouchedLeafPreparation { slot_index, old: old_leaf, new: new_leaf });
        proof {
            let x = seq![F128::of_nat(inputs.touched_indices@[i as int] as nat)];
            let y = inputs.old_slot_leaves@[i as int].lanes();
            let z = inputs.new_slot_leaves@[i as int].lanes();
            assert(value == x[0]);
            lemma_allocated(b1, b2, b3, x, y);
            lemma_allocated(b1, b3, b@, x + y, z);
            lemma_allocated(b0, b1, b@, touched_values(inputs, i as nat), x + y + z);
            lemma_touched_len(inputs, i as nat);
            assert(touched_values(inputs, (i + 1) as nat) == touched_values(inputs, i as nat) + (x
                + y + z));
            assert(r@[i as int].lanes() =~= wires_from(b0.rows.len() + 11 * i, 11));
            assert forall|j: int| 0 <= j <= i implies (#[trigger] r@[j]).lanes() == wires_from(
                b0.rows.len() + 11 * j,
                11,
            ) by {
                if j < i {
                    assert(r@[j] == before[j]);
                }
            }
        }
        i += 1;
    }
    r
}

/// Wires of the shared siblings over their full width.
fn allocate_siblings(b: &mut FieldR1csBuilder, siblings: &Vec<[F128; 2]>, capacity: usize) -> (r:
    Vec<[LinExpr; 2]>)
    requires
        old(b)@.wf(),
    ensures
        allocated(old(b)@, final(b)@, sibling_values(siblings@, capacity as nat)),
        r@.len() == capacity,
        forall|i: int|
            0 <= i < capacity ==> digest_wired(#[trigger] r@[i], old(b)@.rows.len() + 2 * i),
{
    let ghost b0 = b@;
    let pad = [F128::zero(), F128::zero()];
    assert(pad@ =~= zeros(2));
    let mut r: Vec<[LinExpr; 2]> = Vec::new();
    proof {
        lemma_allocated_none(b0);
    }
    while r.len() < capacity
        invariant
            r@.len() <= capacity,
            b@.wf(),
            pad@ == zeros(2),
            allocated(b0, b@, sibling_values(siblings@, r@.len())),
            forall|j: int| 0 <= j < r@.len() ==> digest_wired(#[trigger] r@[j], b0.rows.len() + 2 * j),
        decreases capacity - r@.len(),
    {
        let i: usize = r.len();
        let digest = if i < siblings.len() {
            siblings[i]
        } else {
            pad
        };
        let ghost b1 = b@;
        let wires = alloc_state_hash(b, &digest);
        let ghost before = r@;
        r.push(wires);
        proof {
            lemma_siblings_len(siblings@, i as nat);
            lemma_allocated(b0, b1, b@, sibling_values(siblings@, i as nat), digest@);
            assert forall|j: int| 0 <= j <= i implies digest_wired(
                #[trigger] r@[j],
                b0.rows.len() + 2 * j,
            ) by {
                if j < i {
                    assert(r@[j] == before[j]);
                }
            }
        }
    }
    r
}

/// Wires of a frontier that its hashes confirm, over a fixed width. Combined
/// nodes keep the order of the plan.
pub fn prepare_exact_state_structural_region(
    b: &mut FieldR1csBuilder,
    hashing: &StateHashing,
    inputs: &ExactStateStructuralFrontierInputs,
    hashes: FrontierHashes,
    combine_capacity_per_root: usize,
) -> (r: Result<ExactStateStructuralRegionPreparation, ExactStateStructuralPreparationError>)
    requires
        old(b)@.wf(),
        hashes_fit(inputs, &hashes),
    ensures
        match r {
            Ok(p) => {
                &&& preparation_error(inputs, &hashes, combine_capacity_per_root) is None
                &&& allocated(
                    old(b)@,
                    final(b)@,
                    prepared_values(hashing, inputs, &hashes, combine_capacity_per_root as nat),
                )
                &&& prepared_wires(
                    &p,
                    old(b)@.rows.len() as int,
                    inputs.touched_indices@.len(),
                    combine_capacity_per_root as nat,
                    hashes.plan->Ok_0.combines@.len(),
                )
                &&& p.plan == hashes.plan->Ok_0
                &&& p.live_sibling_count == inputs.live_sibling_digests@.len()
                &&& p.live_combine_count == p.plan.combines@.len()
                &&& p.combine_capacity_per_root == combine_capacity_per_root
                &&& p.roots.active_depth == inputs.active_depth
            },
            Err(e) => preparation_error(inputs, &hashes, combine_capacity_per_root) == Some(e)
                && final(b)@ == old(b)@,
        },
{
    let ghost given = hashes;
    let verified = match verify_exact_state_structural_frontier(inputs, hashes) {
        Ok(v) => v,
        Err(e) => {
            return Err(ExactStateStructuralPreparationError::Frontier(e));
        },
    };
    let capacity: usize = combine_capacity_per_root;
    let live_combine_count: usize = verified.plan.combines.len();
    if live_combine_count > capacity {
        return Err(
            ExactStateStructuralPreparationError::CombineCapacityExceeded {
                required: live_combine_count,
                capacity,
            },
        );
    }
    let zero = [F128::zero(), F128::zero()];
    let ghost_parent = hashing.tables.compress(&hashing.node_iv, &zero, &zero);
    assert(zero@ =~= zeros(2));
    let old_digests = claimed_digests(&inputs.old_slot_leaves);
    let new_digests = claimed_digests(&inputs.new_slot_leaves);
    let old_live = structural_combine_values(
        &verified.plan,
        &old_digests,
        &inputs.live_sibling_digests,
        &verified.old_evaluation,
    );
    let new_live = structural_combine_values(
        &verified.plan,
        &new_digests,
        &inputs.live_sibling_digests,
        &verified.new_evaluation,
    );
    let ghost plan = verified.plan;
    let ghost siblings = inputs.live_sibling_digests@;
    let ghost gp = ghost_parent@;
    let ghost (oc, nc) = (
        verified.old_evaluation.combines@,
        verified.new_evaluation.combines@,
    );
    let ghost old_value = |i: int| half_value(&plan, old_digests@, siblings, oc, gp, i);
    let ghost old_values = |n: nat| half_values(&plan, old_digests@, siblings, oc, gp, n);
    let ghost new_value = |i: int| half_value(&plan, new_digests@, siblings, nc, gp, i);
    let ghost new_values = |n: nat| half_values(&plan, new_digests@, siblings, nc, gp, n);
    proof {
        assert forall|n: nat| n <= capacity implies (#[trigger] old_values(n)).len() == 6 * n by {
            lemma_half_len(&plan, old_digests@, siblings, oc, gp, n);
        }
        assert forall|n: nat| n <= capacity implies (#[trigger] new_values(n)).len() == 6 * n by {
            lemma_half_len(&plan, new_digests@, siblings, nc, gp, n);
        }
    }
    let ghost b0 = b@;
    let touched_leaves = allocate_touched(b, inputs);
    let ghost b1 = b@;
    let shared_sibling_frontier = allocate_siblings(b, &inputs.live_sibling_digests, capacity);
    let ghost b2 = b@;
    let old_combines = allocate_structural_combine_half(
        b,
        &old_live,
        &ghost_parent,
        capacity,
        Ghost(old_values),
        Ghost(old_value),
    );
    let ghost b3 = b@;
    let new_combines = allocate_structural_combine_half(
        b,
        &new_live,
        &ghost_parent,
        capacity,
        Ghost(new_values),
        Ghost(new_value),
    );
    let ghost b4 = b@;
    let old_root = alloc_state_hash(b, &inputs.old_root);
    let ghost b5 = b@;
    let new_root = alloc_state_hash(b, &inputs.new_root);
    proof {
        let v1 = touched_values(inputs, inputs.touched_indices@.len());
        let v2 = sibling_values(siblings, capacity as nat);
        let v3 = old_values(capacity as nat);
        let v4 = new_values(capacity as nat);
        lemma_touched_len(inputs, inputs.touched_indices@.len());
        lemma_siblings_len(siblings, capacity as nat);
        lemma_allocated(b0, b1, b2, v1, v2);
        lemma_allocated(b0, b2, b3, v1 + v2, v3);
        lemma_allocated(b0, b3, b4, v1 + v2 + v3, v4);
        lemma_allocated(b0, b4, b5, v1 + v2 + v3 + v4, inputs.old_root@);
        lemma_allocated(b0, b5, b@, v1 + v2 + v3 + v4 + inputs.old_root@, inputs.new_root@);
    }
    Ok(
        ExactStateStructuralRegionPreparation {
            plan: verified.plan,
            touched_leaves,
            shared_sibling_frontier,
            live_sibling_count: inputs.live_sibling_digests.len(),
            old_combines,
            new_combines,
            live_combine_count,
            combine_capacity_per_root,
            roots: ExactStateRootWires {
                old_root,
                new_root,
                active_depth: inputs.active_depth as usize,
            },
        },
    )
}

// ---------------------------------------------------------------------------
// Slots of a block
// ---------------------------------------------------------------------------

/// The wires of a block's leaves and roots.
pub struct ExactStateSlotWires {
    /// Old leaves, then new leaves, each over the full width.
    pub slot_leaves: Vec<SlotLeafInputsTrace>,
    pub roots: ExactStateRootWires,
}

/// A leaf with its wires and its values.
pub struct ExactStateLeafRegion {
    pub packed_value_w: LinExpr,
    pub owner_hi_w: LinExpr,
    pub owner_lo_w: LinExpr,
    pub expected_leaf_w: [LinExpr; 2],
    pub packed_value_flat: F128,
    pub owner_hi_flat: F128,
    pub owner_lo_flat: F128,
    pub expected_leaf_flat: [F128; 2],
}

impl ExactStateLeafRegion {
    pub open spec fn lanes(&self) -> Seq<Lin> {
        seq![
            self.packed_value_w@,
            self.owner_hi_w@,
            self.owner_lo_w@,
            self.expected_leaf_w@[0]@,
            self.expected_leaf_w@[1]@,
        ]
    }

    pub open spec fn values(&self) -> Seq<F128> {
        seq![
            self.packed_value_flat,
            self.owner_hi_flat,
            self.owner_lo_flat,
            self.expected_leaf_flat@[0],
            self.expected_leaf_flat@[1],
        ]
    }
}

/// The leaves, paired updates and roots of a block.
pub struct ExactStateRegionData {
    pub leaves: Vec<ExactStateLeafRegion>,
    pub paired: ExactStatePairedRegionData,
    pub old_root_w: [LinExpr; 2],
    pub old_root_flat: [F128; 2],
    pub new_root_w: [LinExpr; 2],
    pub new_root_flat: [F128; 2],
}

/// Leaf `i` of a full width: the given one, or the empty leaf.
pub open spec fn padded_leaf(
    leaves: Seq<SlotLeafInputs>,
    empty: SlotLeafInputs,
    i: int,
) -> SlotLeafInputs {
    if i < leaves.len() {
        leaves[i]
    } else {
        empty
    }
}

/// Old leaves, then new leaves, each over the full width.
pub open spec fn slot_leaf(
    inputs: &ExactStateStructuralFrontierInputs,
    empty: SlotLeafInputs,
    capacity: int,
    i: int,
) -> SlotLeafInputs {
    if i < capacity {
        padded_leaf(inputs.old_slot_leaves@, empty, i)
    } else {
        padded_leaf(inputs.new_slot_leaves@, empty, i - capacity)
    }
}

/// The values of the first `n` leaves.
pub open spec fn leaf_values(
    inputs: &ExactStateStructuralFrontierInputs,
    empty: SlotLeafInputs,
    capacity: int,
    n: nat,
) -> Seq<F128>
    decreases n,
{
    if n == 0 {
        Seq::empty()
    } else {
        leaf_values(inputs, empty, capacity, (n - 1) as nat) + slot_leaf(
            inputs,
            empty,
            capacity,
            n - 1,
        ).lanes()
    }
}

/// A block's leaves have as many wires as the width says.
pub proof fn lemma_leaf_values_len(
    inputs: &ExactStateStructuralFrontierInputs,
    empty: SlotLeafInputs,
    capacity: int,
    n: nat,
)
    ensures
        leaf_values(inputs, empty, capacity, n).len() == 5 * n,
    decreases n,
{
    if n > 0 {
        lemma_leaf_values_len(inputs, empty, capacity, (n - 1) as nat);
    }
}

fn dup_pair(p: &[LinExpr; 2]) -> (r: [LinExpr; 2])
    ensures
        r@[0]@ == p@[0]@,
        r@[1]@ == p@[1]@,
{
    [p[0].dup(), p[1].dup()]
}

/// A leaf with its wires.
fn leaf_region(native: &SlotLeafInputs, wires: &SlotLeafInputsTrace) -> (r: ExactStateLeafRegion)
    ensures
        r.lanes() == wires.lanes(),
        r.values() == native.lanes(),
{
    ExactStateLeafRegion {
        packed_value_w: wires.packed_value.dup(),
        owner_hi_w: wires.owner_hi.dup(),
        owner_lo_w: wires.owner_lo.dup(),
        expected_leaf_w: dup_pair(&wires.expected_leaf),
        packed_value_flat: native.packed_value,
        owner_hi_flat: native.owner_hi,
        owner_lo_flat: native.owner_lo,
        expected_leaf_flat: native.expected_leaf,
    }
}

/// The wires of a block's leaves and roots, with its paired updates. No path is
/// allocated: the updates come from the checked frontier. `empty` is the leaf
/// of an empty slot.
pub fn build_exact_state_structural_region_slot(
    b: &mut FieldR1csBuilder,
    inputs: &ExactStateStructuralFrontierInputs,
    hashes: FrontierHashes,
    segmented: Result<SegmentedSequentialMerkleUpdates, SparseMerkleError>,
    zero_roots: &Vec<[F128; 2]>,
    empty: &SlotLeafInputs,
    touched_capacity: usize,
    segment_capacity: usize,
) -> (r: Result<(ExactStateSlotWires, ExactStateRegionData), ExactStatePairedRegionError>)
    requires
        old(b)@.wf(),
        zero_roots@.len() >= 32,
        leaves_hashed(inputs, &hashes),
    ensures
        match r {
            Ok((wires, region)) => {
                let start = old(b)@.rows.len() as int;
                let leaves = 2 * touched_capacity;
                &&& region_error(inputs, &hashes, &segmented, touched_capacity, segment_capacity)
                    is None
                &&& allocated(
                    old(b)@,
                    final(b)@,
                    leaf_values(inputs, *empty, touched_capacity as int, leaves as nat)
                        + inputs.old_root@ + inputs.new_root@,
                )
                &&& wires.slot_leaves@.len() == leaves
                &&& region.leaves@.len() == leaves
                &&& forall|i: int|
                    0 <= i < leaves ==> (#[trigger] wires.slot_leaves@[i]).lanes() == wires_from(
                        start + 5 * i,
                        5,
                    )
                &&& forall|i: int|
                    0 <= i < leaves ==> (#[trigger] region.leaves@[i]).lanes() == wires_from(
                        start + 5 * i,
                        5,
                    ) && region.leaves@[i].values() == slot_leaf(
                        inputs,
                        *empty,
                        touched_capacity as int,
                        i,
                    ).lanes()
                &&& digest_wired(wires.roots.old_root, start + 5 * leaves)
                &&& digest_wired(wires.roots.new_root, start + 5 * leaves + 2)
                &&& digest_wired(region.old_root_w, start + 5 * leaves)
                &&& digest_wired(region.new_root_w, start + 5 * leaves + 2)
                &&& region.old_root_flat@ == inputs.old_root@
                &&& region.new_root_flat@ == inputs.new_root@
                &&& wires.roots.active_depth == inputs.active_depth
                &&& region.paired.wf()
                &&& region.paired.touched_capacity == touched_capacity
                &&& region.paired.segment_capacity == segment_capacity
                &&& region.paired.active_upper_depth == segmented->Ok_0.upper_depth
                &&& region.paired.local_updates@.len() == segmented->Ok_0.local_updates@.len()
                &&& region.paired.upper_updates@.len() == segmented->Ok_0.segment_updates@.len()
                &&& forall|i: int|
                    0 <= i < region.paired.local_updates@.len() ==> (
                    #[trigger] region.paired.local_updates@[i])@ == path_update(
                        segmented->Ok_0.local_updates@[i],
                        16,
                        zero_roots@,
                    )
                &&& forall|i: int|
                    0 <= i < region.paired.upper_updates@.len() ==> (
                    #[trigger] region.paired.upper_updates@[i])@ == path_update(
                        segmented->Ok_0.segment_updates@[i],
                        segmented->Ok_0.upper_depth as int,
                        zero_roots@,
                    )
            },
            Err(e) => region_error(
                inputs,
                &hashes,
                &segmented,
                touched_capacity,
                segment_capacity,
            ) == Some(e) && final(b)@ == old(b)@,
        },
{
    let paired = match ExactStatePairedRegionData::new(
        inputs,
        hashes,
        segmented,
        zero_roots,
        touched_capacity,
        segment_capacity,
    ) {
        Ok(p) => p,
        Err(e) => {
            return Err(e);
        },
    };
    let ghost b0 = b@;
    let ghost start = b0.rows.len() as int;
    let ghost capacity = touched_capacity as int;
    proof {
        lemma_allocated_none(b0);
    }
    assert(touched_capacity * 64 <= usize::MAX);
    let total: usize = touched_capacity * 2;
    let mut slot_leaves: Vec<SlotLeafInputsTrace> = Vec::new();
    let mut leaves: Vec<ExactStateLeafRegion> = Vec::new();
    let mut i: usize = 0;
    while i < total
        invariant
            i <= total,
            total == touched_capacity * 2,
            capacity == touched_capacity,
            start == b0.rows.len(),
            b@.wf(),
            slot_leaves@.len() == i,
            leaves@.len() == i,
            allocated(b0, b@, leaf_values(inputs, *empty, capacity, i as nat)),
            forall|j: int|
                0 <= j < i ==> (#[trigger] slot_leaves@[j]).lanes() == wires_from(start + 5 * j, 5),
            forall|j: int|
                0 <= j < i ==> (#[trigger] leaves@[j]).lanes() == wires_from(start + 5 * j, 5)
                    && leaves@[j].values() == slot_leaf(inputs, *empty, capacity, j).lanes(),
        decreases total - i,
    {
        let native = if i < touched_capacity {
            if i < inputs.old_slot_leaves.len() {
                inputs.old_slot_leaves[i]
            } else {
                *empty
            }
        } else if i - touched_capacity < inputs.new_slot_leaves.len() {
            inputs.new_slot_leaves[i - touched_capacity]
        } else {
            *empty
        };
        assert(native == slot_leaf(inputs, *empty, capacity, i as int));
        let ghost b1 = b@;
        let wires = alloc_leaf(b, &native);
        proof {
            lemma_allocated(
                b0,
                b1,
                b@,
                leaf_values(inputs, *empty, capacity, i as nat),
                native.lanes(),
            );
            lemma_leaf_values_len(inputs, *empty, capacity, i as nat);
        }
        leaves.push(leaf_region(&native, &wires));
        slot_leaves.push(wires);
        i += 1;
    }
    let ghost b1 = b@;
    let old_root = alloc_state_hash(b, &inputs.old_root);
    let ghost b2 = b@;
    let new_root = alloc_state_hash(b, &inputs.new_root);
    proof {
        let v = leaf_values(inputs, *empty, capacity, total as nat);
        lemma_leaf_values_len(inputs, *empty, capacity, total as nat);
        lemma_allocated(b0, b1, b2, v, inputs.old_root@);
        lemma_allocated(b0, b2, b@, v + inputs.old_root@, inputs.new_root@);
    }
    let region = ExactStateRegionData {
        leaves,
        paired,
        old_root_w: dup_pair(&old_root),
        old_root_flat: inputs.old_root,
        new_root_w: dup_pair(&new_root),
        new_root_flat: inputs.new_root,
    };
    let roots = ExactStateRootWires {
        old_root,
        new_root,
        active_depth: inputs.active_depth as usize,
    };
    Ok((ExactStateSlotWires { slot_leaves, roots }, region))
}

} // verus!
