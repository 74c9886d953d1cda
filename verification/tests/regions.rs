use std::collections::HashMap;

use noid_recursive::circuit::{FieldR1cs, FieldR1csBuilder, LinExpr};
use noid_recursive::exact_leaves::SlotLeafInputs;
use noid_recursive::field::F128;
use noid_recursive::paired_merkle_update::{
    build_paired_merkle_update_columns, PairedMerkleUpdateWitness,
};
use noid_recursive::paired_region::{
    ExactStatePairedRegionData, ExactStatePairedRegionError, SegmentedSequentialMerkleUpdates,
    SequentialMerkleUpdatePath,
};
use noid_recursive::poseidon::PoseidonTables;
use noid_recursive::state_roots::StateHashing;
use noid_recursive::structural_frontier::{
    verify_exact_state_structural_frontier, ExactStateStructuralFrontierError,
    ExactStateStructuralFrontierInputs, FrontierHashes, SparseMerkleError, StructuralCombine,
    StructuralFrontierEvaluation, StructuralFrontierPlan, StructuralNodeRef,
};
use noid_recursive::structural_region::{
    build_exact_state_structural_region_slot, prepare_exact_state_structural_region,
    ExactStateStructuralPreparationError,
};

fn element(value: u128) -> F128 {
    F128::from_u128(value)
}

fn tables() -> PoseidonTables {
    let row = |a: u128, b: u128, c: u128, d: u128| [element(a), element(b), element(c), element(d)];
    PoseidonTables {
        rc: vec![row(1, 2, 3, 4), row(5, 6, 7, 8), row(9, 10, 11, 12)],
        mds_full: [row(5, 7, 1, 3), row(4, 6, 1, 1), row(1, 3, 5, 7), row(1, 1, 4, 6)],
        mds_partial: [row(9, 1, 1, 1), row(1, 8, 1, 1), row(1, 1, 7, 1), row(1, 1, 1, 6)],
        half_full: 1,
        partials: 1,
    }
}

fn hashing() -> StateHashing {
    let tables = tables();
    let node_iv = [element(41), element(42)];
    let mut zero_roots = vec![empty().expected_leaf];
    for level in 0..32 {
        let below = zero_roots[level];
        zero_roots.push(tables.compress(&node_iv, &below, &below));
    }
    StateHashing { tables, node_iv, zero_roots }
}

fn node(left: [F128; 2], right: [F128; 2]) -> [F128; 2] {
    tables().compress(&[element(41), element(42)], &left, &right)
}

/// The hash of a slot, over a capacity of its own.
fn slot_hash(value: F128, owner_hi: F128, owner_lo: F128) -> [F128; 2] {
    tables().compress(&[element(51), element(52)], &[value, owner_hi], &[owner_lo, element(1)])
}

fn leaf(seed: u128) -> SlotLeafInputs {
    let (value, hi, lo) =
        (element(seed), element(seed.wrapping_mul(17)), element(seed.wrapping_mul(29)));
    SlotLeafInputs {
        packed_value: value,
        owner_hi: hi,
        owner_lo: lo,
        expected_leaf: slot_hash(value, hi, lo),
    }
}

fn empty() -> SlotLeafInputs {
    let zero = F128::zero();
    SlotLeafInputs {
        packed_value: zero,
        owner_hi: zero,
        owner_lo: zero,
        expected_leaf: slot_hash(zero, zero, zero),
    }
}

/// The plan of touched indices at a depth: level by level, every node with its
/// sibling, which is a node of the plan or one of the frontier. Gives the nodes'
/// positions too.
fn plan(indices: &[u32], depth: u32) -> (StructuralFrontierPlan, Vec<(u32, u32)>) {
    let mut combines = Vec::new();
    let mut frontier = Vec::new();
    let mut nodes: Vec<(u32, StructuralNodeRef)> = indices
        .iter()
        .enumerate()
        .map(|(i, index)| (*index, StructuralNodeRef::TouchedLeaf(i)))
        .collect();
    for level in 0..depth {
        let mut next = Vec::new();
        let mut at = 0;
        while at < nodes.len() {
            let (index, node) = nodes[at];
            let paired = at + 1 < nodes.len() && nodes[at + 1].0 == index + 1 && index % 2 == 0;
            let (left, right) = if paired {
                (node, nodes[at + 1].1)
            } else {
                let sibling = StructuralNodeRef::FrontierSibling(frontier.len());
                frontier.push((level, index ^ 1));
                if index % 2 == 0 {
                    (node, sibling)
                } else {
                    (sibling, node)
                }
            };
            next.push((index / 2, StructuralNodeRef::Combine(combines.len())));
            combines.push(StructuralCombine { left, right });
            at += if paired { 2 } else { 1 };
        }
        nodes = next;
    }
    (StructuralFrontierPlan { combines }, frontier)
}

/// What a node of a plan holds.
fn held(
    node: StructuralNodeRef,
    leaves: &[[F128; 2]],
    siblings: &[[F128; 2]],
    combines: &[[F128; 2]],
) -> [F128; 2] {
    match node {
        StructuralNodeRef::TouchedLeaf(i) => leaves[i],
        StructuralNodeRef::FrontierSibling(i) => siblings[i],
        StructuralNodeRef::Combine(i) => combines[i],
    }
}

/// The code of a proof with too few or too many siblings.
const PROOF_LENGTH: SparseMerkleError = SparseMerkleError { code: 7 };

fn evaluate(
    indices: &[u32],
    depth: u32,
    leaves: &[[F128; 2]],
    siblings: &[[F128; 2]],
) -> Result<StructuralFrontierEvaluation, SparseMerkleError> {
    let (plan, frontier) = plan(indices, depth);
    if frontier.len() != siblings.len() {
        return Err(PROOF_LENGTH);
    }
    let mut combines: Vec<[F128; 2]> = Vec::new();
    for combine in &plan.combines {
        let left = held(combine.left, leaves, siblings, &combines);
        let right = held(combine.right, leaves, siblings, &combines);
        combines.push(node(left, right));
    }
    let root = *combines.last().unwrap();
    Ok(StructuralFrontierEvaluation { combines, root })
}

fn fixture(seed: u128, indices: Vec<u32>, depth: u32) -> ExactStateStructuralFrontierInputs {
    let old: Vec<SlotLeafInputs> = (0..indices.len()).map(|i| leaf(seed + i as u128)).collect();
    let new: Vec<SlotLeafInputs> =
        (0..indices.len()).map(|i| leaf(seed + 100 + i as u128)).collect();
    let siblings: Vec<[F128; 2]> = (0..plan(&indices, depth).1.len() as u128)
        .map(|i| {
            slot_hash(element(seed + 1_000 + i), element(seed + 2_000 + i), element(seed + 3_000 + i))
        })
        .collect();
    fixture_of(indices, depth, old, new, siblings)
}

fn fixture_of(
    indices: Vec<u32>,
    depth: u32,
    old: Vec<SlotLeafInputs>,
    new: Vec<SlotLeafInputs>,
    siblings: Vec<[F128; 2]>,
) -> ExactStateStructuralFrontierInputs {
    let digests = |leaves: &Vec<SlotLeafInputs>| -> Vec<[F128; 2]> {
        leaves.iter().map(|leaf| leaf.expected_leaf).collect()
    };
    let before = evaluate(&indices, depth, &digests(&old), &siblings).unwrap();
    let after = evaluate(&indices, depth, &digests(&new), &siblings).unwrap();
    ExactStateStructuralFrontierInputs {
        touched_indices: indices,
        active_depth: depth,
        old_slot_leaves: old,
        new_slot_leaves: new,
        live_sibling_digests: siblings,
        old_combine_digests: before.combines,
        new_combine_digests: after.combines,
        old_root: before.root,
        new_root: after.root,
    }
}

/// The plan and hashes of claimed inputs.
fn hashes_of(inputs: &ExactStateStructuralFrontierInputs) -> FrontierHashes {
    let hashed = |leaves: &Vec<SlotLeafInputs>| -> Vec<[F128; 2]> {
        leaves
            .iter()
            .map(|leaf| slot_hash(leaf.packed_value, leaf.owner_hi, leaf.owner_lo))
            .collect()
    };
    let (old, new) = (hashed(&inputs.old_slot_leaves), hashed(&inputs.new_slot_leaves));
    let of = |leaves: &[[F128; 2]]| {
        evaluate(&inputs.touched_indices, inputs.active_depth, leaves, &inputs.live_sibling_digests)
    };
    FrontierHashes {
        plan: Ok(plan(&inputs.touched_indices, inputs.active_depth).0),
        old_evaluation: of(&old),
        new_evaluation: of(&new),
        old_leaves: old,
        new_leaves: new,
    }
}

type Nodes = HashMap<(u32, u32), [F128; 2]>;

/// Updates one node of a tree between two levels, and gives its path.
fn update_path(
    nodes: &mut Nodes,
    from: u32,
    to: u32,
    index: u32,
    leaf: [F128; 2],
) -> SequentialMerkleUpdatePath {
    let root = (to, index >> (to - from));
    let old_leaf = nodes[&(from, index)];
    let root_before = nodes[&root];
    let mut siblings = Vec::new();
    let mut directions = Vec::new();
    nodes.insert((from, index), leaf);
    for level in from..to {
        let at = index >> (level - from);
        let sibling = nodes[&(level, at ^ 1)];
        let child = nodes[&(level, at)];
        let parent = if at % 2 == 1 { node(sibling, child) } else { node(child, sibling) };
        siblings.push(sibling);
        directions.push(at % 2 == 1);
        nodes.insert((level + 1, at / 2), parent);
    }
    let root_after = nodes[&root];
    SequentialMerkleUpdatePath { old_leaf, new_leaf: leaf, siblings, directions, root_before, root_after }
}

/// The updates of a frontier's leaves within segments of sixteen levels, then
/// those of the segments' roots.
fn segmented_of(inputs: &ExactStateStructuralFrontierInputs) -> SegmentedSequentialMerkleUpdates {
    let (indices, depth) = (&inputs.touched_indices, inputs.active_depth);
    let mut nodes: Nodes = HashMap::new();
    for (position, sibling) in plan(indices, depth).1.iter().zip(&inputs.live_sibling_digests) {
        nodes.insert(*position, *sibling);
    }
    for (index, leaf) in indices.iter().zip(&inputs.old_slot_leaves) {
        nodes.insert((0, *index), leaf.expected_leaf);
    }
    for level in 0..depth {
        let known: Vec<u32> =
            nodes.keys().filter(|at| at.0 == level && at.1 % 2 == 0).map(|at| at.1).collect();
        for at in known {
            if let Some(right) = nodes.get(&(level, at + 1)) {
                let parent = node(nodes[&(level, at)], *right);
                nodes.insert((level + 1, at / 2), parent);
            }
        }
    }
    let mut upper = nodes.clone();
    let local_updates = indices
        .iter()
        .zip(&inputs.new_slot_leaves)
        .map(|(index, leaf)| update_path(&mut nodes, 0, 16, *index, leaf.expected_leaf))
        .collect();
    let mut segments: Vec<u32> = indices.iter().map(|index| index >> 16).collect();
    segments.dedup();
    let segment_updates: Vec<SequentialMerkleUpdatePath> = segments
        .iter()
        .map(|segment| update_path(&mut upper, 16, depth, *segment, nodes[&(16, *segment)]))
        .collect();
    assert_eq!(segment_updates.last().unwrap().root_after, inputs.new_root);
    SegmentedSequentialMerkleUpdates {
        local_depth: 16,
        upper_depth: depth - 16,
        local_updates,
        segment_updates,
    }
}

fn paired(
    inputs: &ExactStateStructuralFrontierInputs,
    touched_capacity: usize,
    segment_capacity: usize,
) -> Result<ExactStatePairedRegionData, ExactStatePairedRegionError> {
    ExactStatePairedRegionData::new(
        inputs,
        hashes_of(inputs),
        Ok(segmented_of(inputs)),
        &hashing().zero_roots,
        touched_capacity,
        segment_capacity,
    )
}

/// The roots that every update's columns reach are those of its path.
fn assert_paired_endpoints(
    data: &ExactStatePairedRegionData,
    inputs: &ExactStateStructuralFrontierInputs,
) {
    let segmented = segmented_of(inputs);
    let packed = data.packed_updates(&empty().expected_leaf);
    let columns = build_paired_merkle_update_columns(
        &tables(),
        &packed.updates,
        [element(41), element(42)],
        packed.w_log,
    );
    for (index, update) in segmented.local_updates.iter().enumerate() {
        assert_eq!(
            columns.update_roots_at_depth(index, 16),
            (update.root_before, update.root_after)
        );
    }
    for (index, update) in segmented.segment_updates.iter().enumerate() {
        assert_eq!(
            columns.update_roots_at_depth(data.touched_capacity + index, data.active_upper_depth),
            (update.root_before, update.root_after)
        );
    }
}

fn local_ghost() -> PairedMerkleUpdateWitness {
    let mut ghost = PairedMerkleUpdateWitness::canonical_ghost();
    ghost.old_entry = empty().expected_leaf;
    ghost.new_entry = empty().expected_leaf;
    ghost
}

/// Leaves 1 and 2 of four, with the two siblings that they need.
fn frontier(sibling: [F128; 2]) -> (ExactStateStructuralFrontierInputs, FrontierHashes) {
    let other = [element(501), element(502)];
    let plan = StructuralFrontierPlan {
        combines: vec![
            StructuralCombine {
                left: StructuralNodeRef::FrontierSibling(0),
                right: StructuralNodeRef::TouchedLeaf(0),
            },
            StructuralCombine {
                left: StructuralNodeRef::TouchedLeaf(1),
                right: StructuralNodeRef::FrontierSibling(1),
            },
            StructuralCombine {
                left: StructuralNodeRef::Combine(0),
                right: StructuralNodeRef::Combine(1),
            },
        ],
    };
    let evaluate = |a: &SlotLeafInputs, b: &SlotLeafInputs| {
        let first = node(sibling, a.expected_leaf);
        let second = node(b.expected_leaf, other);
        let root = node(first, second);
        StructuralFrontierEvaluation { combines: vec![first, second, root], root }
    };
    let old = vec![leaf(3), leaf(4)];
    let new = vec![leaf(5), leaf(6)];
    let old_evaluation = evaluate(&old[0], &old[1]);
    let new_evaluation = evaluate(&new[0], &new[1]);
    let inputs = ExactStateStructuralFrontierInputs {
        touched_indices: vec![1, 2],
        active_depth: 2,
        live_sibling_digests: vec![sibling, other],
        old_combine_digests: old_evaluation.combines.clone(),
        new_combine_digests: new_evaluation.combines.clone(),
        old_root: old_evaluation.root,
        new_root: new_evaluation.root,
        old_slot_leaves: old,
        new_slot_leaves: new,
    };
    let hashes = FrontierHashes {
        plan: Ok(plan),
        old_leaves: vec![leaf(3).expected_leaf, leaf(4).expected_leaf],
        new_leaves: vec![leaf(5).expected_leaf, leaf(6).expected_leaf],
        old_evaluation: Ok(old_evaluation),
        new_evaluation: Ok(new_evaluation),
    };
    (inputs, hashes)
}

fn eval_pair(b: &FieldR1csBuilder, pair: &[LinExpr; 2]) -> [F128; 2] {
    [pair[0].eval(b.values()), pair[1].eval(b.values())]
}

#[test]
fn an_honest_frontier_is_accepted_and_each_fault_has_its_error() {
    let sibling = [element(401), element(402)];
    let (inputs, hashes) = frontier(sibling);
    let verified = verify_exact_state_structural_frontier(&inputs, hashes).unwrap();
    assert_eq!(verified.plan.combines.len(), 3);
    assert_eq!(verified.new_evaluation.root, inputs.new_root);

    let (mut inputs, mut hashes) = frontier(sibling);
    inputs.new_slot_leaves.pop();
    hashes.new_leaves.pop();
    assert_eq!(
        verify_exact_state_structural_frontier(&inputs, hashes).err(),
        Some(ExactStateStructuralFrontierError::SlotLeafCountMismatch {
            touched: 2,
            old: 2,
            new: 1
        })
    );
    let (mut inputs, hashes) = frontier(sibling);
    inputs.old_slot_leaves[1].expected_leaf[0] = element(1);
    assert_eq!(
        verify_exact_state_structural_frontier(&inputs, hashes).err(),
        Some(ExactStateStructuralFrontierError::OldSlotLeafMismatch { index: 1 })
    );
    let (mut inputs, hashes) = frontier(sibling);
    inputs.new_slot_leaves[0].expected_leaf[1] = element(1);
    assert_eq!(
        verify_exact_state_structural_frontier(&inputs, hashes).err(),
        Some(ExactStateStructuralFrontierError::NewSlotLeafMismatch { index: 0 })
    );
    let (mut inputs, hashes) = frontier(sibling);
    inputs.old_combine_digests.pop();
    assert_eq!(
        verify_exact_state_structural_frontier(&inputs, hashes).err(),
        Some(ExactStateStructuralFrontierError::CombineDigestCountMismatch {
            expected: 3,
            old: 2,
            new: 3
        })
    );
    let (mut inputs, hashes) = frontier(sibling);
    inputs.old_combine_digests[1][0] = element(1);
    assert_eq!(
        verify_exact_state_structural_frontier(&inputs, hashes).err(),
        Some(ExactStateStructuralFrontierError::OldCombineDigestMismatch { index: 1 })
    );
    let (mut inputs, hashes) = frontier(sibling);
    inputs.new_combine_digests[2][0] = element(1);
    assert_eq!(
        verify_exact_state_structural_frontier(&inputs, hashes).err(),
        Some(ExactStateStructuralFrontierError::NewCombineDigestMismatch { index: 2 })
    );
    let (mut inputs, hashes) = frontier(sibling);
    inputs.old_root[0] = element(1);
    assert_eq!(
        verify_exact_state_structural_frontier(&inputs, hashes).err(),
        Some(ExactStateStructuralFrontierError::OldRootMismatch)
    );
    let (mut inputs, hashes) = frontier(sibling);
    inputs.new_root[0] = element(1);
    assert_eq!(
        verify_exact_state_structural_frontier(&inputs, hashes).err(),
        Some(ExactStateStructuralFrontierError::NewRootMismatch)
    );
    let (inputs, mut hashes) = frontier(sibling);
    hashes.plan = Err(SparseMerkleError { code: 9 });
    assert_eq!(
        verify_exact_state_structural_frontier(&inputs, hashes).err(),
        Some(ExactStateStructuralFrontierError::SparseMerkle(SparseMerkleError { code: 9 }))
    );
}

#[test]
fn paired_b255_capacities_fit_one_depth17_walk() {
    const TOUCHED_CAPACITY: usize = 1_531;
    const SEGMENT_CAPACITY: usize = 256;
    let data = ExactStatePairedRegionData {
        local_updates: vec![PairedMerkleUpdateWitness::canonical_ghost(); TOUCHED_CAPACITY],
        upper_updates: vec![PairedMerkleUpdateWitness::canonical_ghost(); SEGMENT_CAPACITY],
        local_update_count: TOUCHED_CAPACITY,
        upper_update_count: SEGMENT_CAPACITY,
        touched_capacity: TOUCHED_CAPACITY,
        segment_capacity: SEGMENT_CAPACITY,
        active_upper_depth: 16,
    };
    let packed = data.packed_updates(&[F128::zero(), F128::zero()]);
    assert_eq!(packed.updates.len(), TOUCHED_CAPACITY + SEGMENT_CAPACITY);
    assert_eq!(packed.active_slots, (TOUCHED_CAPACITY + SEGMENT_CAPACITY) * 64);
    assert_eq!(packed.slots, 1 << 17);
    assert_eq!(packed.w_log, 17);
}

#[test]
fn structural_preparation_is_content_invariant_at_one_shape() {
    let mut shapes = Vec::new();
    for seed in [7u128, 70_000] {
        let inputs = fixture(seed, vec![1, 2, 11], 4);
        let live = plan(&inputs.touched_indices, 4).0.combines.len();
        let capacity = live + 3;
        let mut b = FieldR1csBuilder::new();
        let prepared = prepare_exact_state_structural_region(
            &mut b,
            &hashing(),
            &inputs,
            hashes_of(&inputs),
            capacity,
        )
        .unwrap();
        assert_eq!(prepared.live_combine_count, live);
        assert_eq!(prepared.old_combines.len(), capacity);
        assert_eq!(prepared.new_combines.len(), capacity);
        assert_eq!(eval_pair(&b, &prepared.roots.old_root), inputs.old_root);
        assert_eq!(eval_pair(&b, &prepared.roots.new_root), inputs.new_root);
        let (r1cs, witness) = b.build();
        assert!(r1cs.satisfies(&witness));
        shapes.push(r1cs);
    }
    assert_eq!(shapes[0], shapes[1]);
}

#[test]
fn structural_preparation_shape_is_invariant_across_frontier_topology() {
    let clustered = fixture(81, vec![0, 1, 2], 4);
    let dispersed = fixture(91, vec![0, 5, 10], 4);
    let clustered_live = plan(&clustered.touched_indices, 4).0.combines.len();
    let dispersed_live = plan(&dispersed.touched_indices, 4).0.combines.len();
    assert_ne!(clustered_live, dispersed_live);
    let capacity = clustered_live.max(dispersed_live) + 2;
    let prepare = |inputs: &ExactStateStructuralFrontierInputs| {
        let mut b = FieldR1csBuilder::new();
        let prepared = prepare_exact_state_structural_region(
            &mut b,
            &hashing(),
            inputs,
            hashes_of(inputs),
            capacity,
        )
        .unwrap();
        let rows = b.num_wires();
        let (r1cs, witness) = b.build();
        assert!(r1cs.satisfies(&witness));
        (prepared, rows, r1cs)
    };
    let (clustered, clustered_rows, clustered_r1cs) = prepare(&clustered);
    let (dispersed, dispersed_rows, dispersed_r1cs) = prepare(&dispersed);
    assert_eq!(clustered_rows, dispersed_rows);
    assert_eq!(clustered_r1cs, dispersed_r1cs);
    assert_ne!(clustered.live_sibling_count, dispersed.live_sibling_count);
    assert_eq!(
        clustered.shared_sibling_frontier.len(),
        dispersed.shared_sibling_frontier.len()
    );
}

#[test]
fn structural_preparation_allocates_aligned_leaves_shared_frontier_and_ghost_pad() {
    let inputs = fixture(11, vec![1, 2, 11], 4);
    let (plan, _) = plan(&inputs.touched_indices, 4);
    let live = plan.combines.len();
    let capacity = live + 2;
    let mut b = FieldR1csBuilder::new();
    let prepared = prepare_exact_state_structural_region(
        &mut b,
        &hashing(),
        &inputs,
        hashes_of(&inputs),
        capacity,
    )
    .unwrap();
    assert_eq!(prepared.touched_leaves.len(), inputs.touched_indices.len());
    for (row, slot_index) in prepared.touched_leaves.iter().zip(&inputs.touched_indices) {
        assert_eq!(row.slot_index.eval(b.values()), element(*slot_index as u128));
    }
    assert_eq!(prepared.shared_sibling_frontier.len(), capacity);
    assert_eq!(prepared.live_sibling_count, inputs.live_sibling_digests.len());
    for (wires, digest) in prepared.shared_sibling_frontier.iter().zip(&inputs.live_sibling_digests)
    {
        assert_eq!(eval_pair(&b, wires), *digest);
    }
    for wires in &prepared.shared_sibling_frontier[prepared.live_sibling_count..] {
        assert_eq!(eval_pair(&b, wires), [F128::zero(); 2]);
    }

    let verified = verify_exact_state_structural_frontier(&inputs, hashes_of(&inputs)).unwrap();
    let leaves: Vec<[F128; 2]> =
        inputs.old_slot_leaves.iter().map(|leaf| leaf.expected_leaf).collect();
    let combines = &verified.old_evaluation.combines;
    for (i, combine) in verified.plan.combines.iter().enumerate() {
        let tuple = &prepared.old_combines[i];
        let siblings = &inputs.live_sibling_digests;
        assert_eq!(eval_pair(&b, &tuple.left), held(combine.left, &leaves, siblings, combines));
        assert_eq!(eval_pair(&b, &tuple.right), held(combine.right, &leaves, siblings, combines));
        assert_eq!(eval_pair(&b, &tuple.parent), combines[i]);
    }

    let pad = [F128::zero(); 2];
    let ghost_parent = node(pad, pad);
    for half in [&prepared.old_combines, &prepared.new_combines] {
        assert!(half[..live].iter().all(|tuple| tuple.is_live));
        for tuple in &half[live..] {
            assert!(!tuple.is_live);
            assert_eq!(eval_pair(&b, &tuple.left), pad);
            assert_eq!(eval_pair(&b, &tuple.right), pad);
            assert_eq!(eval_pair(&b, &tuple.parent), ghost_parent);
        }
    }
}

#[test]
fn structural_preparation_rejects_tamper_and_undersized_capacity_before_allocating() {
    let live = plan(&[1, 2, 11], 4).0.combines.len();
    let refused = |inputs: &ExactStateStructuralFrontierInputs, capacity: usize| {
        let mut b = FieldR1csBuilder::new();
        let before = b.num_wires();
        let error = prepare_exact_state_structural_region(
            &mut b,
            &hashing(),
            inputs,
            hashes_of(inputs),
            capacity,
        )
        .err();
        assert_eq!(b.num_wires(), before);
        error
    };

    let mut bad_root = fixture(19, vec![1, 2, 11], 4);
    bad_root.new_root[0] = bad_root.new_root[0].add(F128::one());
    assert_eq!(
        refused(&bad_root, live),
        Some(ExactStateStructuralPreparationError::Frontier(
            ExactStateStructuralFrontierError::NewRootMismatch
        ))
    );

    let mut short_frontier = fixture(19, vec![1, 2, 11], 4);
    short_frontier.live_sibling_digests.pop();
    assert_eq!(
        refused(&short_frontier, live),
        Some(ExactStateStructuralPreparationError::Frontier(
            ExactStateStructuralFrontierError::SparseMerkle(PROOF_LENGTH)
        ))
    );

    assert_eq!(
        refused(&fixture(19, vec![1, 2, 11], 4), live - 1),
        Some(ExactStateStructuralPreparationError::CombineCapacityExceeded {
            required: live,
            capacity: live - 1
        })
    );
}

#[test]
fn live_zero_sibling_is_not_confused_with_ghost_suffix() {
    let pad = [F128::zero(); 2];
    let inputs = fixture_of(vec![0], 1, vec![leaf(31)], vec![leaf(32)], vec![pad]);
    let mut b = FieldR1csBuilder::new();
    let prepared = prepare_exact_state_structural_region(
        &mut b,
        &hashing(),
        &inputs,
        hashes_of(&inputs),
        2,
    )
    .unwrap();
    assert_eq!(prepared.live_combine_count, 1);
    assert_eq!(prepared.live_sibling_count, 1);
    assert_eq!(prepared.shared_sibling_frontier.len(), 2);
    assert_eq!(eval_pair(&b, &prepared.shared_sibling_frontier[0]), pad);
    assert!(prepared.old_combines[0].is_live);
    assert!(!prepared.old_combines[1].is_live);
}

#[test]
fn paired_region_preserves_chains_counts_and_capacity_partition_padding() {
    let inputs = fixture(201, vec![1, 2, (1 << 16) + 3], 24);
    let segmented = segmented_of(&inputs);
    let data = paired(&inputs, 5, 4).unwrap();

    assert_eq!(data.local_update_count, 3);
    assert_eq!(data.upper_update_count, 2);
    assert_eq!(data.local_updates.len(), data.local_update_count);
    assert_eq!(data.upper_updates.len(), data.upper_update_count);
    assert_eq!(data.active_upper_depth, 8);
    assert_eq!(segmented.local_updates[0].root_after, segmented.local_updates[1].root_before);
    assert_eq!(segmented.segment_updates[0].root_after, segmented.segment_updates[1].root_before);

    let packed = data.packed_updates(&empty().expected_leaf);
    assert_eq!(packed.updates.len(), 9);
    assert_eq!(packed.active_slots, 9 * 64);
    assert_eq!(packed.slots, 1 << 10);
    assert_eq!(packed.w_log, 10);
    assert_eq!(&packed.updates[..3], data.local_updates.as_slice());
    assert!(packed.updates[3..5].iter().all(|update| *update == local_ghost()));
    assert_eq!(&packed.updates[5..7], data.upper_updates.as_slice());
    assert!(packed.updates[7..]
        .iter()
        .all(|update| *update == PairedMerkleUpdateWitness::canonical_ghost()));
    assert_paired_endpoints(&data, &inputs);
}

#[test]
fn paired_local_padding_uses_empty_leaf_digest_but_upper_padding_uses_zero_entry() {
    let inputs = fixture(251, vec![7], 24);
    let data = paired(&inputs, 2, 2).unwrap();
    let empty_leaf = empty().expected_leaf;
    let packed = data.packed_updates(&empty_leaf);
    let local = &packed.updates[1];
    let upper = &packed.updates[3];

    assert_eq!(local, &local_ghost());
    assert_eq!(local.old_entry, empty_leaf);
    assert_eq!(local.new_entry, empty_leaf);
    assert_ne!(empty_leaf, [F128::zero(); 2]);
    assert!(local.siblings.iter().all(|sibling| *sibling == [F128::zero(); 2]));
    assert!(local.directions.iter().all(|&direction| !direction));

    assert_eq!(upper, &PairedMerkleUpdateWitness::canonical_ghost());
    assert_eq!(upper.old_entry, [F128::zero(); 2]);
    assert_ne!(local, upper);
}

fn slot_case(
    inputs: &ExactStateStructuralFrontierInputs,
    touched_capacity: usize,
    segment_capacity: usize,
) -> (FieldR1cs, Vec<F128>, [F128; 2], [F128; 2]) {
    let mut b = FieldR1csBuilder::new();
    let (slot, region) = build_exact_state_structural_region_slot(
        &mut b,
        inputs,
        hashes_of(inputs),
        Ok(segmented_of(inputs)),
        &hashing().zero_roots,
        &empty(),
        touched_capacity,
        segment_capacity,
    )
    .unwrap();
    assert_eq!(region.paired.local_update_count, inputs.touched_indices.len());
    assert_eq!(slot.slot_leaves.len(), 2 * touched_capacity);
    assert_eq!(region.leaves.len(), 2 * touched_capacity);
    assert_eq!(eval_pair(&b, &slot.roots.old_root), inputs.old_root);
    assert_eq!(region.new_root_flat, inputs.new_root);
    let old_pad = eval_pair(&b, &slot.slot_leaves[touched_capacity - 1].expected_leaf);
    let new_pad = eval_pair(&b, &slot.slot_leaves[2 * touched_capacity - 1].expected_leaf);
    let (r1cs, witness) = b.build();
    (r1cs, witness, old_pad, new_pad)
}

#[test]
fn structural_region_slot_has_no_paths_and_empty_fixed_padding() {
    let inputs = fixture(281, vec![1, 2, (1 << 16) + 3], 24);
    let (r1cs, witness, old_pad, new_pad) = slot_case(&inputs, 5, 4);
    assert!(r1cs.satisfies(&witness));
    assert_eq!(old_pad, empty().expected_leaf);
    assert_eq!(new_pad, empty().expected_leaf);
}

#[test]
fn structural_region_slot_matrix_is_count_topology_and_depth_invariant() {
    let sparse = fixture(301, vec![7], 24);
    let dispersed = fixture(401, vec![1, (1 << 16) + 3, (3 << 16) + 5], 32);
    let (left, left_witness, _, _) = slot_case(&sparse, 5, 4);
    let (right, right_witness, _, _) = slot_case(&dispersed, 5, 4);
    assert!(left.satisfies(&left_witness));
    assert!(right.satisfies(&right_witness));
    assert_eq!(left.useful_rows, right.useful_rows);
    assert_eq!(left, right);
}

#[test]
fn paired_depth24_selects_upper_endpoint_at_depth8_and_pads_canonical_growth() {
    let inputs = fixture(301, vec![7, (3 << 16) + 9], 24);
    let data = paired(&inputs, 2, 2).unwrap();
    assert_eq!(data.active_upper_depth, 8);
    let zero_roots = hashing().zero_roots;
    for update in &data.upper_updates {
        for level in data.active_upper_depth..16 {
            assert_eq!(update.siblings[level], zero_roots[16 + level]);
            assert!(!update.directions[level]);
        }
    }
    assert_paired_endpoints(&data, &inputs);
}

#[test]
fn paired_depth32_selects_upper_endpoint_at_depth16_without_padding() {
    let inputs = fixture(401, vec![11, (7 << 16) + 13], 32);
    let data = paired(&inputs, 2, 2).unwrap();
    assert_eq!(data.active_upper_depth, 16);
    let segmented = segmented_of(&inputs);
    for (witness, update) in data.upper_updates.iter().zip(&segmented.segment_updates) {
        for level in 0..16 {
            assert_eq!(witness.siblings[level], update.siblings[level]);
            assert_eq!(witness.directions[level], update.directions[level]);
        }
    }
    assert_paired_endpoints(&data, &inputs);
}

#[test]
fn paired_region_rejects_undersized_fixed_capacities() {
    let inputs = fixture(501, vec![1, 2, (1 << 16) + 3], 24);
    assert_eq!(
        paired(&inputs, 2, 2).unwrap_err(),
        ExactStatePairedRegionError::TouchedCapacityExceeded { required: 3, capacity: 2 }
    );
    assert_eq!(
        paired(&inputs, 3, 1).unwrap_err(),
        ExactStatePairedRegionError::SegmentCapacityExceeded { required: 2, capacity: 1 }
    );
}

#[test]
fn paired_region_rejects_updates_of_another_depth() {
    let inputs = fixture(501, vec![1, 2, (1 << 16) + 3], 24);
    let mut segmented = segmented_of(&inputs);
    segmented.local_depth = 15;
    assert_eq!(
        ExactStatePairedRegionData::new(
            &inputs,
            hashes_of(&inputs),
            Ok(segmented),
            &hashing().zero_roots,
            4,
            2
        )
        .err(),
        Some(ExactStatePairedRegionError::LocalDepthMismatch { expected: 16, actual: 15 })
    );
}
