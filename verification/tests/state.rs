use noid_recursive::action_compaction::compact_action_rows;
use noid_recursive::action_surface::ActionRowTrace;
use noid_recursive::bits::range_check_bits;
use noid_recursive::circuit::{alloc_bit, alloc_block, FieldR1cs, FieldR1csBuilder, LinExpr};
use noid_recursive::exact_leaves::{
    bind_actions_to_exact_state_leaves, SlotLeafInputs, SlotLeafInputsTrace,
};
use noid_recursive::field::F128;
use noid_recursive::frontier_count::{
    bind_structural_frontier_count_from_actions,
    bind_structural_frontier_count_from_actions_dynamic, StateDepthTrace,
};
use noid_recursive::mint_allocation::bind_mint_packed_values_body_order;
use noid_recursive::poseidon::PoseidonTables;
use noid_recursive::state_roots::{
    bind_exact_state_header_roots, bind_exact_state_header_roots_dynamic,
    compress_with_tag_trace, select_upper_paired_roots, ExactStateRootWires, StateHashing,
};

const TEST_BLOCK_HEIGHT: u128 = 6;
const COINBASE_TEST_ID: u64 = (1u64 << 63) | 6;

fn element(value: u128) -> F128 {
    F128::from_u128(value)
}

fn pack_amount_creation_id(amount: u64, creation_id: u64) -> F128 {
    element(amount as u128 | ((creation_id as u128) << 64))
}

fn tables() -> PoseidonTables {
    let mut rc = Vec::new();
    for round in 0..6u128 {
        rc.push([
            element(1 + 7 * round),
            element(2 + 11 * round),
            element(3 + 13 * round),
            element(4 + 17 * round),
        ]);
    }
    let row = |a: u128, b: u128, c: u128, d: u128| [element(a), element(b), element(c), element(d)];
    PoseidonTables {
        rc,
        mds_full: [row(5, 7, 1, 3), row(4, 6, 1, 1), row(1, 3, 5, 7), row(1, 1, 4, 6)],
        mds_partial: [row(9, 1, 1, 1), row(1, 8, 1, 1), row(1, 1, 7, 1), row(1, 1, 1, 6)],
        half_full: 2,
        partials: 2,
    }
}

fn hashing() -> StateHashing {
    let tables = tables();
    let node_iv = [element(41), element(42)];
    let mut zero_roots = vec![[element(11), element(12)]];
    for level in 0..32 {
        let below = zero_roots[level];
        zero_roots.push(tables.compress(&node_iv, &below, &below));
    }
    StateHashing { tables, node_iv, zero_roots }
}

#[test]
fn tagged_compression_trace_matches_the_native_compression() {
    let t = tables();
    let iv = [element(41), element(42)];
    let (left, right) = ([element(3), element(5)], [element(8), element(13)]);
    let expected = t.compress(&iv, &left, &right);
    let mut b = FieldR1csBuilder::new();
    let left_w = left.map(|lane| alloc_block(&mut b, lane));
    let right_w = right.map(|lane| alloc_block(&mut b, lane));
    let actual = compress_with_tag_trace(&mut b, &t, &iv, &left_w, &right_w);
    assert_eq!(actual[0].eval(b.values()), expected[0]);
    assert_eq!(actual[1].eval(b.values()), expected[1]);
    assert_ne!(expected, left);
    let (r1cs, witness) = b.build();
    assert!(r1cs.satisfies(&witness));
}

fn leaf_input(value: F128, owner: [F128; 2]) -> SlotLeafInputs {
    SlotLeafInputs {
        packed_value: value,
        owner_hi: owner[0],
        owner_lo: owner[1],
        expected_leaf: [F128::zero(), F128::zero()],
    }
}

fn action_leaf_case(
    old_spend_value: F128,
    old_mint_value: F128,
    new_mint_value: F128,
    mint_body_value: F128,
    new_mint_owner: [F128; 2],
) -> (FieldR1cs, Vec<F128>) {
    let spend_owner = [element(21), element(22)];
    let mint_owner = [element(31), element(32)];
    let mut b = FieldR1csBuilder::new();
    let live_mint = alloc_bit(&mut b, true);
    let live_spend = alloc_bit(&mut b, true);
    let mut actions = vec![
        ActionRowTrace {
            live: live_mint.dup(),
            slot_index: alloc_block(&mut b, element(9)),
            value: alloc_block(&mut b, mint_body_value),
            owner: mint_owner.map(|lane| alloc_block(&mut b, lane)),
            is_mint: live_mint,
        },
        ActionRowTrace {
            live: live_spend,
            slot_index: alloc_block(&mut b, element(5)),
            value: alloc_block(&mut b, pack_amount_creation_id(11, 7)),
            owner: spend_owner.map(|lane| alloc_block(&mut b, lane)),
            is_mint: LinExpr::zero(),
        },
    ];
    let parent = alloc_block(&mut b, element(7));
    let child = alloc_block(&mut b, element(8));
    let height = alloc_block(&mut b, element(TEST_BLOCK_HEIGHT));
    let _ = range_check_bits(&mut b, &actions[0].value, 64);
    bind_mint_packed_values_body_order(&mut b, &mut actions, &parent, &child, &height);
    let compacted = compact_action_rows(&mut b, &actions, actions.len());
    let none = [F128::zero(), F128::zero()];
    let old_native =
        [leaf_input(old_spend_value, spend_owner), leaf_input(old_mint_value, none)];
    let new_native =
        [leaf_input(F128::zero(), none), leaf_input(new_mint_value, new_mint_owner)];
    let old: Vec<SlotLeafInputsTrace> =
        old_native.iter().map(|leaf| SlotLeafInputsTrace::allocate(&mut b, leaf)).collect();
    let new: Vec<SlotLeafInputsTrace> =
        new_native.iter().map(|leaf| SlotLeafInputsTrace::allocate(&mut b, leaf)).collect();
    bind_actions_to_exact_state_leaves(&mut b, &compacted.rows, &old, &new);
    b.build()
}

#[test]
fn spend_and_mint_leaf_semantics_follow_the_sorted_action_tuple() {
    let (r1cs, witness) = action_leaf_case(
        pack_amount_creation_id(11, 7),
        F128::zero(),
        pack_amount_creation_id(13, COINBASE_TEST_ID),
        element(13),
        [element(31), element(32)],
    );
    assert!(r1cs.satisfies(&witness));
}

#[test]
fn action_leaf_recombination_rejects_component_mixing() {
    let mint_owner = [element(31), element(32)];
    let spent = pack_amount_creation_id(11, 7);
    let minted = pack_amount_creation_id(13, COINBASE_TEST_ID);
    let cases = vec![
        action_leaf_case(
            pack_amount_creation_id(12, 7),
            F128::zero(),
            minted,
            element(13),
            mint_owner,
        ),
        action_leaf_case(spent, element(1), minted, element(13), mint_owner),
        action_leaf_case(
            spent,
            F128::zero(),
            pack_amount_creation_id(13, COINBASE_TEST_ID + 1),
            element(13),
            mint_owner,
        ),
        action_leaf_case(spent, F128::zero(), minted, element(1u128 << 64), mint_owner),
        action_leaf_case(
            spent,
            F128::zero(),
            minted,
            element(13),
            [element(99), mint_owner[1]],
        ),
    ];
    for (case, (r1cs, witness)) in cases.into_iter().enumerate() {
        assert!(!r1cs.satisfies(&witness), "mixed exact-state component case {case} must reject");
    }
}

/// Siblings that a frontier over sorted leaves needs.
fn sibling_count(indices: &[u32], depth: usize) -> usize {
    let mut nodes: Vec<u64> = indices.iter().map(|&i| i as u64).collect();
    let mut count = 0;
    for _ in 0..depth {
        count += nodes.iter().filter(|&&node| nodes.binary_search(&(node ^ 1)).is_err()).count();
        nodes = nodes.iter().map(|node| node >> 1).collect();
        nodes.dedup();
    }
    count
}

fn frontier_actions(
    b: &mut FieldR1csBuilder,
    indices: &[u32],
    capacity: usize,
) -> Vec<ActionRowTrace> {
    (0..capacity)
        .map(|row| ActionRowTrace {
            live: alloc_bit(b, row < indices.len()),
            slot_index: alloc_block(
                b,
                element(indices.get(row).copied().unwrap_or(0) as u128),
            ),
            value: LinExpr::zero(),
            owner: [LinExpr::zero(), LinExpr::zero()],
            is_mint: LinExpr::zero(),
        })
        .collect()
}

fn frontier_count_circuit(
    indices: &[u32],
    capacity: usize,
    depth: usize,
    claimed: usize,
) -> (FieldR1cs, Vec<F128>, usize, usize) {
    let mut b = FieldR1csBuilder::new();
    let actions = frontier_actions(&mut b, indices, capacity);
    let compacted = compact_action_rows(&mut b, &actions, capacity);
    let count = alloc_block(&mut b, element(claimed as u128));
    let binding_start = b.num_wires();
    bind_structural_frontier_count_from_actions(
        &mut b,
        &compacted.rows,
        &compacted.slot_bits,
        &compacted.adjacent_msb_one_hot,
        depth,
        &count,
    );
    let rows = b.num_wires();
    let (r1cs, witness) = b.build();
    (r1cs, witness, rows, rows - binding_start)
}

#[test]
fn frontier_count_is_derived_from_sorted_action_bits() {
    for indices in [
        vec![0],
        vec![0, 1],
        vec![0, 3, 7],
        vec![1, 2, 8, 14],
        vec![0, 2, 4, 6, 8, 10, 12, 14],
    ] {
        let expected = sibling_count(&indices, 4);
        let (r1cs, witness, _, _) = frontier_count_circuit(&indices, 8, 4, expected);
        assert!(r1cs.satisfies(&witness), "indices={indices:?}");
    }
}

#[test]
fn frontier_count_rejects_tampering_and_out_of_range_slots() {
    let indices = [0, 3, 7];
    let expected = sibling_count(&indices, 4);
    let (bad_count, bad_witness, _, _) = frontier_count_circuit(&indices, 8, 4, expected + 1);
    assert!(!bad_count.satisfies(&bad_witness));
    let (out_of_range, out_witness, _, _) = frontier_count_circuit(&[0, 16], 8, 4, 0);
    assert!(!out_of_range.satisfies(&out_witness));
}

#[test]
fn frontier_count_matrix_is_topology_and_occupancy_invariant() {
    let clustered = [0, 1, 2];
    let dispersed = [0, 5, 10, 15];
    let (left, left_witness, left_rows, left_binding) =
        frontier_count_circuit(&clustered, 8, 4, sibling_count(&clustered, 4));
    let (right, right_witness, right_rows, right_binding) =
        frontier_count_circuit(&dispersed, 8, 4, sibling_count(&dispersed, 4));
    assert!(left.satisfies(&left_witness));
    assert!(right.satisfies(&right_witness));
    assert_eq!(left_rows, right_rows);
    assert_eq!(left_binding, right_binding);
    assert_eq!(left.rows, right.rows);
}

fn dynamic_frontier_count_circuit(
    indices: &[u32],
    capacity: usize,
    depth: usize,
    claimed: usize,
) -> (FieldR1cs, Vec<F128>) {
    let mut b = FieldR1csBuilder::new();
    let actions = frontier_actions(&mut b, indices, capacity);
    let compacted = compact_action_rows(&mut b, &actions, capacity);
    let depth_value = alloc_block(&mut b, element(depth as u128));
    let depth = StateDepthTrace::bind(&mut b, &depth_value);
    let count = alloc_block(&mut b, element(claimed as u128));
    bind_structural_frontier_count_from_actions_dynamic(
        &mut b,
        &compacted.rows,
        &compacted.slot_bits,
        &compacted.adjacent_msb_one_hot,
        &depth,
        &count,
    );
    b.build()
}

#[test]
fn dynamic_frontier_count_has_one_matrix_for_depth24_and_depth32() {
    let indices = [1, 3, 7, 15];
    let (depth24, witness24) =
        dynamic_frontier_count_circuit(&indices, 8, 24, sibling_count(&indices, 24));
    let (depth32, witness32) =
        dynamic_frontier_count_circuit(&indices, 8, 32, sibling_count(&indices, 32));
    assert!(depth24.satisfies(&witness24));
    assert!(depth32.satisfies(&witness32));
    assert_eq!(depth24.useful_rows, depth32.useful_rows);
    assert_eq!(depth24.rows, depth32.rows);
}

#[test]
fn dynamic_frontier_count_rejects_a_slot_above_selected_depth() {
    let (r1cs, witness) = dynamic_frontier_count_circuit(&[0, 1 << 24], 4, 24, 0);
    assert!(!r1cs.satisfies(&witness));
}

#[test]
fn b255_frontier_count_binding_stays_below_one_hundred_thousand_rows() {
    const TOUCHED: usize = 1_531;
    let mut indices: Vec<u32> = Vec::new();
    for segment_rank in 0..256usize {
        let segment = (segment_rank as u32).reverse_bits() >> 16;
        let local_count = if segment_rank < 251 { 6 } else { 5 };
        for local_rank in 0..local_count {
            let local = (local_rank as u32).reverse_bits() >> 16;
            indices.push((segment << 16) | local);
        }
    }
    indices.sort_unstable();
    let expected = sibling_count(&indices, 32);
    assert_eq!(expected, 22_468);
    let (r1cs, witness, _, binding_rows) = frontier_count_circuit(&indices, TOUCHED, 32, expected);
    assert!(r1cs.satisfies(&witness));
    assert_eq!(binding_rows, 30_628);
}

fn root_wires(
    b: &mut FieldR1csBuilder,
    old: [F128; 2],
    new: [F128; 2],
    depth: usize,
) -> ExactStateRootWires {
    ExactStateRootWires {
        old_root: old.map(|lane| alloc_block(b, lane)),
        new_root: new.map(|lane| alloc_block(b, lane)),
        active_depth: depth,
    }
}

fn wire(expr: &LinExpr) -> usize {
    expr.terms[0].0
}

struct BindingCase {
    r1cs: FieldR1cs,
    z: Vec<F128>,
    wires: Vec<(usize, &'static str)>,
}

fn binding_case(grows: bool) -> BindingCase {
    const CHILD_DEPTH: usize = 5;
    let hashing = hashing();
    let parent = [element(7_007), element(7_008)];
    let old = if grows {
        hashing.tables.compress(&hashing.node_iv, &parent, &hashing.zero_roots[CHILD_DEPTH - 1])
    } else {
        parent
    };
    let child = [element(31), element(32)];
    let mut b = FieldR1csBuilder::new();
    let roots = root_wires(&mut b, old, child, CHILD_DEPTH);
    let parent_w = parent.map(|lane| alloc_block(&mut b, lane));
    let child_w = child.map(|lane| alloc_block(&mut b, lane));
    let parent_depth = CHILD_DEPTH - usize::from(grows);
    let parent_log = alloc_block(&mut b, element(parent_depth as u128));
    let child_log = alloc_block(&mut b, element(CHILD_DEPTH as u128));
    let grow = bind_exact_state_header_roots(
        &mut b,
        &hashing,
        &roots,
        &parent_w,
        &parent_log,
        parent_depth as u32,
        &child_w,
        &child_log,
    );
    let wires = vec![
        (wire(&parent_w[0]), "parent header root lane 0"),
        (wire(&parent_w[1]), "parent header root lane 1"),
        (wire(&roots.old_root[0]), "old path root lane 0"),
        (wire(&roots.old_root[1]), "old path root lane 1"),
        (wire(&roots.new_root[0]), "new path root lane 0"),
        (wire(&roots.new_root[1]), "new path root lane 1"),
        (wire(&child_w[0]), "child header root lane 0"),
        (wire(&child_w[1]), "child header root lane 1"),
        (wire(&parent_log), "parent depth"),
        (wire(&child_log), "child depth"),
        (wire(&grow), "grow selector"),
    ];
    let (r1cs, z) = b.build();
    BindingCase { r1cs, z, wires }
}

#[test]
fn equal_and_grow_share_one_child_depth_matrix() {
    let equal = binding_case(false);
    let grow = binding_case(true);
    assert!(equal.r1cs.satisfies(&equal.z));
    assert!(grow.r1cs.satisfies(&grow.z));
    assert_eq!(equal.r1cs.rows, grow.r1cs.rows);
}

#[test]
fn root_depth_grow_and_zero_subtree_tamper_reject() {
    for grows in [false, true] {
        let case = binding_case(grows);
        assert!(case.r1cs.satisfies(&case.z));
        for (wire, label) in &case.wires {
            let mut bad = case.z.clone();
            bad[*wire] = bad[*wire].add(F128::one());
            assert!(
                !case.r1cs.satisfies(&bad),
                "{label} tamper must fail in grows={grows} branch"
            );
        }
    }
}

struct DynamicBindingCase {
    r1cs: FieldR1cs,
    z: Vec<F128>,
    old_root: [usize; 2],
    grow: usize,
}

fn dynamic_binding_case(parent_depth: usize, child_depth: usize) -> DynamicBindingCase {
    let hashing = hashing();
    let parent = [element(0xA7A7), element(0xA8A8)];
    let old = if child_depth == parent_depth + 1 && (24..32).contains(&parent_depth) {
        hashing.tables.compress(&hashing.node_iv, &parent, &hashing.zero_roots[parent_depth])
    } else {
        parent
    };
    let child = [element(71), element(72)];
    let mut b = FieldR1csBuilder::new();
    let roots = root_wires(&mut b, old, child, 0);
    let parent_w = parent.map(|lane| alloc_block(&mut b, lane));
    let child_w = child.map(|lane| alloc_block(&mut b, lane));
    let parent_log = alloc_block(&mut b, element(parent_depth as u128));
    let child_log = alloc_block(&mut b, element(child_depth as u128));
    let depth = bind_exact_state_header_roots_dynamic(
        &mut b,
        &hashing,
        &roots,
        &parent_w,
        &parent_log,
        &child_w,
        &child_log,
    );
    let old_root = [wire(&roots.old_root[0]), wire(&roots.old_root[1])];
    let grow = wire(&depth.grow);
    let (r1cs, z) = b.build();
    DynamicBindingCase { r1cs, z, old_root, grow }
}

#[test]
fn dynamic_root_depth_accepts_equal_and_grow_with_one_matrix() {
    let equal24 = dynamic_binding_case(24, 24);
    let grow24 = dynamic_binding_case(24, 25);
    let grow31 = dynamic_binding_case(31, 32);
    let equal32 = dynamic_binding_case(32, 32);
    assert!(equal24.r1cs.satisfies(&equal24.z));
    assert!(grow24.r1cs.satisfies(&grow24.z));
    assert!(grow31.r1cs.satisfies(&grow31.z));
    assert!(equal32.r1cs.satisfies(&equal32.z));
    assert_eq!(equal24.z[equal24.grow], F128::zero());
    assert_eq!(grow24.z[grow24.grow], F128::one());
    assert_eq!(grow31.z[grow31.grow], F128::one());
    assert_eq!(equal32.z[equal32.grow], F128::zero());
    assert_eq!(equal24.r1cs.useful_rows, grow24.r1cs.useful_rows);
    assert_eq!(equal24.r1cs.rows, grow24.r1cs.rows);
    assert_eq!(equal24.r1cs.rows, equal32.r1cs.rows);
    for lane in 0..2 {
        let mut tampered = grow24.z.clone();
        let at = grow24.old_root[lane];
        tampered[at] = tampered[at].add(F128::one());
        assert!(
            !grow24.r1cs.satisfies(&tampered),
            "canonical grow-root lane {lane} must be bound"
        );
    }
}

#[test]
fn dynamic_root_depth_rejects_gap_shrink_and_out_of_range() {
    for (parent, child, label) in [
        (24, 26, "gap"),
        (25, 24, "shrink"),
        (23, 24, "parent below range"),
        (32, 33, "child above range"),
    ] {
        let case = dynamic_binding_case(parent, child);
        assert!(
            !case.r1cs.satisfies(&case.z),
            "{label} transition {parent}->{child} must reject"
        );
    }
}

fn upper_selector_case(depth: usize) -> (FieldR1cs, Vec<F128>, [[F128; 2]; 2]) {
    let mut b = FieldR1csBuilder::new();
    let depth_value = alloc_block(&mut b, element(depth as u128));
    let depth = StateDepthTrace::bind(&mut b, &depth_value);
    let mut roots_by_depth = Vec::new();
    for index in 0..16u128 {
        let mut cell = |side: u128, lane: u128| {
            alloc_block(&mut b, element(10_000 * (index + 1) + 100 * side + lane))
        };
        let pairs = [[cell(0, 0), cell(0, 1)], [cell(1, 0), cell(1, 1)]];
        roots_by_depth.push(pairs);
    }
    let selected = select_upper_paired_roots(&mut b, &depth, &roots_by_depth);
    let values = [
        [selected[0][0].eval(b.values()), selected[0][1].eval(b.values())],
        [selected[1][0].eval(b.values()), selected[1][1].eval(b.values())],
    ];
    let (r1cs, witness) = b.build();
    (r1cs, witness, values)
}

#[test]
fn upper_root_selector_chooses_depth8_and_depth16_with_one_matrix() {
    let (depth24, witness24, selected8) = upper_selector_case(24);
    let (depth32, witness32, selected16) = upper_selector_case(32);
    assert!(depth24.satisfies(&witness24));
    assert!(depth32.satisfies(&witness32));
    assert_eq!(
        selected8,
        [[element(80_000), element(80_001)], [element(80_100), element(80_101)]]
    );
    assert_eq!(
        selected16,
        [[element(160_000), element(160_001)], [element(160_100), element(160_101)]]
    );
    assert_eq!(depth24.useful_rows, depth32.useful_rows);
    assert_eq!(depth24.rows, depth32.rows);
}
