use noid_recursive::action_compaction::{compact_action_rows, native_bool};
use noid_recursive::action_surface::ActionRowTrace;
use noid_recursive::circuit::{alloc_block, FieldR1cs, FieldR1csBuilder, LinExpr};
use noid_recursive::field::F128;
use noid_recursive::mint_allocation::bind_mint_packed_values_body_order;
use noid_recursive::permutation_network::route_permutation_network;
use noid_recursive::sorting::{next_power_of_two, sort_live_first};

fn element(value: u128) -> F128 {
    F128::from_u128(value)
}

fn next_permutation(values: &mut Vec<usize>) -> bool {
    let n = values.len();
    let Some(pivot) = (0..n - 1).rev().find(|&i| values[i] < values[i + 1]) else {
        return false;
    };
    let swap = (pivot + 1..n).rev().find(|&i| values[pivot] < values[i]).unwrap();
    values.swap(pivot, swap);
    values[pivot + 1..].reverse();
    true
}

fn network(permutation: &Vec<usize>) -> (FieldR1cs, Vec<F128>, Vec<F128>) {
    let mut b = FieldR1csBuilder::new();
    let rows: Vec<Vec<LinExpr>> = (0..permutation.len())
        .map(|input| vec![alloc_block(&mut b, element(input as u128))])
        .collect();
    let output = route_permutation_network(&mut b, rows, permutation);
    let values = output.iter().map(|row| row[0].eval(b.values())).collect();
    let (r1cs, witness) = b.build();
    (r1cs, witness, values)
}

#[test]
fn routes_every_four_row_permutation() {
    let mut permutation = vec![0, 1, 2, 3];
    loop {
        let (r1cs, witness, output) = network(&permutation);
        assert!(r1cs.satisfies(&witness), "permutation {permutation:?}");
        let mut inverse = vec![0usize; permutation.len()];
        for (input, &at) in permutation.iter().enumerate() {
            inverse[at] = input;
        }
        let expected: Vec<F128> = inverse.iter().map(|&v| element(v as u128)).collect();
        assert_eq!(output, expected);
        if !next_permutation(&mut permutation) {
            break;
        }
    }
}

#[test]
fn routing_values_do_not_change_the_matrix() {
    let (identity, identity_witness, _) = network(&vec![0, 1, 2, 3, 4, 5, 6, 7]);
    let (reverse, reverse_witness, _) = network(&vec![7, 6, 5, 4, 3, 2, 1, 0]);
    assert!(identity.satisfies(&identity_witness));
    assert!(reverse.satisfies(&reverse_witness));
    assert_eq!(identity.rows, reverse.rows);
    assert_eq!(identity.useful_rows, reverse.useful_rows);
    assert_eq!(element(1), F128::one());
}

#[test]
fn live_rows_sort_before_dead_ones_by_key() {
    let live = vec![false, true, true, false, true];
    let key = vec![9, 30, 10, 1, 20];
    let order = sort_live_first(&live, &key);
    assert_eq!(order[..3], [2, 4, 1]);
    assert_eq!(order.len(), 5);
    assert_eq!(next_power_of_two(5), 8);
    assert_eq!(next_power_of_two(8), 8);
    assert_eq!(next_power_of_two(1), 1);
}

fn candidate(b: &mut FieldR1csBuilder, ordinal: usize, live: bool, mint: bool) -> ActionRowTrace {
    let live_w = alloc_block(b, F128::from_bool(live));
    let selected = |b: &mut FieldR1csBuilder, value: u128| {
        alloc_block(b, element(if live { value } else { 0 }))
    };
    ActionRowTrace {
        slot_index: selected(b, ordinal as u128 + 100),
        value: selected(b, ordinal as u128 + 1_000),
        owner: [
            selected(b, ordinal as u128 + 2_000),
            selected(b, ordinal as u128 + 3_000),
        ],
        is_mint: if mint { live_w.dup() } else { LinExpr::zero() },
        live: live_w,
    }
}

fn compacted(pattern: &[bool], capacity: usize) -> (FieldR1cs, Vec<F128>, Vec<F128>) {
    let mut b = FieldR1csBuilder::new();
    let rows: Vec<ActionRowTrace> = pattern
        .iter()
        .enumerate()
        .map(|(ordinal, &live)| candidate(&mut b, ordinal, live, ordinal % 2 == 0))
        .collect();
    let compact = compact_action_rows(&mut b, &rows, capacity);
    let slots = compact.rows.iter().map(|action| action.slot_index.eval(b.values())).collect();
    let (r1cs, witness) = b.build();
    (r1cs, witness, slots)
}

fn slot_rows(b: &mut FieldR1csBuilder, slots: &[(u128, bool, bool)]) -> Vec<ActionRowTrace> {
    slots
        .iter()
        .enumerate()
        .map(|(ordinal, &(slot, live, mint))| {
            let mut row = candidate(b, ordinal, live, mint);
            row.slot_index = alloc_block(b, element(if live { slot } else { 0 }));
            row
        })
        .collect()
}

fn slot_case(slots: &[(u128, bool, bool)]) -> (FieldR1cs, Vec<F128>, Vec<F128>) {
    let mut b = FieldR1csBuilder::new();
    let rows = slot_rows(&mut b, slots);
    let compact = compact_action_rows(&mut b, &rows, rows.len());
    let values = compact.rows.iter().map(|row| row.slot_index.eval(b.values())).collect();
    let (r1cs, witness) = b.build();
    (r1cs, witness, values)
}

fn slot_case_with_bits(
    slots: &[(u128, bool, bool)],
) -> (FieldR1cs, Vec<F128>, Vec<F128>, Vec<Vec<F128>>) {
    let mut b = FieldR1csBuilder::new();
    let rows = slot_rows(&mut b, slots);
    let compact = compact_action_rows(&mut b, &rows, rows.len());
    let values = compact.rows.iter().map(|row| row.slot_index.eval(b.values())).collect();
    let bits = compact
        .slot_bits
        .iter()
        .map(|bits| bits.iter().map(|&w| LinExpr::from_wire(w).eval(b.values())).collect())
        .collect();
    let (r1cs, witness) = b.build();
    (r1cs, witness, values, bits)
}

fn bits_as_u32(bits: &[F128]) -> u32 {
    assert_eq!(bits.len(), 32);
    bits.iter().enumerate().fold(0u32, |value, (bit, &v)| {
        assert!(v == F128::zero() || v == F128::one());
        value | (u32::from(v == F128::one()) << bit)
    })
}

const TEST_BLOCK_HEIGHT: u128 = 6;
const COINBASE_TEST_ID: u128 = (1u128 << 63) | TEST_BLOCK_HEIGHT;

fn allocator_case(
    slots: &[(u128, bool, bool)],
    parent: u128,
    child: u128,
) -> (FieldR1cs, Vec<F128>, Vec<(u128, u128)>) {
    let mut b = FieldR1csBuilder::new();
    let mut rows = slot_rows(&mut b, slots);
    let parent_w = alloc_block(&mut b, element(parent));
    let child_w = alloc_block(&mut b, element(child));
    let height_w = alloc_block(&mut b, element(TEST_BLOCK_HEIGHT));
    bind_mint_packed_values_body_order(&mut b, &mut rows, &parent_w, &child_w, &height_w);
    let compact = compact_action_rows(&mut b, &rows, rows.len());
    let routed = compact
        .rows
        .iter()
        .map(|row| {
            (row.slot_index.eval(b.values()).bits, row.value.eval(b.values()).bits >> 64)
        })
        .collect();
    let (r1cs, witness) = b.build();
    (r1cs, witness, routed)
}

#[test]
fn sparse_high_positions_compact_to_slot_sorted_zero_suffix() {
    let pattern = [false, true, false, false, true, false, true, false, true];
    let (r1cs, witness, slots) = compacted(&pattern, 6);
    assert!(r1cs.satisfies(&witness));
    assert_eq!(
        slots,
        [
            element(101),
            element(104),
            element(106),
            element(108),
            F128::zero(),
            F128::zero(),
        ]
    );
}

#[test]
fn body_order_creation_ids_survive_slot_sorting() {
    let (r1cs, witness, routed) = allocator_case(
        &[
            (90, true, true),
            (5, true, false),
            (20, true, true),
            (1, true, true),
            (0, false, false),
        ],
        7,
        10,
    );
    assert!(r1cs.satisfies(&witness));
    assert_eq!(routed, [(1, 10), (5, 0), (20, 9), (90, COINBASE_TEST_ID), (0, 0)]);
}

#[test]
fn allocator_rejects_user_mint_entering_coinbase_namespace() {
    let parent = (1u128 << 63) - 2;
    let (r1cs, witness, _) =
        allocator_case(&[(9, true, true), (12, true, true)], parent, parent + 2);
    assert!(!r1cs.satisfies(&witness));
    let (ok, ok_witness, _) = allocator_case(&[(9, true, true)], parent, parent + 1);
    assert!(ok.satisfies(&ok_witness));
}

#[test]
fn allocator_and_packed_value_lane_are_slot_topology_invariant() {
    let (left, left_witness, _) = allocator_case(
        &[(90, true, true), (5, true, false), (20, true, true), (0, false, false)],
        7,
        9,
    );
    let (right, right_witness, _) = allocator_case(
        &[(1, true, true), (95, true, false), (70, true, true), (0, false, false)],
        70,
        72,
    );
    assert!(left.satisfies(&left_witness));
    assert!(right.satisfies(&right_witness));
    assert_eq!(left.useful_rows, right.useful_rows);
    assert_eq!(left.rows, right.rows);
}

#[test]
fn production_mint_roles_are_occupancy_shape_invariant() {
    let (left, left_witness, _) = allocator_case(
        &[
            (90, true, true),
            (5, true, false),
            (0, false, false),
            (20, true, true),
            (0, false, false),
            (0, false, true),
        ],
        7,
        9,
    );
    let (right, right_witness, _) = allocator_case(
        &[
            (90, true, true),
            (0, false, false),
            (35, true, false),
            (0, false, true),
            (70, true, false),
            (60, true, true),
        ],
        70,
        72,
    );
    assert!(left.satisfies(&left_witness));
    assert!(right.satisfies(&right_witness));
    assert_eq!(left.useful_rows, right.useful_rows);
    assert_eq!(left.rows, right.rows);
}

#[test]
fn allocator_rejects_wrong_child_counter_and_overflow() {
    let (wrong, wrong_witness, _) = allocator_case(&[(9, true, true)], 7, 9);
    assert!(!wrong.satisfies(&wrong_witness));
    let (overflow, overflow_witness, _) =
        allocator_case(&[(9, true, true)], u64::MAX as u128, 0);
    assert!(!overflow.satisfies(&overflow_witness));
}

#[test]
fn all_six_row_bitmaps_preserve_live_body_order_when_slots_do() {
    const N: usize = 6;
    for bitmap in 0u8..(1 << N) {
        let pattern: Vec<bool> = (0..N).map(|bit| bitmap >> bit & 1 == 1).collect();
        let (r1cs, witness, slots) = compacted(&pattern, N);
        assert!(r1cs.satisfies(&witness), "bitmap {bitmap:#08b}");
        let mut expected: Vec<F128> = pattern
            .iter()
            .enumerate()
            .filter(|(_, live)| **live)
            .map(|(ordinal, _)| element(ordinal as u128 + 100))
            .collect();
        expected.resize(N, F128::zero());
        assert_eq!(slots, expected, "bitmap {bitmap:#08b}");
    }
}

#[test]
fn occupancy_does_not_change_the_compactor_matrix() {
    let (sparse, sparse_witness, _) =
        compacted(&[true, false, false, true, false, false, false, false], 6);
    let (dense, dense_witness, _) =
        compacted(&[true, true, true, true, true, true, false, false], 6);
    assert!(sparse.satisfies(&sparse_witness));
    assert!(dense.satisfies(&dense_witness));
    assert_eq!(sparse.rows, dense.rows);
    assert_eq!(sparse.useful_rows, dense.useful_rows);
}

#[test]
fn class_live_capacity_is_a_constraint() {
    let (r1cs, witness, _) = compacted(&[true, true, true, true], 3);
    assert!(!r1cs.satisfies(&witness));
}

#[test]
fn dead_nonzero_semantic_row_is_rejected() {
    let mut b = FieldR1csBuilder::new();
    let mut row = candidate(&mut b, 0, false, false);
    row.slot_index = alloc_block(&mut b, element(1));
    let _ = compact_action_rows(&mut b, &vec![row], 1);
    let (r1cs, witness) = b.build();
    assert!(!r1cs.satisfies(&witness));
}

#[test]
fn routes_directly_to_unique_slot_order_with_dead_suffix() {
    let (r1cs, witness, slots) = slot_case(&[
        (91, true, false),
        (0, false, false),
        (7, true, true),
        (42, true, false),
        (0, false, true),
    ]);
    assert!(r1cs.satisfies(&witness));
    assert_eq!(
        slots,
        [element(7), element(42), element(91), F128::zero(), F128::zero()]
    );
}

#[test]
fn exposed_slot_bits_match_routed_slot_indices() {
    let (r1cs, witness, slots, slot_bits) = slot_case_with_bits(&[
        (91, true, false),
        (0, false, false),
        (7, true, true),
        (42, true, false),
        (0, false, true),
    ]);
    assert!(r1cs.satisfies(&witness));
    assert_eq!(slot_bits.len(), slots.len());
    assert_eq!(
        slot_bits.iter().map(|bits| bits_as_u32(bits)).collect::<Vec<_>>(),
        [7, 42, 91, 0, 0]
    );
    for (slot, bits) in slots.iter().zip(&slot_bits) {
        assert_eq!(u128::from(bits_as_u32(bits)), slot.bits);
    }
}

#[test]
fn exposed_slot_bits_have_a_zero_dead_suffix() {
    let (r1cs, witness, _, slot_bits) = slot_case_with_bits(&[
        (91, true, false),
        (0, false, false),
        (7, true, true),
        (42, true, false),
        (0, false, false),
    ]);
    assert!(r1cs.satisfies(&witness));
    assert!(slot_bits[3..].iter().flatten().all(|&bit| bit == F128::zero()));
}

#[test]
fn comparator_exposes_highest_difference_without_an_extra_range_pass() {
    let mut b = FieldR1csBuilder::new();
    let rows = slot_rows(
        &mut b,
        &[
            (91, true, false),
            (0, false, false),
            (7, true, true),
            (42, true, false),
            (0, false, false),
        ],
    );
    let compact = compact_action_rows(&mut b, &rows, rows.len());
    let highest: Vec<Vec<usize>> = compact
        .adjacent_msb_one_hot
        .iter()
        .map(|one_hot| {
            one_hot
                .iter()
                .enumerate()
                .filter(|(_, bit)| native_bool(bit, &b))
                .map(|(position, _)| position)
                .collect()
        })
        .collect();
    let (r1cs, witness) = b.build();
    assert!(r1cs.satisfies(&witness));
    assert_eq!(highest, [vec![5], vec![6], vec![6], vec![]]);
}

#[test]
fn exposing_slot_bits_adds_no_rows_or_matrix_changes() {
    let slots = [
        (91, true, false),
        (0, false, false),
        (7, true, true),
        (42, true, false),
        (0, false, false),
    ];
    let (baseline, baseline_witness, _) = slot_case(&slots);
    let (exposed, exposed_witness, _, slot_bits) = slot_case_with_bits(&slots);
    assert!(baseline.satisfies(&baseline_witness));
    assert!(exposed.satisfies(&exposed_witness));
    assert_eq!(slot_bits.len(), slots.len());
    assert_eq!(baseline.useful_rows, exposed.useful_rows);
    assert_eq!(baseline.rows, exposed.rows);
}

#[test]
fn repeated_spend_or_mint_slot_is_rejected() {
    for rows in [
        [(17, true, false), (17, true, false)],
        [(17, true, false), (17, true, true)],
        [(17, true, true), (17, true, true)],
    ] {
        let (r1cs, witness, _) = slot_case(&rows);
        assert!(!r1cs.satisfies(&witness));
    }
}

#[test]
fn slot_values_do_not_change_the_routing_matrix() {
    let (left, left_witness, _) =
        slot_case(&[(9, true, false), (2, true, true), (0, false, false)]);
    let (right, right_witness, _) =
        slot_case(&[(90, true, false), (20, true, true), (0, false, false)]);
    assert!(left.satisfies(&left_witness));
    assert!(right.satisfies(&right_witness));
    assert_eq!(left.rows, right.rows);
    assert_eq!(left.useful_rows, right.useful_rows);
}

#[test]
fn slot_index_must_fit_u32() {
    let (r1cs, witness, _) = slot_case(&[(1u128 << 32, true, false)]);
    assert!(!r1cs.satisfies(&witness));
}
