use noid_recursive::accepted_claim_batch::{
    build_direct_accumulator_transition_slot, digest_lanes, range_check_boundary_scalars,
    AccumulatorWires, ChainAccumulator, DirectChildWires, CHAIN_ACCUMULATOR_LANES,
};
use noid_recursive::circuit::{alloc_block, pin_eq, FieldR1csBuilder, LinExpr};
use noid_recursive::field::F128;
use noid_recursive::tx_epoch::{
    constrain_tx_epoch_boundary, constrain_tx_epoch_boundary_with_decomposition,
    tx_epoch_height_decomposition, TxEpochHeightDecomposition,
};

fn element(value: u128) -> F128 {
    F128::from_u128(value)
}

fn boundary_holds(
    height: u64,
    decomposition: TxEpochHeightDecomposition,
    claimed_boundary: bool,
) -> bool {
    let mut b = FieldR1csBuilder::new();
    let height = alloc_block(&mut b, element(height as u128));
    let trace = constrain_tx_epoch_boundary_with_decomposition(&mut b, &height, decomposition);
    let expected = LinExpr::constant(F128::from_bool(claimed_boundary));
    pin_eq(&mut b, &trace.boundary, &expected);
    let (r1cs, witness) = b.build();
    r1cs.satisfies(&witness)
}

#[test]
fn exact_boundary_trace_matches_native_cases() {
    for (height, expected_boundary) in [
        (0, true),
        (1, false),
        (143, false),
        (144, true),
        (145, false),
        (287, false),
        (288, true),
        (289, false),
    ] {
        let decomposition = tx_epoch_height_decomposition(height);
        assert!(
            boundary_holds(height, decomposition, expected_boundary),
            "honest height {height} was unsatisfiable"
        );
        let mut b = FieldR1csBuilder::new();
        let height_w = alloc_block(&mut b, element(height as u128));
        let trace = constrain_tx_epoch_boundary(&mut b, &height_w);
        assert_eq!(trace.quotient.eval(b.values()), element(decomposition.quotient as u128));
        assert_eq!(trace.remainder.eval(b.values()), element(decomposition.remainder as u128));
        assert_eq!(trace.boundary.eval(b.values()), F128::from_bool(expected_boundary));
        let (r1cs, witness) = b.build();
        assert!(r1cs.satisfies(&witness));
    }
}

#[test]
fn quotient_remainder_boundary_and_height_mutations_are_unsatisfiable() {
    let parts = |quotient: u64, remainder: u64| TxEpochHeightDecomposition { quotient, remainder };
    assert!(boundary_holds(144, parts(1, 0), true));
    assert!(!boundary_holds(144, parts(0, 0), true));
    assert!(!boundary_holds(145, parts(1, 2), false));
    assert!(!boundary_holds(144, parts(0, 144), false));
    assert!(!boundary_holds(144, parts(1, 0), false));
    assert!(!boundary_holds(145, parts(1, 0), true));
}

#[derive(Clone)]
struct NativeChild {
    semantic_id: [u8; 32],
    parent_block_id: [u8; 32],
    prev_block_hash: [u8; 32],
    state_root: [u8; 32],
    height: u64,
    log_slots: u32,
    active_slot_count: u64,
    alloc_counter: u64,
}

fn fixture(parent_height: u64) -> (ChainAccumulator, NativeChild, ChainAccumulator) {
    let start = ChainAccumulator {
        height: parent_height,
        tip_semantic_id: [0x11; 32],
        state_root: [0x22; 32],
        log_slots: 24,
        active_slot_count: 17,
        alloc_counter: 29,
        epoch_anchor_id: [0x33; 32],
    };
    let parent_block_id = [0x66; 32];
    let child = NativeChild {
        semantic_id: [0x44; 32],
        parent_block_id,
        prev_block_hash: parent_block_id,
        state_root: [0x55; 32],
        height: parent_height + 1,
        log_slots: 25,
        active_slot_count: 19,
        alloc_counter: 31,
    };
    let end = ChainAccumulator {
        height: child.height,
        tip_semantic_id: child.semantic_id,
        state_root: child.state_root,
        log_slots: child.log_slots,
        active_slot_count: child.active_slot_count,
        alloc_counter: child.alloc_counter,
        epoch_anchor_id: if parent_height % 144 == 0 {
            parent_block_id
        } else {
            start.epoch_anchor_id
        },
    };
    (start, child, end)
}

fn digest_wires(b: &mut FieldR1csBuilder, digest: &[u8; 32]) -> [LinExpr; 2] {
    let lanes = digest_lanes(digest);
    [alloc_block(b, lanes[0]), alloc_block(b, lanes[1])]
}

fn lane_wires(b: &mut FieldR1csBuilder, lanes: [F128; 10]) -> AccumulatorWires {
    AccumulatorWires::from_ordered_lanes(lanes.map(|lane| alloc_block(b, lane)))
}

fn holds_of_lanes(start: [F128; 10], child: &NativeChild, end: [F128; 10]) -> bool {
    let mut b = FieldR1csBuilder::new();
    let start = lane_wires(&mut b, start);
    let wires = DirectChildWires {
        semantic_id: digest_wires(&mut b, &child.semantic_id),
        prev_block_hash: digest_wires(&mut b, &child.prev_block_hash),
        state_root: digest_wires(&mut b, &child.state_root),
        height: alloc_block(&mut b, element(child.height as u128)),
        log_slots: alloc_block(&mut b, element(child.log_slots as u128)),
        active_slot_count: alloc_block(&mut b, element(child.active_slot_count as u128)),
        alloc_counter: alloc_block(&mut b, element(child.alloc_counter as u128)),
    };
    let parent_block_id = digest_wires(&mut b, &child.parent_block_id);
    let end = lane_wires(&mut b, end);
    build_direct_accumulator_transition_slot(&mut b, &start, &wires, &end, &parent_block_id);
    let (r1cs, witness) = b.build();
    r1cs.satisfies(&witness)
}

fn transition_holds(start: &ChainAccumulator, child: &NativeChild, end: &ChainAccumulator) -> bool {
    holds_of_lanes(start.to_lanes(), child, end.to_lanes())
}

fn mutated(acc: &ChainAccumulator, lane: usize) -> [F128; 10] {
    let mut lanes = acc.to_lanes();
    lanes[lane] = lanes[lane].add(F128::one());
    lanes
}

#[test]
fn allocated_accumulators_hold_their_lanes() {
    let (start, _, _) = fixture(143);
    let mut b = FieldR1csBuilder::new();
    let wires = AccumulatorWires::allocate(&mut b, &start);
    let lanes = wires.ordered_lanes().map(|lane| lane.eval(b.values()));
    assert_eq!(lanes, start.to_lanes());
    assert_eq!(lanes[0], element(143));
    assert_eq!(lanes[5], element(24));
}

#[test]
fn exact_epoch_edges_143_to_144_and_144_to_145() {
    for parent_height in [143, 144] {
        let (start, child, end) = fixture(parent_height);
        assert!(transition_holds(&start, &child, &end));
        let expected = if parent_height % 144 == 0 {
            child.parent_block_id
        } else {
            start.epoch_anchor_id
        };
        assert_eq!(end.epoch_anchor_id, expected);
    }
}

#[test]
fn direct_transition_rejects_every_end_lane_mutation() {
    for parent_height in [143, 144] {
        let (start, child, end) = fixture(parent_height);
        for lane in 0..CHAIN_ACCUMULATOR_LANES {
            assert!(
                !holds_of_lanes(start.to_lanes(), &child, mutated(&end, lane)),
                "end lane {lane} accepted at parent height {parent_height}"
            );
        }
    }
}

#[test]
fn direct_transition_rejects_parent_height_link_and_epoch_mutations() {
    let (start, child, end) = fixture(143);
    assert!(!holds_of_lanes(mutated(&start, 0), &child, end.to_lanes()), "start height lane");
    for lane in [8usize, 9] {
        assert!(!holds_of_lanes(mutated(&start, lane), &child, end.to_lanes()), "start lane {lane}");
    }
    let mut unlinked = child.clone();
    unlinked.prev_block_hash[0] ^= 1;
    assert!(!transition_holds(&start, &unlinked, &end), "prev link");

    let (start, child, end) = fixture(144);
    let mut wrong_parent = child.clone();
    wrong_parent.parent_block_id[0] ^= 1;
    wrong_parent.prev_block_hash[0] ^= 1;
    assert!(!transition_holds(&start, &wrong_parent, &end), "epoch from wrong parent id");
}

#[test]
fn direct_transition_rejects_every_child_projection_mutation() {
    let (start, child, end) = fixture(143);
    for target in 0..10 {
        let mut bad = child.clone();
        match target {
            0 => bad.semantic_id[0] ^= 1,
            1 => bad.semantic_id[17] ^= 1,
            2 => bad.prev_block_hash[0] ^= 1,
            3 => bad.prev_block_hash[17] ^= 1,
            4 => bad.state_root[0] ^= 1,
            5 => bad.state_root[17] ^= 1,
            6 => bad.height ^= 1,
            7 => bad.log_slots ^= 1,
            8 => bad.active_slot_count ^= 1,
            9 => bad.alloc_counter ^= 1,
            _ => unreachable!(),
        }
        assert!(!transition_holds(&start, &bad, &end), "child target {target}");
    }
}

#[test]
fn boundary_scalar_ranges_reject_oversized_field_lanes() {
    for (lane, value) in [
        (5usize, u32::MAX as u128 + 1),
        (6usize, u64::MAX as u128 + 1),
        (7usize, u64::MAX as u128 + 1),
    ] {
        let mut b = FieldR1csBuilder::new();
        let mut native = fixture(143).0.to_lanes();
        native[lane] = element(value);
        let boundary = lane_wires(&mut b, native);
        let _ = range_check_boundary_scalars(&mut b, &boundary);
        let (r1cs, witness) = b.build();
        assert!(!r1cs.satisfies(&witness), "oversized boundary lane {lane} was accepted");
    }
}
