use noid_recursive::action_compaction::compact_action_rows;
use noid_recursive::action_surface::ActionRowTrace;
use noid_recursive::circuit::{alloc_block, FieldR1cs, FieldR1csBuilder, LinExpr};
use noid_recursive::field::F128;
use noid_recursive::segment_compaction::{bind_segment_upper_chain, compact_segment_updates};

fn element(value: u128) -> F128 {
    F128::from_u128(value)
}

fn action(b: &mut FieldR1csBuilder, slot: u32, live: bool) -> ActionRowTrace {
    ActionRowTrace {
        live: alloc_block(b, F128::from_bool(live)),
        slot_index: alloc_block(b, element(if live { u128::from(slot) } else { 0 })),
        value: LinExpr::zero(),
        owner: [LinExpr::zero(), LinExpr::zero()],
        is_mint: LinExpr::zero(),
    }
}

fn alloc_pair(b: &mut FieldR1csBuilder, value: [u128; 2]) -> [LinExpr; 2] {
    [alloc_block(b, element(value[0])), alloc_block(b, element(value[1]))]
}

fn roots(
    b: &mut FieldR1csBuilder,
    pairs: &[([u128; 2], [u128; 2])],
    rows: usize,
) -> (Vec<[LinExpr; 2]>, Vec<[LinExpr; 2]>) {
    let mut before = Vec::new();
    let mut after = Vec::new();
    for row in 0..rows {
        let (old, new) = if row < pairs.len() { pairs[row] } else { ([0, 0], [0, 0]) };
        before.push(alloc_pair(b, old));
        after.push(alloc_pair(b, new));
    }
    (before, after)
}

fn eval_pair(pair: &[LinExpr; 2], b: &FieldR1csBuilder) -> [F128; 2] {
    [pair[0].eval(b.values()), pair[1].eval(b.values())]
}

fn build_case(
    slots: &[(u32, bool)],
    pairs: &[([u128; 2], [u128; 2])],
    max_segments: usize,
) -> (FieldR1cs, Vec<F128>, Vec<(F128, [F128; 2], [F128; 2])>) {
    let mut b = FieldR1csBuilder::new();
    let actions: Vec<ActionRowTrace> =
        slots.iter().map(|&(slot, live)| action(&mut b, slot, live)).collect();
    let compacted = compact_action_rows(&mut b, &actions, actions.len());
    let (before, after) = roots(&mut b, pairs, actions.len());
    let segments = compact_segment_updates(
        &mut b,
        &compacted.rows,
        &compacted.slot_bits,
        &compacted.adjacent_msb_one_hot,
        &compacted.adjacent_both_live,
        &before,
        &after,
        max_segments,
    );
    let values = segments
        .rows
        .iter()
        .map(|row| {
            (
                row.segment_id.eval(b.values()),
                eval_pair(&row.root_before, &b),
                eval_pair(&row.root_after, &b),
            )
        })
        .collect();
    let (r1cs, witness) = b.build();
    (r1cs, witness, values)
}

fn upper_chain_case(break_entry: bool, break_chain: bool) -> (FieldR1cs, Vec<F128>) {
    let mut b = FieldR1csBuilder::new();
    let actions = vec![
        action(&mut b, 0x0001_0001, true),
        action(&mut b, 0x0002_0001, true),
        action(&mut b, 0, false),
        action(&mut b, 0, false),
    ];
    let compacted = compact_action_rows(&mut b, &actions, actions.len());
    let (local_before, local_after) =
        roots(&mut b, &[([10, 11], [20, 21]), ([30, 31], [40, 41])], actions.len());
    let segments = compact_segment_updates(
        &mut b,
        &compacted.rows,
        &compacted.slot_bits,
        &compacted.adjacent_msb_one_hot,
        &compacted.adjacent_both_live,
        &local_before,
        &local_after,
        actions.len(),
    );
    let mut upper_old = vec![
        alloc_pair(&mut b, [10, 11]),
        alloc_pair(&mut b, [30, 31]),
        alloc_pair(&mut b, [0, 0]),
        alloc_pair(&mut b, [0, 0]),
    ];
    if break_entry {
        upper_old[1] = alloc_pair(&mut b, [99, 31]);
    }
    let upper_new = vec![
        alloc_pair(&mut b, [20, 21]),
        alloc_pair(&mut b, [40, 41]),
        alloc_pair(&mut b, [0, 0]),
        alloc_pair(&mut b, [0, 0]),
    ];
    let upper_before = vec![
        alloc_pair(&mut b, [100, 101]),
        alloc_pair(&mut b, if break_chain { [999, 201] } else { [200, 201] }),
        alloc_pair(&mut b, [0, 0]),
        alloc_pair(&mut b, [0, 0]),
    ];
    let upper_after = vec![
        alloc_pair(&mut b, [200, 201]),
        alloc_pair(&mut b, [300, 301]),
        alloc_pair(&mut b, [0, 0]),
        alloc_pair(&mut b, [0, 0]),
    ];
    let parent = alloc_pair(&mut b, [100, 101]);
    let child = alloc_pair(&mut b, [300, 301]);
    bind_segment_upper_chain(
        &mut b,
        &segments,
        &upper_old,
        &upper_new,
        &upper_before,
        &upper_after,
        &parent,
        &child,
    );
    b.build()
}

#[test]
fn derives_one_whole_tuple_per_segment() {
    let (r1cs, witness, rows) = build_case(
        &[(0x0001_0001, true), (0x0001_0003, true), (0x0004_0002, true), (0, false)],
        &[([10, 11], [20, 21]), ([20, 21], [30, 31]), ([40, 41], [50, 51])],
        4,
    );
    assert!(r1cs.satisfies(&witness));
    assert_eq!(rows[0].0, element(1));
    assert_eq!(rows[0].1, [element(10), element(11)]);
    assert_eq!(rows[0].2, [element(30), element(31)]);
    assert_eq!(rows[1].0, element(4));
    assert_eq!(rows[1].1, [element(40), element(41)]);
    assert_eq!(rows[1].2, [element(50), element(51)]);
    assert_eq!(rows[2], (F128::zero(), [F128::zero(); 2], [F128::zero(); 2]));
}

#[test]
fn rejects_a_broken_local_chain() {
    let (r1cs, witness, _) = build_case(
        &[(0x0001_0001, true), (0x0001_0003, true)],
        &[([10, 11], [20, 21]), ([99, 21], [30, 31])],
        2,
    );
    assert!(!r1cs.satisfies(&witness));
}

#[test]
fn upper_entries_and_global_roots_chain_end_to_end() {
    let (r1cs, witness) = upper_chain_case(false, false);
    assert!(r1cs.satisfies(&witness));
}

#[test]
fn rejects_a_mismatched_upper_entry_or_global_chain() {
    for (break_entry, break_chain) in [(true, false), (false, true)] {
        let (r1cs, witness) = upper_chain_case(break_entry, break_chain);
        assert!(!r1cs.satisfies(&witness));
    }
}

#[test]
fn segment_cap_is_algebraic() {
    let (r1cs, witness, _) = build_case(
        &[(0x0000_0001, true), (0x0001_0001, true)],
        &[([10, 11], [20, 21]), ([30, 31], [40, 41])],
        1,
    );
    assert!(!r1cs.satisfies(&witness));
}

#[test]
fn topology_and_occupancy_do_not_change_the_matrix() {
    let (left, left_witness, _) = build_case(
        &[(0x0001_0001, true), (0x0001_0003, true), (0x0004_0002, true), (0, false)],
        &[([10, 11], [20, 21]), ([20, 21], [30, 31]), ([40, 41], [50, 51])],
        4,
    );
    let (right, right_witness, _) = build_case(
        &[(0x0002_0100, true), (0x0005_0200, true), (0, false), (0, false)],
        &[([60, 61], [70, 71]), ([80, 81], [90, 91])],
        4,
    );
    assert!(left.satisfies(&left_witness));
    assert!(right.satisfies(&right_witness));
    assert_eq!(left.useful_rows, right.useful_rows);
    assert_eq!(left.rows, right.rows);
}

#[test]
fn b255_uses_one_five_lane_2048_row_network() {
    const ACTIONS: usize = 1_531;
    let mut b = FieldR1csBuilder::new();
    let actions: Vec<ActionRowTrace> =
        (0..ACTIONS).map(|slot| action(&mut b, slot as u32, true)).collect();
    let compacted = compact_action_rows(&mut b, &actions, ACTIONS);
    let before: Vec<[LinExpr; 2]> = (0..ACTIONS).map(|_| alloc_pair(&mut b, [0, 0])).collect();
    let after: Vec<[LinExpr; 2]> =
        before.iter().map(|pair| [pair[0].dup(), pair[1].dup()]).collect();
    let segments = compact_segment_updates(
        &mut b,
        &compacted.rows,
        &compacted.slot_bits,
        &compacted.adjacent_msb_one_hot,
        &compacted.adjacent_both_live,
        &before,
        &after,
        256,
    );
    assert_eq!(segments.sort_rows, 2_048);
    assert_eq!(segments.network_rows, 117_484);
    let (r1cs, witness) = b.build();
    assert!(r1cs.satisfies(&witness));
}
