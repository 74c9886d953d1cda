use noid_recursive::action_surface::{zero_action, ActionRowTrace, ActionSurfaceTrace};
use noid_recursive::circuit::{alloc_bit, alloc_block, FieldR1cs, FieldR1csBuilder, LinExpr};
use noid_recursive::field::F128;
use noid_recursive::public_arithmetic::{
    bind_packed_input_components, bind_user_public_arithmetic, BodyLayout, SpineInputsTrace,
    UserPublicArithmeticTrace,
};

const LAYOUT: BodyLayout = BodyLayout { input_base: 2, output_data: 10, fee: 14 };

fn element(value: u128) -> F128 {
    F128::from_u128(value)
}

fn pack_amount_creation_id(amount: u64, creation_id: u64) -> u128 {
    amount as u128 | ((creation_id as u128) << 64)
}

#[derive(Clone)]
struct Body {
    fee: u64,
    inputs: [(u64, u64); 8],
    outputs: [u64; 2],
    live_inputs: [bool; 8],
    live_outputs: [bool; 2],
}

fn sparse_body() -> Body {
    let mut inputs = [(0, 0); 8];
    inputs[0] = (10, 3);
    let mut live_inputs = [false; 8];
    live_inputs[0] = true;
    Body { fee: 1, inputs, outputs: [9, 0], live_inputs, live_outputs: [true, false] }
}

fn wide_sum_body() -> Body {
    let mut body = sparse_body();
    body.inputs[0] = (u64::MAX, u64::MAX);
    body.inputs[1] = (10, 4);
    body.outputs = [u64::MAX, 9];
    body.live_inputs[1] = true;
    body.live_outputs = [true, true];
    body
}

fn dense_body() -> Body {
    let mut inputs = [(0, 0); 8];
    for (i, input) in inputs.iter_mut().enumerate() {
        *input = (10, 1_000 + i as u64);
    }
    Body {
        fee: 3,
        inputs,
        outputs: [50, 27],
        live_inputs: [true; 8],
        live_outputs: [true, true],
    }
}

fn ghost_body() -> Body {
    let mut body = sparse_body();
    body.fee = 0;
    body.inputs[0] = (1, 0);
    body.outputs = [1, 0];
    body
}

fn leaves_of(body: &Body) -> Vec<[u128; 2]> {
    let mut leaves = vec![[0u128; 2]; 16];
    for i in 0..8 {
        let (amount, id) = body.inputs[i];
        leaves[LAYOUT.input_base + i][1] = pack_amount_creation_id(amount, id);
    }
    for i in 0..2 {
        leaves[LAYOUT.output_data + 2 * i][1] = body.outputs[i] as u128;
    }
    leaves[LAYOUT.fee][0] = body.fee as u128;
    leaves
}

fn value_row(value: LinExpr) -> ActionRowTrace {
    let mut row = zero_action();
    row.value = value;
    row
}

fn build_relation(
    body: &Body,
    leaves: &Vec<[u128; 2]>,
    tx_live: bool,
) -> (FieldR1cs, Vec<F128>, UserPublicArithmeticTrace) {
    let mut b = FieldR1csBuilder::new();
    let spine = SpineInputsTrace {
        leaves: leaves
            .iter()
            .map(|leaf| [alloc_block(&mut b, element(leaf[0])), alloc_block(&mut b, element(leaf[1]))])
            .collect(),
    };
    let tx_live_w = alloc_bit(&mut b, tx_live);
    let mut selected_inputs = Vec::new();
    let mut input_rows = Vec::new();
    for i in 0..8 {
        let live = tx_live && body.live_inputs[i];
        let packed = leaves[LAYOUT.input_base + i][1];
        selected_inputs.push(alloc_bit(&mut b, live));
        input_rows.push(value_row(alloc_block(&mut b, element(if live { packed } else { 0 }))));
    }
    let mut selected_outputs = Vec::new();
    let mut output_rows = Vec::new();
    for i in 0..2 {
        let live = tx_live && body.live_outputs[i];
        let amount = leaves[LAYOUT.output_data + 2 * i][1];
        selected_outputs.push(alloc_bit(&mut b, live));
        output_rows.push(value_row(alloc_block(&mut b, element(if live { amount } else { 0 }))));
    }
    let surface = ActionSurfaceTrace {
        tx_live: tx_live_w,
        selected_inputs,
        selected_outputs,
        input_rows,
        output_rows,
    };
    let arithmetic = bind_user_public_arithmetic(&mut b, &spine, LAYOUT, &surface);
    let (r1cs, witness) = b.build();
    (r1cs, witness, arithmetic)
}

fn relation_satisfies(body: &Body, tx_live: bool) -> bool {
    let (r1cs, witness, _) = build_relation(body, &leaves_of(body), tx_live);
    r1cs.satisfies(&witness)
}

fn value_of(witness: &Vec<F128>, expr: &LinExpr) -> u128 {
    expr.eval(witness).bits
}

fn component_relation_satisfies(packed: u128, amount: u128, creation_id: u128) -> bool {
    let mut b = FieldR1csBuilder::new();
    let packed = alloc_block(&mut b, element(packed));
    let amount = alloc_block(&mut b, element(amount));
    let creation_id = alloc_block(&mut b, element(creation_id));
    let _ = bind_packed_input_components(&mut b, &packed, &amount, &creation_id);
    let (r1cs, witness) = b.build();
    r1cs.satisfies(&witness)
}

#[test]
fn honest_wide_integer_sum_and_exact_components_match_native() {
    let body = wide_sum_body();
    let input_sum = u64::MAX as u128 + 10;
    let output_sum = u64::MAX as u128 + 9;
    assert!(input_sum > u64::MAX as u128);
    let (r1cs, witness, arithmetic) = build_relation(&body, &leaves_of(&body), true);
    assert!(r1cs.satisfies(&witness));
    assert_eq!(value_of(&witness, &arithmetic.inputs[0].amount.value), u64::MAX as u128);
    assert_eq!(value_of(&witness, &arithmetic.inputs[0].creation_id.value), u64::MAX as u128);
    assert_eq!(value_of(&witness, &arithmetic.inputs[1].creation_id.value), 4);
    assert_eq!(value_of(&witness, &arithmetic.selected_inputs[0]), u64::MAX as u128);
    assert_eq!(value_of(&witness, &arithmetic.selected_outputs[1]), 9);
    assert_eq!(value_of(&witness, &arithmetic.input_sum), input_sum);
    assert_eq!(value_of(&witness, &arithmetic.output_sum), output_sum);
    assert_eq!(value_of(&witness, &arithmetic.output_plus_fee), output_sum + 1);
    assert_eq!(value_of(&witness, &arithmetic.paid_fee), 1);
    assert_eq!(value_of(&witness, &arithmetic.live_input_count), 2);
    assert_eq!(value_of(&witness, &arithmetic.live_output_count), 2);
}

#[test]
fn canonical_ghost_raw_body_maps_to_zero_selected_arithmetic() {
    let body = ghost_body();
    let (r1cs, witness, arithmetic) = build_relation(&body, &leaves_of(&body), false);
    assert!(r1cs.satisfies(&witness));
    assert_eq!(value_of(&witness, &arithmetic.raw_input_sum), 1);
    assert_eq!(value_of(&witness, &arithmetic.raw_output_sum), 1);
    assert_eq!(value_of(&witness, &arithmetic.input_sum), 0);
    assert_eq!(value_of(&witness, &arithmetic.output_sum), 0);
    assert_eq!(value_of(&witness, &arithmetic.paid_fee), 0);
}

#[test]
fn inactive_slot_zeroes_selected_amounts_and_nonzero_raw_fee() {
    let body = sparse_body();
    let (r1cs, witness, arithmetic) = build_relation(&body, &leaves_of(&body), false);
    assert!(r1cs.satisfies(&witness));
    assert_eq!(value_of(&witness, &arithmetic.fee.value), 1);
    assert_eq!(value_of(&witness, &arithmetic.input_sum), 0);
    assert_eq!(value_of(&witness, &arithmetic.output_sum), 0);
    assert_eq!(value_of(&witness, &arithmetic.paid_fee), 0);
    assert!(arithmetic.selected_inputs.iter().all(|input| value_of(&witness, input) == 0));
    assert!(arithmetic.selected_outputs.iter().all(|output| value_of(&witness, output) == 0));
}

#[test]
fn matrix_is_invariant_across_sparse_dense_and_ghost_content() {
    let (sparse, dense, ghost) = (sparse_body(), dense_body(), ghost_body());
    let (sparse_r1cs, sparse_witness, _) = build_relation(&sparse, &leaves_of(&sparse), true);
    let (dense_r1cs, dense_witness, _) = build_relation(&dense, &leaves_of(&dense), true);
    let (ghost_r1cs, ghost_witness, _) = build_relation(&ghost, &leaves_of(&ghost), false);
    assert!(sparse_r1cs.satisfies(&sparse_witness));
    assert!(dense_r1cs.satisfies(&dense_witness));
    assert!(ghost_r1cs.satisfies(&ghost_witness));
    assert_eq!(sparse_r1cs.useful_rows, dense_r1cs.useful_rows);
    assert_eq!(sparse_r1cs.useful_rows, ghost_r1cs.useful_rows);
    assert_eq!(sparse_r1cs.rows, dense_r1cs.rows);
    assert_eq!(sparse_r1cs.rows, ghost_r1cs.rows);
}

#[test]
fn page_arithmetic_defers_balance_and_fee_to_group_scanner() {
    let mut inflation = sparse_body();
    inflation.outputs[0] += 1;
    assert!(relation_satisfies(&inflation, true));
    let mut wrong_fee = sparse_body();
    wrong_fee.fee += 1;
    assert!(relation_satisfies(&wrong_fee, true));
}

#[test]
fn oversize_output_fee_and_component_witnesses_are_unsatisfied() {
    let body = sparse_body();
    let mut output = leaves_of(&body);
    output[LAYOUT.output_data][1] = (1u128 << 64) | 9;
    let (r1cs, witness, _) = build_relation(&body, &output, true);
    assert!(!r1cs.satisfies(&witness));

    let mut fee = leaves_of(&body);
    fee[LAYOUT.fee][0] = (1u128 << 64) | 1;
    let (r1cs, witness, _) = build_relation(&body, &fee, true);
    assert!(!r1cs.satisfies(&witness));

    let packed = pack_amount_creation_id(17, 9);
    assert!(!component_relation_satisfies(packed, 1u128 << 64, 9));
    assert!(!component_relation_satisfies(packed, 17, 1u128 << 64));
}

#[test]
fn nonzero_fee_unused_lane_is_unsatisfied() {
    let body = sparse_body();
    let mut leaves = leaves_of(&body);
    leaves[LAYOUT.fee][1] = 1;
    let (r1cs, witness, _) = build_relation(&body, &leaves, true);
    assert!(!r1cs.satisfies(&witness));
}

#[test]
fn packed_component_recombination_rejects_low_or_high_mixups() {
    let packed = pack_amount_creation_id(17, 9);
    assert!(component_relation_satisfies(packed, 17, 9));
    assert!(!component_relation_satisfies(packed, 18, 9));
    assert!(!component_relation_satisfies(packed, 17, 10));
    assert!(!component_relation_satisfies(packed, 9, 17));
}

#[test]
fn every_range_valid_page_shape_reaches_group_arithmetic() {
    let mut no_outputs = sparse_body();
    no_outputs.outputs = [0, 0];
    no_outputs.inputs[0].0 = 7;
    no_outputs.fee = 7;
    no_outputs.live_outputs = [false, false];
    let mut inflation = sparse_body();
    inflation.outputs[0] = 10;
    let mut wrong_fee = sparse_body();
    wrong_fee.fee = 2;
    let cases =
        [sparse_body(), wide_sum_body(), dense_body(), no_outputs, inflation, wrong_fee];
    for (case, body) in cases.iter().enumerate() {
        assert!(relation_satisfies(body, true), "page arithmetic rejected case {case}");
    }
}
