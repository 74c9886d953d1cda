use noid_recursive::shape::{
    enumerate_shape_classes, ShapeClass, BLOCK_MAX_LIVE_INPUTS, BODY_HASH_LEAVES, N_SPINE_SLOTS,
};
use noid_recursive::wire::{
    decode_history_step_terminal, decode_verify_history_step_terminal,
    encode_history_step_terminal, field_proof_len, history_step_terminal_max_wire_bytes,
    terminal_len_for_class, C1BaseFoldProof, C1FieldR1csProof, C1QueryOpening, C1RoundMessage,
    FieldShape, HistoryStepClass, HistoryStepRuntime, HistoryStepTerminal, WireF128,
    WireF256,
};
use noid_recursive::wire_shape::{BaseFoldWireShape, HistoryStepError, PcsParams};

#[test]
fn class_table_is_finite_and_injective() {
    let classes = enumerate_shape_classes();
    assert_eq!(classes.iter().map(|class| class.tier).collect::<Vec<_>>(), [25, 255]);
    assert_ne!(classes[0].shape_preimage(8), classes[1].shape_preimage(8));
    assert_ne!(classes[1].shape_preimage(8), classes[1].shape_preimage(9));
    assert_eq!(ShapeClass::for_page_count(0).unwrap().tier, 25);
    assert_eq!(ShapeClass::for_page_count(26).unwrap().tier, 255);
    assert!(ShapeClass::for_page_count(256).is_none());
    let large = ShapeClass::for_page_count(255).unwrap();
    assert_eq!(large.spend_capacity(), BLOCK_MAX_LIVE_INPUTS);
    assert_eq!(large.authorization_capacity(), 256);
    assert_eq!(large.touched_capacity(), 1_531);
    assert_eq!(large.action_candidate_capacity(), 2_553);
    assert_eq!(large.action_sort_capacity(), 4_096);
    assert_eq!(BODY_HASH_LEAVES, 16);
    assert_eq!(N_SPINE_SLOTS, 31);
}

#[test]
fn analytical_frontier_table_matches_live_class_caps() {
    let table: Vec<_> = enumerate_shape_classes()
        .iter()
        .map(|class| {
            (
                class.tier,
                class.touched_capacity(),
                class.frontier_sibling_capacity(),
                class.frontier_combine_capacity(),
            )
        })
        .collect();
    assert_eq!(table, [(25, 251, 6_029, 6_279), (255, 1_531, 22_468, 23_998)]);
}

#[test]
fn action_compactor_table_excludes_the_b255_auth_pad() {
    let table: Vec<_> = enumerate_shape_classes()
        .iter()
        .map(|class| {
            (
                class.tier,
                class.action_candidate_capacity(),
                class.action_sort_capacity(),
                class.touched_capacity(),
            )
        })
        .collect();
    assert_eq!(table, [(25, 253, 256, 251), (255, 2_553, 4_096, 1_531)]);
}

#[test]
fn paired_segment_capacity_table_is_exact() {
    let table: Vec<_> = enumerate_shape_classes()
        .iter()
        .map(|class| (class.tier, class.touched_capacity(), class.segment_capacity()))
        .collect();
    assert_eq!(table, [(25, 251, 251), (255, 1_531, 256)]);
}

fn history_params(log_msg_len: usize, arities: Vec<usize>, plaintext_tail: usize) -> PcsParams {
    PcsParams {
        m: log_msg_len + 7,
        log_packing: 7,
        log_batch_size: 5,
        log_inv_rate: 2,
        arities,
        round_commitments: 2,
        plaintext_tail,
        queries: 133,
    }
}

#[test]
fn c1_history_basefold_wire_shapes_are_exact() {
    let cases = [
        (history_params(22, vec![4, 4, 4, 4, 1], 128), 3_720usize, 500_560usize),
        (history_params(24, vec![4, 4, 4, 4, 3], 512), 3_976usize, 547_024usize),
    ];
    for (params, query_bytes, total) in cases {
        let shape = BaseFoldWireShape::derive(&params).unwrap();
        assert_eq!(shape.queries, 133);
        assert_eq!(shape.query_encoded_len().unwrap(), query_bytes);
        assert_eq!(shape.encoded_len().unwrap(), total);
    }
}

#[test]
fn a_schedule_that_does_not_fit_has_no_shape() {
    let mut params = history_params(22, vec![4, 4, 4, 4, 1], 128);
    params.round_commitments = 5;
    assert!(matches!(BaseFoldWireShape::derive(&params), Err(HistoryStepError::WireEncoding)));
    let mut params = history_params(22, vec![4, 4, 4, 4, 1], 128);
    params.log_packing = 30;
    assert!(matches!(BaseFoldWireShape::derive(&params), Err(HistoryStepError::WireEncoding)));
}

fn e(value: u128) -> WireF128 {
    WireF128 { lo: value as u64, hi: 1000 + value as u64 }
}

fn x(value: u128) -> WireF256 {
    WireF256 { lo: e(value), hi: e(value + 1) }
}

fn small_runtime() -> HistoryStepRuntime {
    HistoryStepRuntime {
        io_len: 3,
        classes: vec![HistoryStepClass {
            shape: FieldShape { m: 5, k_log: 3, k_skip: 1 },
            pcs_params: PcsParams {
                m: 5,
                log_packing: 0,
                log_batch_size: 1,
                log_inv_rate: 1,
                arities: vec![2, 2],
                round_commitments: 1,
                plaintext_tail: 2,
                queries: 2,
            },
            sidecar_len: 5,
        }],
    }
}

fn extension_list(n: usize, base: u128) -> Vec<WireF256> {
    (0..n).map(|i| x(base + 2 * i as u128)).collect()
}

fn small_terminal() -> HistoryStepTerminal {
    let shape = BaseFoldWireShape::derive(&small_runtime().classes[0].pcs_params).unwrap();
    let hashes = |n: usize, byte: u8| -> Vec<[u8; 32]> { (0..n).map(|_| [byte; 32]).collect() };
    let queries = (0..shape.queries)
        .map(|q| C1QueryOpening {
            position: 3 + q as u64,
            initial_leaf: (0..shape.initial_leaf).map(|i| e(i as u128 + 70)).collect(),
            initial_path: hashes(shape.initial_path, 5),
            post_row_batch_leaf: extension_list(shape.post_row_batch_leaf, 90),
            post_row_batch_path: hashes(shape.post_row_batch_path, 6),
            epoch_leaves: shape
                .epoch_shapes
                .iter()
                .map(|epoch| extension_list(epoch.0, 300))
                .collect(),
            epoch_paths: shape.epoch_shapes.iter().map(|epoch| hashes(epoch.1, 7)).collect(),
        })
        .collect();
    HistoryStepTerminal {
        height: 9,
        semantic_id: [1; 32],
        class_id: 0,
        commitment_root: [2; 32],
        io: vec![e(10), e(11), e(12)],
        field_proof: C1FieldR1csProof {
            round1_ab: extension_list(2, 20),
            round1_c: extension_list(2, 30),
            multilinear_rounds: (0..4).map(|i| (x(40 + i), x(50 + i))).collect(),
            final_a_eval: x(60),
            final_b_eval: x(61),
            final_c_eval: x(62),
            lincheck_rounds: (0..2).map(|i| (x(63 + i), x(65 + i))).collect(),
            z_partial: extension_list(2, 67),
            pcs_open: C1BaseFoldProof {
                round_messages: (0..shape.round_messages)
                    .map(|i| C1RoundMessage { u_0: x(i as u128), u_2: x(i as u128 + 9) })
                    .collect(),
                post_row_batch_commit: [3; 32],
                round_commitments: hashes(shape.round_commitments, 4),
                final_a: x(80),
                final_b: x(81),
                final_codeword: extension_list(shape.final_codeword, 82),
                plaintext_tail: extension_list(shape.plaintext_tail, 86),
                pow_nonce: 77,
                queries,
            },
        },
        sidecar: vec![1, 2, 3, 4, 5],
    }
}

fn accept(_: &HistoryStepTerminal) -> Result<(), HistoryStepError> {
    Ok(())
}

fn refuse(_: &HistoryStepTerminal) -> Result<(), HistoryStepError> {
    Err(HistoryStepError::Rejected)
}

#[test]
fn an_encoded_terminal_decodes_to_itself() {
    let runtime = small_runtime();
    let terminal = small_terminal();
    let bytes = encode_history_step_terminal(&runtime, &terminal, accept).unwrap();
    assert_eq!(bytes.len(), terminal_len_for_class(&runtime, 0).unwrap());
    assert_eq!(bytes.len(), history_step_terminal_max_wire_bytes(&runtime).unwrap());
    assert_eq!(bytes[0], 1);
    // After the prefix and the commitment come the inputs, low lane first.
    assert_eq!(&bytes[42 + 32..42 + 48], &[10, 0, 0, 0, 0, 0, 0, 0, 242, 3, 0, 0, 0, 0, 0, 0]);
    let back = decode_history_step_terminal(&runtime, &bytes, accept).unwrap();
    assert_eq!(back, terminal);
    let class = &runtime.classes[0];
    assert!(field_proof_len(class.shape, &class.pcs_params).unwrap() < bytes.len());
}

#[test]
fn a_terminal_off_the_frame_is_refused() {
    let runtime = small_runtime();
    let terminal = small_terminal();
    let bytes = encode_history_step_terminal(&runtime, &terminal, accept).unwrap();
    let mut version = bytes.clone();
    version[0] = 2;
    assert!(matches!(
        decode_history_step_terminal(&runtime, &version, accept),
        Err(HistoryStepError::WireVersion)
    ));
    let mut longer = bytes.clone();
    longer.push(0);
    assert_eq!(
        decode_history_step_terminal(&runtime, &longer, accept).err(),
        Some(HistoryStepError::WireLength { expected: bytes.len(), actual: bytes.len() + 1 })
    );
    assert!(matches!(
        decode_history_step_terminal(&runtime, &bytes[..10], accept),
        Err(_)
    ));
    assert_eq!(
        decode_history_step_terminal(&runtime, &bytes, refuse).err(),
        Some(HistoryStepError::Rejected)
    );
    assert_eq!(
        encode_history_step_terminal(&runtime, &terminal, refuse).err(),
        Some(HistoryStepError::Rejected)
    );
    let mut wide = small_terminal();
    wide.io.push(e(13));
    assert!(encode_history_step_terminal(&runtime, &wide, accept).is_err());
    let mut other = small_terminal();
    other.class_id = 1;
    assert_eq!(
        encode_history_step_terminal(&runtime, &other, accept).err(),
        Some(HistoryStepError::InvalidClass)
    );
    let verified =
        decode_verify_history_step_terminal(&runtime, &bytes, accept, |t: &HistoryStepTerminal| {
            Ok(t.height)
        });
    assert_eq!(verified, Ok(9));
}

#[test]
fn authorization_slots_are_the_least_power_of_two_that_holds_the_tier() {
    for (tier, slots) in [(0, 1), (1, 1), (25, 32), (255, 256), (256, 256), (1 << 63, 1 << 63)] {
        assert_eq!(ShapeClass { tier }.authorization_capacity(), slots, "tier {tier}");
    }
}
