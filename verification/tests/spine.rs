use noid_recursive::accepted_claim_hash::{
    build_accepted_claim_hash_slot, discharge_accepted_claim_hash_trace, AcceptedClaimHashInputs,
    AcceptedClaimHashInputsTrace, AcceptedClaimHashReductionsTrace, ClaimHash,
};
use noid_recursive::batch_eval::{BatchEvalReductionTrace, LinearEvalClaimTrace};
use noid_recursive::channel::RawChannelTrace;
use noid_recursive::circuit::{alloc_block, FieldR1cs, FieldR1csBuilder, LinExpr};
use noid_recursive::field::F128;
use noid_recursive::merkle_killshot::discharge_batched_merkle_trace;
use noid_recursive::merkle_path::{
    append_path_chain_claims_trace, MerkleCircuit, MerklePathInputsTrace,
};
use noid_recursive::merkle_slot::{build_batched_merkle_slot, MerklePathInputs};
use noid_recursive::poseidon::PoseidonTables;
use noid_recursive::shape::N_SPINE_SLOTS;
use noid_recursive::spine_claims::{sponge_chain_claims_trace, spine_point_index};
use noid_recursive::spine_family::SpineTags;
use noid_recursive::spine_proofs::{BlockSpineShiftProof, BlockSpineUnifiedProof, SpineProof};
use noid_recursive::spine_replay::{
    discharge_sponge_chains_trace, evaluate_block_spine_columns_trace, SpongeChainTrace,
};
use noid_recursive::tx_body_spine::{
    build_tx_body_slot, tx_hash_pin_claims_trace, InstanceRole, SpineInputs, SpineSlot,
};

const TAGS: SpineTags = SpineTags { linear: 7, relation: 8, batch: 9 };

fn element(value: u128) -> F128 {
    F128::from_u128(value)
}

fn tables() -> PoseidonTables {
    let mut rc = Vec::new();
    for round in 0..5u128 {
        rc.push([
            element(1 + 7 * round),
            element(2 + 11 * round),
            element(3 + 13 * round),
            element(4 + 17 * round),
        ]);
    }
    let row = |a: u128, b: u128, c: u128, d: u128| [element(a), element(b), element(c), element(d)];
    PoseidonTables {
        rc,
        mds_full: [row(5, 7, 1, 3), row(4, 6, 1, 1), row(1, 3, 5, 7), row(1, 1, 4, 6)],
        mds_partial: [row(9, 1, 1, 1), row(1, 8, 1, 1), row(1, 1, 7, 1), row(1, 1, 1, 6)],
        half_full: 2,
        partials: 1,
    }
}

fn absorb(state: [F128; 4], block: [F128; 2]) -> [F128; 4] {
    [state[0].add(block[0]), state[1].add(block[1]), state[2], state[3]]
}

/// The states that the slots of a sponge start from, and its last state.
fn sponge(t: &PoseidonTables, iv: [F128; 2], blocks: &[[F128; 2]]) -> (Vec<[F128; 4]>, [F128; 4]) {
    let mut state = [F128::zero(), F128::zero(), iv[0], iv[1]];
    let mut raws = Vec::new();
    for block in blocks {
        let raw = absorb(state, *block);
        raws.push(raw);
        state = t.permute(&raw);
    }
    (raws, state)
}

fn point_values(n: usize) -> Vec<F128> {
    (0..n).map(|i| element(1_000 + 37 * i as u128)).collect()
}

/// The three columns of slots at a point.
fn columns(t: &PoseidonTables, raws: &[[F128; 4]], n: usize) -> [F128; 3] {
    columns_at(t, raws, &point_values(n))
}

fn columns_at(t: &PoseidonTables, raws: &[[F128; 4]], at: &[F128]) -> [F128; 3] {
    let mut b = FieldR1csBuilder::new();
    let point: Vec<LinExpr> = at.iter().map(|&v| alloc_block(&mut b, v)).collect();
    let states: Vec<[LinExpr; 4]> =
        raws.iter().map(|raw| raw.map(|lane| alloc_block(&mut b, lane))).collect();
    let (state, sin, sout) = evaluate_block_spine_columns_trace(&mut b, t, &states, &point);
    let values =
        [state.eval(b.values()), sin.eval(b.values()), sout.eval(b.values())];
    let (r1cs, z) = b.build();
    assert!(r1cs.satisfies(&z));
    values
}

fn reductions(
    b: &mut FieldR1csBuilder,
    n: usize,
    values: [F128; 3],
) -> [BatchEvalReductionTrace; 3] {
    values.map(|value| BatchEvalReductionTrace {
        point: point_values(n).iter().map(|&v| alloc_block(b, v)).collect(),
        value: alloc_block(b, value),
    })
}

/// The multilinear extension of the three columns, cell by cell.
fn direct_columns(t: &PoseidonTables, raws: &[[F128; 4]], point: &[F128]) -> [F128; 3] {
    let weight = |index: usize| {
        point.iter().enumerate().fold(F128::one(), |w, (i, &p)| {
            if (index >> i) & 1 == 1 { w.mul(p) } else { w.mul(p.add(F128::one())) }
        })
    };
    let rounds = t.rc.len();
    let mut sums = [F128::zero(); 3];
    for (slot, raw) in raws.iter().enumerate() {
        let mut state = t.initial_mds(raw);
        for round in 0..=rounds {
            for lane in 0..4 {
                let w = weight(lane + 4 * round + 512 * slot);
                sums[0] = sums[0].add(w.mul(state[lane]));
                if round < rounds && (!t.is_partial(round) || lane == 0) {
                    let input = state[lane].add(t.rc[round][lane]);
                    let square = input.mul(input);
                    let cube = square.mul(input);
                    let output = cube.mul(cube).mul(input);
                    sums[1] = sums[1].add(w.mul(input));
                    sums[2] = sums[2].add(w.mul(output));
                }
            }
            if round < rounds {
                state = t.apply_round(round, &state);
            }
        }
    }
    sums
}

#[test]
fn column_evaluation_trace_matches_native() {
    let t = tables();
    let raws: Vec<[F128; 4]> = (0..3u128)
        .map(|i| [element(5 + i), element(80 * i), element(3), element(i)])
        .collect();
    assert_eq!(columns(&t, &raws, 11), direct_columns(&t, &raws, &point_values(11)));

    // Two slots over ten variables, at a dense point and at cells of the column.
    let raws = &raws[..2];
    let mut s = 0xABCDu128;
    let dense: Vec<F128> = (0..10)
        .map(|_| {
            s = s.wrapping_mul(0x9E37_79B9_7F4A_7C15).wrapping_add(7);
            element(s)
        })
        .collect();
    let cell = |slot: usize, round: usize, lane: usize| -> Vec<F128> {
        let index = lane + 4 * round + 512 * slot;
        (0..10).map(|i| element((index as u128 >> i) & 1)).collect()
    };
    for point in [dense, cell(1, 3, 2), cell(1, 1, 0), cell(0, 0, 0)] {
        assert_eq!(columns_at(&t, raws, &point), direct_columns(&t, raws, &point));
    }
    assert_eq!(columns_at(&t, raws, &cell(0, 0, 0))[0], t.initial_mds(&raws[0])[0]);
    assert_eq!(columns_at(&t, raws, &cell(1, 0, 2))[0], t.initial_mds(&raws[1])[2]);
}

fn chain_wires(
    b: &mut FieldR1csBuilder,
    blocks: &[[F128; 2]],
    iv: [F128; 2],
    digest: [F128; 2],
) -> SpongeChainTrace {
    SpongeChainTrace {
        blocks: blocks.iter().map(|block| block.map(|lane| alloc_block(b, lane))).collect(),
        iv,
        expected: digest.map(|lane| alloc_block(b, lane)),
    }
}

#[test]
fn sponge_chains_discharge_exactly_on_their_digests_and_columns() {
    let t = tables();
    let iv = [element(17), element(18)];
    let first = [[element(1), element(2)], [element(3), element(4)]];
    let second = [[element(9), element(8)]];
    let (mut raws, end) = sponge(&t, iv, &first);
    let (more, last) = sponge(&t, iv, &second);
    raws.extend(more);
    let values = columns(&t, &raws, 11);
    for fault in 0..6 {
        let mut b = FieldR1csBuilder::new();
        let mut digest = [end[0], end[1]];
        let mut claimed = values;
        if fault == 1 {
            digest[0] = digest[0].add(F128::one());
        }
        if fault == 2 {
            digest[1] = digest[1].add(F128::one());
        }
        if fault >= 3 {
            claimed[fault - 3] = claimed[fault - 3].add(F128::one());
        }
        let chains = vec![
            chain_wires(&mut b, &first, iv, digest),
            chain_wires(&mut b, &second, iv, [last[0], last[1]]),
        ];
        let reds = reductions(&mut b, 11, claimed);
        discharge_sponge_chains_trace(&mut b, &t, &chains, &reds);
        let (r1cs, z) = b.build();
        assert_eq!(r1cs.satisfies(&z), fault == 0, "fault {fault}");
    }
}

/// A claim over a column of cells.
fn claim_holds(b: &FieldR1csBuilder, claim: &LinearEvalClaimTrace, column: &[F128]) -> bool {
    let sum = claim.terms.iter().fold(F128::zero(), |sum, term| {
        sum.add(term.coeff.eval(b.values()).mul(column[term.index]))
    });
    sum == claim.value.eval(b.values())
}

fn state_column(t: &PoseidonTables, raws: &[[F128; 4]], n: usize) -> Vec<F128> {
    let mut column = vec![F128::zero(); 1 << n];
    for (slot, raw) in raws.iter().enumerate() {
        let mut state = t.initial_mds(raw);
        for round in 0..=t.rc.len() {
            for lane in 0..4 {
                column[spine_point_index(n, slot, round, lane)] = state[lane];
            }
            if round < t.rc.len() {
                state = t.apply_round(round, &state);
            }
        }
    }
    column
}

#[test]
fn sponge_claims_hold_of_the_sponge_and_of_no_other_digest() {
    let t = tables();
    let iv = [element(17), element(18)];
    let blocks = [[element(1), element(2)], [element(3), element(4)], [element(5), element(6)]];
    let (raws, end) = sponge(&t, iv, &blocks);
    let column = state_column(&t, &raws, 11);
    let mut b = FieldR1csBuilder::new();
    let wires: Vec<[LinExpr; 2]> =
        blocks.iter().map(|block| block.map(|lane| alloc_block(&mut b, lane))).collect();
    let digest = vec![alloc_block(&mut b, end[0]), alloc_block(&mut b, end[1])];
    let claims = sponge_chain_claims_trace(&t, &wires, &iv, &digest, 0, 11);
    assert_eq!(claims.len(), 4 * 3 + 2);
    assert!(claims.iter().all(|claim| claim_holds(&b, claim, &column)));
    let wrong = vec![alloc_block(&mut b, end[1]), alloc_block(&mut b, end[0])];
    let claims = sponge_chain_claims_trace(&t, &wires, &iv, &wrong, 0, 11);
    assert!(claims.iter().any(|claim| !claim_holds(&b, claim, &column)));
}

fn circuit() -> MerkleCircuit {
    MerkleCircuit { node_tag: 77, iv: [element(21), element(22)] }
}

/// A path and the states that its slots start from.
fn path(t: &PoseidonTables, seed: u128, depth: usize, mask: u32) -> (MerklePathInputs, Vec<[F128; 4]>) {
    let iv = circuit().iv;
    let leaf = [element(seed), element(seed * 3 + 1)];
    let mut node = leaf;
    let mut siblings = Vec::new();
    let mut directions = Vec::new();
    let mut raws = Vec::new();
    for level in 0..depth {
        let sibling = [element(seed + 100 + level as u128), element(seed + 200 + level as u128)];
        let right = (mask >> level) & 1 == 1;
        let (l, r) = if right { (sibling, node) } else { (node, sibling) };
        let first = [l[0], l[1], iv[0], iv[1]];
        let second = absorb(t.permute(&first), r);
        raws.push(first);
        raws.push(second);
        node = t.compress(&iv, &l, &r);
        siblings.push(sibling);
        directions.push(right);
    }
    siblings.push([F128::zero(), F128::zero()]);
    directions.push(false);
    let inputs = MerklePathInputs {
        leaf,
        siblings,
        directions,
        expected_root: node,
        active_depth: depth,
    };
    (inputs, raws)
}

#[test]
fn path_claims_hold_of_the_path_and_of_no_other_root() {
    let t = tables();
    for mask in [0u32, 1, 2, 5, 7] {
        let (mut inputs, raws) = path(&t, 50, 3, mask);
        let column = state_column(&t, &raws, 12);
        let mut b = FieldR1csBuilder::new();
        let wires = MerklePathInputsTrace::allocate(&mut b, &inputs);
        let mut claims = Vec::new();
        append_path_chain_claims_trace(&mut b, &t, &circuit(), &wires, 0, 12, &mut claims);
        assert_eq!(claims.len(), 8 * 3 + 2);
        assert!(claims.iter().all(|claim| claim_holds(&b, claim, &column)), "mask {mask}");
        inputs.expected_root[0] = inputs.expected_root[0].add(F128::one());
        let wires = MerklePathInputsTrace::allocate(&mut b, &inputs);
        let mut claims = Vec::new();
        append_path_chain_claims_trace(&mut b, &t, &circuit(), &wires, 0, 12, &mut claims);
        assert!(claims.iter().any(|claim| !claim_holds(&b, claim, &column)));
    }
}

#[test]
fn paths_discharge_exactly_on_their_roots_and_columns() {
    let t = tables();
    let (left, mut raws) = path(&t, 50, 2, 1);
    let (right, more) = path(&t, 90, 1, 0);
    raws.extend(more);
    let values = columns(&t, &raws, 12);
    for fault in 0..5 {
        let mut b = FieldR1csBuilder::new();
        let mut wires = vec![
            MerklePathInputsTrace::allocate(&mut b, &left),
            MerklePathInputsTrace::allocate(&mut b, &right),
        ];
        if fault == 1 {
            wires[1].expected_root[1] = alloc_block(&mut b, element(4));
        }
        let mut claimed = values;
        if fault >= 2 {
            claimed[fault - 2] = claimed[fault - 2].add(F128::one());
        }
        let reds = reductions(&mut b, 12, claimed);
        discharge_batched_merkle_trace(&mut b, &t, &circuit(), &wires, &reds);
        let (r1cs, z) = b.build();
        assert_eq!(r1cs.satisfies(&z), fault == 0, "fault {fault}");
    }
}

fn blank_proof(n: usize, value: u128) -> SpineProof {
    let v = element(value);
    SpineProof {
        main: BlockSpineUnifiedProof {
            round_polys: (0..n).map(|_| vec![v; 9]).collect(),
            s_in_dec_at_r: v,
            s_out_dec_at_r: v,
            state_dec_at_r: v,
            state_at_r: v,
            s_out_lane_dec_at_r: [v; 4],
            state_lane_dec_at_r: [v; 4],
        },
        shift: BlockSpineShiftProof {
            round_polys: (0..n).map(|_| vec![v; 2]).collect(),
            s_in_at_r2: v,
            s_out_at_r2: v,
            state_at_r2: v,
        },
        chain_rounds: vec![[v; 2]; n],
        chain_final: v,
        batch_rounds: vec![[v; 2]; n],
        batch_finals: vec![v; 3],
    }
}

fn merkle_slot(seed: u128, mask: u32, value: u128) -> (FieldR1cs, Vec<F128>) {
    let t = tables();
    let (inputs, _) = path(&t, seed, 2, mask);
    let mut b = FieldR1csBuilder::new();
    let challenges = (0..200).map(|i| element(3 + 5 * i)).collect();
    let wires = build_batched_merkle_slot(
        &mut b,
        &t,
        &circuit(),
        &blank_proof(11, value),
        &vec![inputs],
        11,
        challenges,
        TAGS,
    );
    assert_eq!(wires.len(), 1);
    b.build()
}

#[test]
fn merkle_path_fixed_matrix_within_class() {
    let (left, _) = merkle_slot(50, 1, 3);
    let (right, _) = merkle_slot(7_777, 2, 4);
    assert_eq!(left.useful_rows, right.useful_rows);
    assert!(left.rows == right.rows, "the matrix depends on content");
}

#[test]
fn a_proof_of_nothing_does_not_satisfy_a_path_slot() {
    let (r1cs, z) = merkle_slot(50, 1, 3);
    assert!(!r1cs.satisfies(&z));
}

/// Fifteen nodes of two slots each, then the wrap.
fn layout() -> Vec<SpineSlot> {
    let (node_iv, wrap_iv) = ([element(31), element(32)], [element(33), element(34)]);
    let mut slots = Vec::new();
    let mut below: Vec<usize> = Vec::new();
    for level in 1..=4u8 {
        let mut outputs = Vec::new();
        for pos in 0..(16u8 >> level) {
            let id = slots.len();
            let child = |side: usize| {
                if level == 1 { None } else { Some(below[2 * pos as usize + side]) }
            };
            slots.push(SpineSlot {
                role: InstanceRole::CompressPermA { level, pos },
                left_child: child(0),
                right_child: None,
                prev_output_src: None,
                capacity_iv: node_iv,
            });
            slots.push(SpineSlot {
                role: InstanceRole::CompressPermB { level, pos },
                left_child: None,
                right_child: child(1),
                prev_output_src: Some(id),
                capacity_iv: node_iv,
            });
            outputs.push(id + 1);
        }
        below = outputs;
    }
    slots.push(SpineSlot {
        role: InstanceRole::WrapPerm,
        left_child: Some(below[0]),
        right_child: None,
        prev_output_src: None,
        capacity_iv: wrap_iv,
    });
    slots
}

#[test]
fn final_topology_is_31_contiguous_slots_per_transaction() {
    let slots = layout();
    assert_eq!(N_SPINE_SLOTS, 31);
    assert_eq!(slots.len(), N_SPINE_SLOTS);
    assert!(matches!(slots[0].role, InstanceRole::CompressPermA { level: 1, pos: 0 }));
    assert!(matches!(slots[29].role, InstanceRole::CompressPermB { level: 4, pos: 0 }));
    assert!(matches!(slots[30].role, InstanceRole::WrapPerm));
    let hashes = vec![
        [LinExpr::zero(), LinExpr::zero()],
        [LinExpr::zero(), LinExpr::zero()],
    ];
    let claims = tx_hash_pin_claims_trace(&hashes, N_SPINE_SLOTS, 58, 15);
    assert_eq!(
        claims[2].terms[0].index,
        spine_point_index(15, 61, 58, 0),
        "the second wrap must be slot 61, with no per-tx padding gap"
    );
}

fn body_slot(seed: u128, value: u128) -> (FieldR1cs, Vec<F128>) {
    let t = tables();
    let leaves: Vec<[F128; 2]> = (0..16u128)
        .map(|leaf| [element(seed + 1 + 2 * leaf), element(seed + 2 + 2 * leaf)])
        .collect();
    let mut b = FieldR1csBuilder::new();
    let challenges = (0..300).map(|i| element(3 + 5 * i)).collect();
    let (bodies, hashes) = build_tx_body_slot(
        &mut b,
        &t,
        &layout(),
        &blank_proof(14, value),
        &vec![SpineInputs { leaves }],
        &vec![[element(seed), element(seed + 9)]],
        14,
        challenges,
        TAGS,
    );
    assert_eq!(bodies[0].leaves[3][1].eval(b.values()), element(seed + 8));
    assert_eq!(hashes[0][1].eval(b.values()), element(seed + 9));
    b.build()
}

#[test]
fn tx_body_spine_fixed_matrix_within_class() {
    let (left, left_witness) = body_slot(5, 3);
    let (right, _) = body_slot(987_654, 4);
    assert!(left.rows == right.rows, "the matrix depends on content");
    assert!(!left.satisfies(&left_witness));
}

fn claim_inputs(t: &PoseidonTables, hash: &ClaimHash, seed: u128) -> (AcceptedClaimHashInputs, Vec<[F128; 4]>) {
    let fields: Vec<F128> = (0..80).map(|i| element(seed.wrapping_mul(0x9E37) + i)).collect();
    let blocks: Vec<[F128; 2]> =
        fields.chunks(2).map(|pair| [pair[0], pair[1]]).collect();
    let (raws, end) = sponge(t, hash.iv, &blocks);
    let inputs = AcceptedClaimHashInputs { fields, expected_claim: vec![end[0], end[1]] };
    (inputs, raws)
}

#[test]
fn claims_discharge_exactly_on_their_hashes() {
    let t = tables();
    let hash = ClaimHash { tag: 5, iv: [element(61), element(62)] };
    let (inputs, raws) = claim_inputs(&t, &hash, 7);
    let values = columns(&t, &raws, 15);
    for fault in 0..3 {
        let mut b = FieldR1csBuilder::new();
        let mut wires = AcceptedClaimHashInputsTrace::allocate(&mut b, &inputs);
        if fault == 1 {
            wires.expected_claim[1] = alloc_block(&mut b, element(4));
        }
        if fault == 2 {
            wires.fields[79] = alloc_block(&mut b, element(4));
        }
        let [state, sin, sout] = reductions(&mut b, 15, values);
        let reds = AcceptedClaimHashReductionsTrace { state, sin, sout };
        discharge_accepted_claim_hash_trace(&mut b, &t, &hash, &vec![wires], &reds);
        let (r1cs, z) = b.build();
        assert_eq!(r1cs.satisfies(&z), fault == 0, "fault {fault}");
    }
}

#[test]
fn a_claim_slot_keeps_its_inputs_and_refuses_a_blank_proof() {
    let t = tables();
    let hash = ClaimHash { tag: 5, iv: [element(61), element(62)] };
    let (inputs, _) = claim_inputs(&t, &hash, 7);
    let field = inputs.fields[41];
    let mut b = FieldR1csBuilder::new();
    let mut ch = RawChannelTrace::new((0..300).map(|i| element(3 + 5 * i)).collect());
    let (wires, reds) = build_accepted_claim_hash_slot(
        &mut b,
        &mut ch,
        &t,
        &hash,
        &blank_proof(15, 3),
        &vec![inputs],
        15,
        TAGS,
    );
    assert_eq!(wires[0].fields[41].eval(b.values()), field);
    assert_eq!(reds.state.point.len(), 15);
    let (r1cs, z) = b.build();
    assert!(!r1cs.satisfies(&z));
}
