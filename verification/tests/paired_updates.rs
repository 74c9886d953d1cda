use std::collections::HashMap;

use noid_recursive::field::F128;
use noid_recursive::paired_merkle_update::{
    build_paired_merkle_update_columns, paired_update_root_offsets, paired_update_slots,
    PairedMerkleUpdateColumns, PairedMerkleUpdateWitness, PAIRED_UPDATE_DEPTH,
    PAIRED_UPDATE_SLOTS_PER_LEVEL,
};
use noid_recursive::paired_relations::{
    paired_merkle_update_consistency_terms, paired_merkle_update_fixed_patterns,
    paired_merkle_update_refs, paired_merkle_update_substitution_terms,
};
use noid_recursive::poseidon::PoseidonTables;
use noid_recursive::relations::{ColRef, RelationTerm};

fn element(value: u128) -> F128 {
    F128::from_u128(value)
}

fn tables() -> PoseidonTables {
    let mut rc = Vec::new();
    for round in 0..5u128 {
        rc.push([
            element(1 + 7 * round),
            element(2 + 11 * round),
            element(3 + 13 * round),
            element(4 + 17 * round),
        ]);
    }
    let row = |a: u128, b: u128, c: u128, d: u128| [element(a), element(b), element(c), element(d)];
    PoseidonTables {
        rc,
        mds_full: [row(5, 7, 1, 3), row(4, 6, 1, 1), row(1, 3, 5, 7), row(1, 1, 4, 6)],
        mds_partial: [row(9, 1, 1, 1), row(1, 8, 1, 1), row(1, 1, 7, 1), row(1, 1, 1, 6)],
        half_full: 2,
        partials: 1,
    }
}

fn iv() -> [F128; 2] {
    [element(91), element(92)]
}

struct Rng(u64);

impl Rng {
    fn next_u64(&mut self) -> u64 {
        self.0 = self.0.wrapping_add(0x9E37_79B9_7F4A_7C15);
        let mut z = self.0;
        z = (z ^ (z >> 30)).wrapping_mul(0xBF58_476D_1CE4_E5B9);
        z = (z ^ (z >> 27)).wrapping_mul(0x94D0_49BB_1331_11EB);
        z ^ (z >> 31)
    }

    fn digest(&mut self) -> [F128; 2] {
        [F128::new(self.next_u64(), self.next_u64()), F128::new(self.next_u64(), self.next_u64())]
    }

    fn update(&mut self) -> PairedMerkleUpdateWitness {
        let mut siblings = [[F128::zero(); 2]; 16];
        let mut directions = [false; 16];
        for level in 0..16 {
            siblings[level] = self.digest();
            directions[level] = self.next_u64() & 1 == 1;
        }
        PairedMerkleUpdateWitness {
            old_entry: self.digest(),
            new_entry: self.digest(),
            siblings,
            directions,
        }
    }
}

fn fold_path(
    t: &PoseidonTables,
    leaf: [F128; 2],
    update: &PairedMerkleUpdateWitness,
    depth: usize,
) -> [F128; 2] {
    let mut node = leaf;
    for level in 0..depth {
        let sibling = update.siblings[level];
        node = if update.directions[level] {
            t.compress(&iv(), &sibling, &node)
        } else {
            t.compress(&iv(), &node, &sibling)
        };
    }
    node
}

/// The sum of a relation's terms at a row. `internal` holds the spine's columns.
fn residual(
    columns: &PairedMerkleUpdateColumns,
    internal: &Vec<Vec<F128>>,
    terms: &Vec<RelationTerm>,
    row: usize,
) -> F128 {
    let committed = columns.committed_columns();
    let fixed = paired_merkle_update_fixed_patterns(iv());
    let mut sum = F128::zero();
    for term in terms {
        let mut value = term.coeff;
        for factor in &term.factors {
            let cell = match factor {
                ColRef::Committed(column) => committed[*column][row],
                ColRef::CommittedShift(column) => {
                    row.checked_sub(1).map_or(F128::zero(), |at| committed[*column][at])
                }
                ColRef::CommittedShift2(column) => {
                    row.checked_sub(2).map_or(F128::zero(), |at| committed[*column][at])
                }
                ColRef::Fixed(pattern) => {
                    let table = &fixed[*pattern].table;
                    table[row % (1 << fixed[*pattern].log_period)]
                }
                ColRef::Internal(lane) => internal[*lane][row],
                ColRef::Window { .. } => panic!("unexpected factor"),
            };
            value = value.mul(cell);
        }
        sum = sum.add(value);
    }
    sum
}

fn consistency_relation_holds(columns: &PairedMerkleUpdateColumns) -> bool {
    let refs = paired_merkle_update_refs(0, 0);
    let mix = F128::new(0x91D2_4B7A_6E31_5C0F, 0x2874_C9A0_B35E_16D1);
    let terms = paired_merkle_update_consistency_terms(&refs, mix);
    let none = Vec::new();
    (0..columns.c[0].len()).all(|row| residual(columns, &none, &terms, row) == F128::zero())
}

#[test]
fn b255_structural_geometry_is_exact() {
    assert_eq!(paired_update_slots(1531) + paired_update_slots(256), 114_368);
}

#[test]
fn root_offsets_follow_the_odd_slots() {
    assert_eq!(paired_update_root_offsets(1), [1, 3]);
    assert_eq!(paired_update_root_offsets(8), [29, 31]);
    assert_eq!(paired_update_root_offsets(16), [61, 63]);
}

#[test]
fn paired_roots_match_exact_state_node_hash_paths() {
    let t = tables();
    let update = Rng(0xA11C_E001).update();
    let columns = build_paired_merkle_update_columns(&t, &vec![update], iv(), 6);
    assert_eq!(columns.roots_before[0], fold_path(&t, update.old_entry, &update, 16));
    assert_eq!(columns.roots_after[0], fold_path(&t, update.new_entry, &update, 16));
    assert!(consistency_relation_holds(&columns));
}

#[test]
fn root_extraction_supports_upper_depth_eight_and_full_sixteen() {
    let t = tables();
    let update = Rng(0xA11C_E005).update();
    let columns = build_paired_merkle_update_columns(&t, &vec![update], iv(), 6);
    assert_eq!(paired_update_root_offsets(8), [29, 31]);
    assert_eq!(paired_update_root_offsets(16), [61, 63]);
    for depth in [8, PAIRED_UPDATE_DEPTH] {
        let (before, after) = columns.update_roots_at_depth(0, depth);
        assert_eq!(before, fold_path(&t, update.old_entry, &update, depth));
        assert_eq!(after, fold_path(&t, update.new_entry, &update, depth));
    }
}

#[test]
fn sibling_and_direction_copies_are_algebraically_required() {
    let t = tables();
    let mut rng = Rng(0xA11C_E002);
    let update = rng.update();
    let columns = build_paired_merkle_update_columns(&t, &vec![update], iv(), 6);
    assert!(consistency_relation_holds(&columns));
    let mut bad_sibling = build_paired_merkle_update_columns(&t, &vec![rng.update()], iv(), 6);
    bad_sibling.sib[0][2] = bad_sibling.sib[0][2].add(F128::one());
    assert!(!consistency_relation_holds(&bad_sibling));
    let mut bad_direction = columns;
    bad_direction.d[2] = bad_direction.d[2].add(F128::one());
    assert!(!consistency_relation_holds(&bad_direction));
}

#[test]
fn bridge_cells_and_old_direction_booleanity_are_required() {
    let t = tables();
    let update = Rng(0xA11C_E006).update();
    let mut bad_old_bridge = build_paired_merkle_update_columns(&t, &vec![update], iv(), 6);
    bad_old_bridge.e[0][3] = bad_old_bridge.e[0][3].add(F128::one());
    assert!(!consistency_relation_holds(&bad_old_bridge));
    let mut bad_new_bridge = build_paired_merkle_update_columns(&t, &vec![update], iv(), 6);
    bad_new_bridge.e[1][5] = bad_new_bridge.e[1][5].add(F128::one());
    assert!(!consistency_relation_holds(&bad_new_bridge));
    let mut non_boolean = build_paired_merkle_update_columns(&t, &vec![update], iv(), 6);
    let value = element(2);
    assert_ne!(value, F128::zero());
    assert_ne!(value, F128::one());
    non_boolean.d[..PAIRED_UPDATE_SLOTS_PER_LEVEL].fill(value);
    assert!(!consistency_relation_holds(&non_boolean));
}

/// Updates of leaves of a tree of sixteen levels that is empty elsewhere, one after
/// the other: each witness, with the roots before and after.
fn sequential_updates(
    t: &PoseidonTables,
    indices: &[usize],
    old: &[[F128; 2]],
    new: &[[F128; 2]],
    empty: [F128; 2],
) -> Vec<(PairedMerkleUpdateWitness, [F128; 2], [F128; 2])> {
    let mut zero_roots = vec![empty];
    for level in 0..16 {
        let below = zero_roots[level];
        zero_roots.push(t.compress(&iv(), &below, &below));
    }
    let mut nodes: HashMap<(usize, usize), [F128; 2]> = HashMap::new();
    let set = |nodes: &mut HashMap<(usize, usize), [F128; 2]>, index: usize, leaf: [F128; 2]| {
        let mut siblings = [[F128::zero(); 2]; 16];
        let mut directions = [false; 16];
        nodes.insert((0, index), leaf);
        for level in 0..16 {
            let at = index >> level;
            let child = nodes[&(level, at)];
            siblings[level] = *nodes.get(&(level, at ^ 1)).unwrap_or(&zero_roots[level]);
            directions[level] = at % 2 == 1;
            let parent = if at % 2 == 1 {
                t.compress(&iv(), &siblings[level], &child)
            } else {
                t.compress(&iv(), &child, &siblings[level])
            };
            nodes.insert((level + 1, at / 2), parent);
        }
        (siblings, directions)
    };
    for (index, leaf) in indices.iter().zip(old) {
        set(&mut nodes, *index, *leaf);
    }
    let mut steps = Vec::new();
    for i in 0..indices.len() {
        let before = nodes[&(16, 0)];
        let (siblings, directions) = set(&mut nodes, indices[i], new[i]);
        let update =
            PairedMerkleUpdateWitness { old_entry: old[i], new_entry: new[i], siblings, directions };
        steps.push((update, before, nodes[&(16, 0)]));
    }
    steps
}

/// The hash of a slot: its packed amount and number, and its owner.
fn slot_hash(t: &PoseidonTables, amount: u128, id: u128, owner: [u128; 2]) -> [F128; 2] {
    let value = element(amount | (id << 64));
    t.compress(&[element(51), element(52)], &[value, element(owner[0])], &[
        element(owner[1]),
        F128::zero(),
    ])
}

#[test]
fn two_sequential_updates_chain_end_to_end() {
    let t = tables();
    let old_a = slot_hash(&t, 11, 1, [2, 3]);
    let old_b = slot_hash(&t, 17, 2, [4, 5]);
    let new_a = slot_hash(&t, 0, 0, [0, 0]);
    let new_b = slot_hash(&t, 19, 3, [6, 7]);
    let steps = sequential_updates(&t, &[7, 32_769], &[old_a, old_b], &[new_a, new_b], new_a);
    let updates: Vec<PairedMerkleUpdateWitness> = steps.iter().map(|step| step.0).collect();
    let columns = build_paired_merkle_update_columns(&t, &updates, iv(), 7);
    assert_eq!(columns.roots_before[0], steps[0].1);
    assert_eq!(columns.roots_after[0], columns.roots_before[1]);
    assert_eq!(columns.roots_after[1], steps[1].2);
    assert!(consistency_relation_holds(&columns));
    assert!(substitution_relation_holds(&t, &columns));
}

/// Every slot starts from the matrix of its inputs.
fn substitution_relation_holds(t: &PoseidonTables, columns: &PairedMerkleUpdateColumns) -> bool {
    let alpha = element(77);
    let terms =
        paired_merkle_update_substitution_terms(t, &paired_merkle_update_refs(0, 0), alpha);
    let none = Vec::new();
    (0..columns.c[0].len()).all(|row| {
        let mut power = alpha;
        let mut target = F128::zero();
        for lane in 0..4 {
            target = target.add(power.mul(columns.s0[lane][row]));
            power = power.mul(alpha);
        }
        residual(columns, &none, &terms, row) == target
    })
}

#[test]
fn patterns_and_shape_are_content_invariant_and_honest_padding_is_valid() {
    let t = tables();
    let mut rng = Rng(0xA11C_E003);
    let first = build_paired_merkle_update_columns(&t, &vec![rng.update()], iv(), 7);
    let second =
        build_paired_merkle_update_columns(&t, &vec![rng.update(), rng.update()], iv(), 7);
    assert_eq!(first.c[0].len(), second.c[0].len());
    assert_eq!(first.committed_columns().len(), 9);
    assert_eq!(second.committed_columns().len(), 9);
    assert_eq!(
        paired_merkle_update_fixed_patterns(iv()),
        paired_merkle_update_fixed_patterns(iv())
    );
    assert_eq!(first.roots_before.len(), 2);
    assert_eq!(first.roots_before[1], first.roots_after[1]);
    assert!(consistency_relation_holds(&first));
}

#[test]
fn live_zero_sibling_is_not_padding() {
    let t = tables();
    let mut update = Rng(0xA11C_E004).update();
    update.siblings[7] = [F128::zero(); 2];
    let columns = build_paired_merkle_update_columns(&t, &vec![update], iv(), 6);
    assert_eq!(columns.roots_after[0], fold_path(&t, update.new_entry, &update, 16));
    assert_ne!(columns.roots_before[0], columns.roots_after[0]);
    assert_eq!(columns.live_updates, 1);
    assert_eq!(columns.sib[0][4 * 7], F128::zero());
    assert_eq!(columns.sib[1][4 * 7], F128::zero());
    assert!(consistency_relation_holds(&columns));
}

#[test]
fn every_slot_starts_from_the_matrix_of_its_inputs() {
    let t = tables();
    let update = Rng(0xA11C_E007).update();
    let columns = build_paired_merkle_update_columns(&t, &vec![update], iv(), 6);
    let refs = paired_merkle_update_refs(0, 0);
    let alpha = element(77);
    let terms = paired_merkle_update_substitution_terms(&t, &refs, alpha);
    let none = Vec::new();
    for row in 0..64 {
        // The slots' first states under the powers of the challenge.
        let mut power = alpha;
        let mut target = F128::zero();
        for lane in 0..4 {
            target = target.add(power.mul(columns.s0[lane][row]));
            power = power.mul(alpha);
        }
        assert_eq!(residual(&columns, &none, &terms, row), target, "row {row}");
    }
}
