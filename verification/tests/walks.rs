use noid_recursive::c1_claims::{
    c1_shift_count, c1_shift_requests, preflight_c1_relation, preflight_c1_shifts,
    request_c1_merkle_suffix, shift_log, verify_c1_duplex_walk_prefix,
    verify_c1_duplex_walk_suffix, verify_c1_walk_a_walk_prefix_trace, C1LaneClaimGroup,
    C1WalkPrefix, RegionSidecarError, RelationOutcome, RelationShape, ShiftOutcome,
    UnionVerifyError,
};
use noid_recursive::c1_terms::{
    c1_carry_selection_terms, c1_merkle_substitution_terms, c1_merkle_zero_terms,
    merkle_substitution_shapes, merkle_zero_shapes, FfMerkleFamilyRefs, MerkleProtocolFamily,
};
use noid_recursive::paired_relations::paired_merkle_update_refs;
use noid_recursive::poseidon::PoseidonTables;
use noid_recursive::circuit::FieldR1csBuilder;
use noid_recursive::extension::{mul_ext, ExtExpr, Extension, F256};
use noid_recursive::field::F128;
use noid_recursive::matrix_fold_c1::{
    verify_matrix_claim_fold_c1_trace, C1FreshLincheckClaimTrace, C1MatrixAccClaimTrace,
    C1MatrixFoldProofTrace,
};
use noid_recursive::channel::RawChannelTrace;
use noid_recursive::circuit::{alloc_block, LinExpr};
use noid_recursive::relations::ColRef;

fn element(value: u128) -> F128 {
    F128::from_u128(value)
}

fn x(value: u128) -> F256 {
    F256 { lo: element(value), hi: element(3 * value + 1) }
}

fn extension() -> Extension {
    Extension { trace: F128::one(), norm: element(77) }
}

#[test]
fn selection_terms_weigh_the_carried_columns_by_powers() {
    let terms = c1_carry_selection_terms(&extension(), &[4, 5, 6, 7], x(9));
    assert!(!terms.is_empty());
    assert!(terms.iter().any(|term| term.factors.contains(&ColRef::Committed(7))));
}

#[test]
fn a_selection_leaves_its_columns_and_its_lanes() {
    let selection: RelationOutcome<F256, u8> = RelationOutcome {
        references: vec![ColRef::Committed(4), ColRef::Internal(2)],
        final_values: vec![x(1), x(2)],
        point: Ok(vec![x(5), x(6)]),
    };
    let prefix = verify_c1_duplex_walk_prefix(selection).unwrap();
    assert_eq!(prefix.pending.len(), 1);
    assert_eq!(prefix.pending[0].column, 4);
    assert_eq!(prefix.pending[0].value, x(1));
    assert_eq!(prefix.walk_group.point, vec![x(5), x(6)]);
    assert_eq!(prefix.walk_group.values[2], x(2));
    assert_eq!(prefix.walk_group.values[0], F256::zero());
}

#[test]
fn a_selection_that_fails_or_strays_is_refused() {
    let failed: RelationOutcome<F256, u8> = RelationOutcome {
        references: vec![ColRef::Committed(4)],
        final_values: vec![x(1)],
        point: Err(3),
    };
    assert!(matches!(
        verify_c1_duplex_walk_prefix(failed),
        Err(UnionVerifyError::Selection(3))
    ));
    let stray: RelationOutcome<F256, u8> = RelationOutcome {
        references: vec![ColRef::CommittedShift(4)],
        final_values: vec![x(1)],
        point: Ok(vec![x(5)]),
    };
    assert!(matches!(verify_c1_duplex_walk_prefix(stray), Err(UnionVerifyError::Shape)));
}

#[test]
fn shifted_references_take_the_points_of_their_shifts() {
    let prefix: C1WalkPrefix<F256> = C1WalkPrefix {
        pending: Vec::new(),
        walk_group: C1LaneClaimGroup { point: vec![x(5)], values: vec![x(0); 4] },
    };
    let substitution: RelationOutcome<F256, u8> = RelationOutcome {
        references: vec![ColRef::Committed(1), ColRef::CommittedShift(2)],
        final_values: vec![x(10), x(11)],
        point: Ok(vec![x(12)]),
    };
    let shifts = vec![ShiftOutcome { point: Ok(vec![x(13)]), final_value: x(14) }];
    let claims = verify_c1_duplex_walk_suffix(prefix, substitution, &shifts).unwrap();
    assert_eq!(claims.len(), 2);
    assert_eq!((claims[0].column, claims[0].value), (1, x(10)));
    assert_eq!(claims[0].point, vec![x(12)]);
    assert_eq!((claims[1].column, claims[1].value), (2, x(14)));
    assert_eq!(claims[1].point, vec![x(13)]);
}

#[test]
fn shapes_are_counted_before_anything_is_read() {
    let references = vec![ColRef::Committed(1), ColRef::CommittedShift(2), ColRef::CommittedShift(3)];
    assert_eq!(c1_shift_count(&references), 2);
    assert!(preflight_c1_relation(RelationShape { rounds: 6, values: 3 }, 6, 3));
    assert!(!preflight_c1_relation(RelationShape { rounds: 5, values: 3 }, 6, 3));
    assert!(preflight_c1_shifts(&vec![6, 6], 2, 6));
    assert!(!preflight_c1_shifts(&vec![6, 5], 2, 6));
    assert!(!preflight_c1_shifts(&vec![6], 2, 6));
    let selection: RelationOutcome<ExtExpr, u8> = RelationOutcome {
        references: vec![ColRef::Committed(4)],
        final_values: vec![ExtExpr::base(element(8))],
        point: Ok(vec![ExtExpr::one()]),
    };
    let wrong = RelationShape { rounds: 2, values: 1 };
    assert!(matches!(
        verify_c1_walk_a_walk_prefix_trace(1, wrong, selection),
        Err(RegionSidecarError::InvalidProof)
    ));
}

#[test]
fn products_in_the_trace_are_products_in_the_extension() {
    let e = extension();
    let (left, right) = (x(12), x(34));
    let mut b = FieldR1csBuilder::new();
    let wires = |b: &mut FieldR1csBuilder, v: F256| ExtExpr {
        lo: alloc_block(b, v.lo),
        hi: alloc_block(b, v.hi),
    };
    let l = wires(&mut b, left);
    let r = wires(&mut b, right);
    let p = mul_ext(&mut b, &e, &l, &r);
    let expected = e.mul(left, right);
    assert_eq!(p.lo.eval(b.values()), expected.lo);
    assert_eq!(p.hi.eval(b.values()), expected.hi);
    assert_eq!(e.mul(left, F256::one()), left);
    let (r1cs, witness) = b.build();
    assert!(r1cs.satisfies(&witness));
}

fn c1_fold_case(fault: usize) -> bool {
    let e = extension();
    let (alpha, lambda, z, matrix) = (x(5), x(7), x(11), x(13));
    let g_v = e.mul(z, matrix);
    let at_zero = e.mul(e.mul(lambda, alpha), g_v);
    let mut value = e.mul(e.mul(lambda, alpha.add(F256::one())), g_v);
    if fault == 1 {
        value = value.add(F256::one());
    }
    let end = if fault == 2 { x(14) } else { matrix };
    let mut b = FieldR1csBuilder::new();
    let challenges = (0..6).map(|i| element(101 + 2 * i)).collect();
    let mut ch = RawChannelTrace::new(challenges);
    let mut wires = |v: F256| ExtExpr {
        lo: alloc_block(&mut b, v.lo),
        hi: alloc_block(&mut b, v.hi),
    };
    let fresh = C1FreshLincheckClaimTrace {
        alpha: wires(alpha),
        z_skip: wires(x(2)),
        lambda: vec![wires(lambda)],
        x_inner_rest: Vec::new(),
        r_inner_rest: Vec::new(),
        z_partial: vec![wires(z)],
        value: wires(value),
    };
    let incoming = C1MatrixAccClaimTrace::allocate(&mut b, &vec![x(19)], x(23));
    let gate = LinExpr::constant(F128::zero());
    let proof = C1MatrixFoldProofTrace::allocate(
        &mut b,
        &vec![[at_zero, F256::zero()]],
        g_v,
        x(29),
        &Vec::new(),
        end,
        0,
    );
    let out = verify_matrix_claim_fold_c1_trace(
        &mut b,
        &mut ch,
        &vec![element(1)],
        &e,
        0,
        0,
        &fresh,
        &incoming,
        &gate,
        &proof,
    );
    assert_eq!(out.point.len(), 1);
    assert_eq!(out.point[0].lo.eval(b.values()), element(105));
    assert_eq!(out.point[0].hi.eval(b.values()), element(107));
    let (r1cs, witness) = b.build();
    r1cs.satisfies(&witness)
}

#[test]
fn a_c1_fold_holds_of_its_claim_and_of_no_other() {
    assert!(c1_fold_case(0));
    assert!(!c1_fold_case(1));
    assert!(!c1_fold_case(2));
}

#[test]
fn every_shift_goes_to_the_discharge_of_its_reach() {
    assert_eq!(shift_log(&ColRef::Committed(4)), None);
    assert_eq!(shift_log(&ColRef::CommittedShift(4)), Some(0));
    assert_eq!(shift_log(&ColRef::CommittedShift2(4)), Some(1));
    let references = vec![
        ColRef::CommittedShift2(3),
        ColRef::Committed(9),
        ColRef::CommittedShift(5),
        ColRef::CommittedShift(6),
    ];
    let requests = c1_shift_requests(&references, &vec![x(1), x(2), x(3)], &vec![x(8), x(9)]);
    let asked: Vec<(usize, F256)> =
        requests.iter().map(|request| (request.shift_log, request.value)).collect();
    assert_eq!(asked, [(1, x(1)), (0, x(3))]);
    assert_eq!(requests[1].point, vec![x(8), x(9)]);
}

fn tables() -> PoseidonTables {
    let row = |a: u128, b: u128, c: u128, d: u128| [element(a), element(b), element(c), element(d)];
    PoseidonTables {
        rc: vec![row(1, 2, 3, 4), row(5, 6, 7, 8), row(9, 10, 11, 12)],
        mds_full: [row(5, 7, 1, 3), row(4, 6, 1, 1), row(1, 3, 5, 7), row(1, 1, 4, 6)],
        mds_partial: [row(9, 1, 1, 1), row(1, 8, 1, 1), row(1, 1, 7, 1), row(1, 1, 1, 6)],
        half_full: 1,
        partials: 1,
    }
}

fn families() -> Vec<MerkleProtocolFamily> {
    vec![
        MerkleProtocolFamily::FeedForward {
            refs: FfMerkleFamilyRefs {
                c: [0, 1, 2, 3],
                cr: [4, 5],
                sib: [6, 7],
                d: 8,
                node: 1,
                nodens: 2,
                iv: [3, 4],
            },
            region: 0,
        },
        MerkleProtocolFamily::PairedUpdate {
            refs: paired_merkle_update_refs(14, 6),
            region: 5,
        },
    ]
}

#[test]
fn terms_of_a_base_challenge_are_those_of_the_base() {
    let e = extension();
    let families = families();
    let lambda = F128::new(0x1234, 0x5678);
    let wide = c1_merkle_zero_terms(&e, &families, F256::from_base(lambda));
    let shapes = merkle_zero_shapes(&families);
    assert_eq!(wide.len(), shapes.len());
    let mut powers = vec![F128::one()];
    for i in 0..5 {
        powers.push(powers[i].mul(lambda));
    }
    for (term, shape) in wide.iter().zip(&shapes) {
        assert_eq!(term.factors, shape.factors);
        assert_eq!(term.coeff, F256::from_base(powers[shape.weight]));
    }
    let alpha = F128::new(0x9abc, 0xdef0);
    let t = tables();
    let wide = c1_merkle_substitution_terms(&e, &t, &families, F256::from_base(alpha));
    let shapes = merkle_substitution_shapes(&families);
    assert_eq!(wide.len(), shapes.len());
    for (term, shape) in wide.iter().zip(&shapes) {
        let mut power = F128::one();
        let mut weight = F128::zero();
        for row in 0..4 {
            power = power.mul(alpha);
            weight = weight.add(power.mul(t.mds_full[row][shape.weight]));
        }
        assert_eq!(term.factors, shape.factors);
        assert_eq!(term.coeff, F256::from_base(weight));
    }
}

#[test]
fn a_merkle_walk_asks_for_the_sum_of_its_lanes() {
    let e = extension();
    let t = tables();
    let families = families();
    let terminal = C1LaneClaimGroup { point: vec![x(2), x(3)], values: vec![x(4), x(5), x(6), x(7)] };
    let alpha = x(31);
    let request = request_c1_merkle_suffix(&e, &t, &families, &terminal, alpha);
    let mut power = F256::one();
    let mut target = F256::zero();
    for value in &terminal.values {
        power = e.mul(power, alpha);
        target = target.add(e.mul(power, *value));
    }
    assert_eq!(request.target, target);
    assert_eq!(request.point, terminal.point);
    let terms = c1_merkle_substitution_terms(&e, &t, &families, alpha);
    assert_eq!(request.terms.len(), terms.len());
    for (asked, term) in request.terms.iter().zip(&terms) {
        assert_eq!(asked.coeff, term.coeff);
        assert_eq!(asked.factors, term.factors);
    }
}
