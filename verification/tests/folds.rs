use noid_recursive::batch_eval::{
    verify_batch_eval_trace, BatchEvalProofTrace, EvalClaimTrace,
};
use noid_recursive::channel::{ChannelOp, RawChannelTrace};
use noid_recursive::circuit::{alloc_block, FieldR1csBuilder, LinExpr};
use noid_recursive::field::F128;
use noid_recursive::matrix_fold::{
    verify_matrix_claim_fold_trace, FreshLincheckClaimTrace, MatrixAccClaimTrace,
    MatrixFoldProofTrace,
};
use noid_recursive::round_poly::RoundPolyTrace;

fn element(value: u128) -> F128 {
    F128::from_u128(value)
}

/// A fold of a one-variable claim with a closed gate.
fn fold_case(fault: usize) -> bool {
    let (alpha, lambda, z, matrix) = (element(5), element(7), element(11), element(13));
    let g_v = z.mul(matrix);
    let at_zero = lambda.mul(alpha).mul(g_v);
    let mut value = lambda.mul(alpha.add(F128::one())).mul(g_v);
    if fault == 1 {
        value = value.add(F128::one());
    }
    let end = if fault == 2 { element(14) } else { matrix };
    let mut b = FieldR1csBuilder::new();
    let mut ch =
        RawChannelTrace::new(vec![element(101), element(103), element(107), element(109)]);
    let fresh = FreshLincheckClaimTrace {
        alpha: alloc_block(&mut b, alpha),
        z_skip: alloc_block(&mut b, element(2)),
        lambda: vec![alloc_block(&mut b, lambda)],
        x_inner_rest: Vec::new(),
        r_inner_rest: Vec::new(),
        z_partial: vec![alloc_block(&mut b, z)],
        value: alloc_block(&mut b, value),
    };
    let incoming = MatrixAccClaimTrace::allocate(&mut b, &vec![element(19)], element(23));
    let gate = LinExpr::constant(F128::zero());
    let proof = MatrixFoldProofTrace::allocate(
        &mut b,
        &vec![[at_zero, F128::zero()]],
        g_v,
        element(29),
        &Vec::new(),
        end,
        0,
    );
    let label = vec![element(1)];
    let out = verify_matrix_claim_fold_trace(
        &mut b, &mut ch, &label, 0, 0, &fresh, &incoming, &gate, &proof,
    );
    assert_eq!(out.point.len(), 1);
    assert_eq!(out.point[0].eval(b.values()), element(103));
    assert_eq!(out.value.eval(b.values()), end);
    assert!(matches!(ch.ops[0], ChannelOp::Absorb(_)));
    // Three challenges are used: what is drawn next is the fourth.
    let next = ch.squeeze(&mut b);
    assert_eq!(next.eval(b.values()), element(109));
    let (r1cs, witness) = b.build();
    r1cs.satisfies(&witness)
}

#[test]
fn a_fold_holds_of_its_claim_and_of_no_other() {
    assert!(fold_case(0));
    assert!(!fold_case(1));
    assert!(!fold_case(2));
}

#[test]
fn a_completed_round_sums_to_its_claim() {
    let (constant, square, cube) = (element(3), element(5), element(9));
    let claim = element(77);
    let mut at = Vec::new();
    for challenge in [F128::zero(), F128::one()] {
        let mut b = FieldR1csBuilder::new();
        let poly = RoundPolyTrace::allocate(&mut b, &vec![constant, square, cube]);
        let claim_w = alloc_block(&mut b, claim);
        let r = alloc_block(&mut b, challenge);
        let next = poly.evaluate_reconstructed(&mut b, &claim_w, &r);
        at.push(next.eval(b.values()));
        let (r1cs, witness) = b.build();
        assert!(r1cs.satisfies(&witness));
    }
    assert_eq!(at[0], constant);
    assert_eq!(at[0].add(at[1]), claim);
}

/// One claim about one variable: the rounds are those of the table itself.
#[test]
fn a_batch_of_one_claim_reduces_to_the_challenge() {
    let (low, high) = (element(40), element(90));
    let point = element(6);
    let challenge = element(15);
    let value = low.add(point.mul(low.add(high)));
    let table = |x: F128| low.add(x.mul(low.add(high)));
    let indicator = |x: F128| point.add(x).add(F128::one());
    let round = |x: F128| table(x).mul(indicator(x));
    for fault in [false, true] {
        let claimed = if fault { value.add(F128::one()) } else { value };
        let mut b = FieldR1csBuilder::new();
        let mut ch = RawChannelTrace::new(vec![challenge; 4]);
        let proof = BatchEvalProofTrace::allocate(
            &mut b,
            &vec![[round(F128::one()), round(element(2))]],
            table(challenge),
            1,
        );
        let claims = vec![EvalClaimTrace {
            point: vec![alloc_block(&mut b, point)],
            value: alloc_block(&mut b, claimed),
        }];
        let reduction = verify_batch_eval_trace(&mut b, &mut ch, &proof, &claims, 1);
        assert_eq!(reduction.point[0].eval(b.values()), challenge);
        let (r1cs, witness) = b.build();
        assert_eq!(r1cs.satisfies(&witness), !fault);
    }
}
