//! Folding a fresh claim about a matrix into an accumulated one.
//!
//! Two sumchecks of quadratic rounds bring a fresh claim and a gated incoming
//! claim to one evaluation of the matrix, at the challenges of both. The matrix
//! itself never appears: the ends of the sumchecks weigh what the prover sends by
//! values of the challenges alone.

use vstd::prelude::*;
use vstd::arithmetic::power2::pow2;
use crate::batch_eval::{alloc_values, round_values};
use crate::channel::{Op, RawChannelTrace};
use crate::circuit::{
    all_below, free_row, group_circuit, group_lin, lins, mul_rows, pin_rows, Circuit,
    FieldR1csBuilder, Lin, LinExpr, Row,
};
use crate::eval_gadgets::{
    eq_ind_partial_eval_trace, equal_at, inner, inner_product, inner_rows, lemma_below_at,
    lemma_below_grow, lemma_below_push, lemma_empty_below, lemma_inner_past, lemma_tensor_past,
    tensor, tensor_rows,
};
use crate::field::{
    group_field_units, lemma_plus_assoc, lemma_plus_comm, lemma_plus_is_zero, lemma_times_comm,
    lemma_times_plus, F128,
};
use crate::gadget::{
    all_zero, computed, enforces, holds_past, lemma_binds_grow, lemma_binds_none,
    lemma_computed_refl, lemma_computed_trans, lemma_enforces, lemma_mul_past, lemma_past_split,
    lemma_pinned_computed, lemma_pinned_none, times,
};
use crate::multilinear::evals_at;
use crate::round_poly::{absorb_all, absorbs};
use crate::spine_claims::{block_lins, blocks_at, blocks_below, lemma_blocks_grow};
use crate::spine_columns::slice_exprs;
use crate::spine_proofs::{
    allocate_pairs, lemma_evals_stable, lemma_pairs_stable, pair_views, pair_wires,
};
use crate::spine_replay::{lemma_equal_push, pin_equal};
use crate::structural_region::{alloc_value, allocated, lemma_allocated, wires_from};

verus! {

broadcast use {group_circuit, lemma_computed_trans};

/// An accumulated claim: the matrix at a point of row and column coordinates.
#[derive(Debug)]
pub struct MatrixAccClaimTrace {
    pub point: Vec<LinExpr>,
    pub value: LinExpr,
}

/// A fresh claim, and the weights of its first coordinates at `z_skip`.
#[derive(Debug)]
pub struct FreshLincheckClaimTrace {
    pub alpha: LinExpr,
    pub z_skip: LinExpr,
    pub lambda: Vec<LinExpr>,
    pub x_inner_rest: Vec<LinExpr>,
    pub r_inner_rest: Vec<LinExpr>,
    pub z_partial: Vec<LinExpr>,
    pub value: LinExpr,
}

/// A fold proof: the rounds of both sumchecks, what the first ends on, and the
/// matrix at the end.
#[derive(Debug)]
pub struct MatrixFoldProofTrace {
    pub phase1_rounds: Vec<[LinExpr; 2]>,
    pub g_v: LinExpr,
    pub g_e: LinExpr,
    pub phase2_rounds: Vec<[LinExpr; 2]>,
    pub final_matrix_eval: LinExpr,
}

// ---------------------------------------------------------------------------
// Values
// ---------------------------------------------------------------------------

/// A quadratic round: the linear coefficient makes the values at zero and one
/// sum to the claim.
pub open spec fn quadratic(w: Seq<F128>, claim: F128, r: F128) -> F128 {
    w[1].times(r).plus(claim.plus(w[1])).times(r).plus(w[0])
}

/// A round's values at zero and one sum to its claim.
pub proof fn lemma_quadratic_sum(w: Seq<F128>, claim: F128)
    ensures
        quadratic(w, claim, F128::zero()).plus(quadratic(w, claim, F128::one())) == claim,
{
    broadcast use {group_field_units, lemma_plus_is_zero};

    let (a, c) = (w[0], w[1]);
    lemma_plus_comm(claim, c);
    assert(c.plus(c.plus(claim)) == claim);
    lemma_plus_comm(a, claim.plus(a));
    assert(claim.plus(a).plus(a) == claim);
}

/// The claim after the first `n` rounds.
pub open spec fn folded_claim(
    rounds: Seq<Seq<F128>>,
    claim: F128,
    challenges: Seq<F128>,
    n: nat,
) -> F128
    decreases n,
{
    if n == 0 {
        claim
    } else {
        quadratic(
            rounds[n - 1],
            folded_claim(rounds, claim, challenges, (n - 1) as nat),
            challenges[n - 1],
        )
    }
}

/// Weights times the tensor of a point.
pub open spec fn weighed(values: Seq<F128>, point: Seq<F128>) -> F128 {
    inner(values, tensor(point, point.len()), values.len())
}

/// The values of a fold.
pub struct FoldValues {
    pub alpha: F128,
    pub lambda: Seq<F128>,
    pub x_rest: Seq<F128>,
    pub r_rest: Seq<F128>,
    pub z_partial: Seq<F128>,
    pub value: F128,
    pub in_point: Seq<F128>,
    pub in_value: F128,
    pub gate: F128,
    pub first: Seq<Seq<F128>>,
    pub g_v: F128,
    pub g_e: F128,
    pub second: Seq<Seq<F128>>,
    pub end: F128,
}

/// The first sumcheck: the fresh claim and the gated incoming one end on the
/// row weights of the two vectors that the prover sends.
pub open spec fn rows_check(v: FoldValues, k_log: int, k_skip: int, gamma: F128, rho: Seq<F128>) -> bool {
    let gg = gamma.times(v.gate);
    let fresh = weighed(v.lambda, rho.subrange(0, k_skip)).times(
        equal_at(v.x_rest, rho.subrange(k_skip, k_log), (k_log - k_skip) as nat),
    ).times(v.alpha.plus(rho[k_log].times(v.alpha.plus(F128::one()))));
    let incoming = equal_at(v.in_point.subrange(0, k_log + 1), rho, (k_log + 1) as nat);
    fresh.times(v.g_v).plus(gg.times(incoming).times(v.g_e)) == folded_claim(
        v.first,
        v.value.plus(gg.times(v.in_value)),
        rho,
        (k_log + 1) as nat,
    )
}

/// The second sumcheck: those vectors' values end on the column weights of the
/// matrix.
pub open spec fn columns_check(
    v: FoldValues,
    k_log: int,
    k_skip: int,
    delta: F128,
    sigma: Seq<F128>,
) -> bool {
    let dg = delta.times(v.gate);
    let fresh = weighed(v.z_partial, sigma.subrange(0, k_skip)).times(
        equal_at(v.r_rest, sigma.subrange(k_skip, k_log), (k_log - k_skip) as nat),
    );
    let incoming = equal_at(
        v.in_point.subrange(k_log + 1, 2 * k_log + 1),
        sigma,
        k_log as nat,
    );
    fresh.plus(dg.times(incoming)).times(v.end) == folded_claim(
        v.second,
        v.g_v.plus(dg.times(v.g_e)),
        sigma,
        k_log as nat,
    )
}

// ---------------------------------------------------------------------------
// Gadgets
// ---------------------------------------------------------------------------

/// Rows that hold make an expression equal to a value.
pub open spec fn computes(rows: Seq<Row>, n: nat, e: Lin, f: spec_fn(Seq<F128>) -> F128) -> bool {
    forall|z: Seq<F128>| #[trigger] holds_past(rows, n, z) ==> e.eval(z) == f(z)
}

/// `x y + (1 + x) (1 + y)` is `x + y + 1`.
proof fn lemma_match(x: F128, y: F128)
    ensures
        x.times(y).plus(F128::one().plus(x).times(F128::one().plus(y))) == x.plus(y).plus(
            F128::one(),
        ),
{
    broadcast use {group_field_units, lemma_plus_is_zero};

    let one = F128::one();
    let u = one.plus(x);
    lemma_times_plus(u, one, y);
    lemma_times_comm(u, y);
    lemma_times_plus(y, one, x);
    lemma_times_comm(x, y);
    let p = y.times(x);
    // p + (u + (y + p))
    lemma_plus_assoc(u, y, p);
    lemma_plus_comm(p, u.plus(y).plus(p));
    assert(u.plus(y).plus(p).plus(p) == u.plus(y));
    lemma_plus_comm(one, x);
    lemma_plus_assoc(x, one, y);
    lemma_plus_comm(one, y);
    lemma_plus_assoc(x, y, one);
}

/// The rows of the equality indicator of two points' first `n` coordinates, three
/// products a coordinate.
pub open spec fn equality_rows(c: Seq<Row>, x: Seq<Lin>, y: Seq<Lin>, n: nat) -> (Seq<Row>, Lin)
    decreases n,
{
    let one = Lin::constant(F128::one());
    if n == 0 {
        (c, one)
    } else {
        let (c0, acc) = equality_rows(c, x, y, (n - 1) as nat);
        let (c1, both) = mul_rows(c0, x[n - 1], y[n - 1]);
        let (c2, neither) = mul_rows(c1, one.plus(x[n - 1]), one.plus(y[n - 1]));
        mul_rows(c2, acc, both.plus(neither))
    }
}

/// The rows of weights times the tensor of a point.
pub open spec fn weighed_rows(c: Seq<Row>, values: Seq<Lin>, point: Seq<Lin>) -> (Seq<Row>, Lin) {
    let (c1, eq) = tensor_rows(c, point, point.len());
    inner_rows(c1, values, eq, values.len())
}

/// The equality indicator of two points.
fn eq_points_trace(b: &mut FieldR1csBuilder, x: &Vec<LinExpr>, y: &Vec<LinExpr>) -> (r: LinExpr)
    requires
        old(b)@.wf(),
        x@.len() == y@.len(),
        all_below(lins(x@), old(b)@.rows.len()),
        all_below(lins(y@), old(b)@.rows.len()),
    ensures
        computed(old(b)@, final(b)@),
        r@.below(final(b)@.rows.len()),
        (final(b)@.rows, r@) == equality_rows(old(b)@.rows, lins(x@), lins(y@), x@.len()),
        computes(
            final(b)@.rows,
            old(b)@.rows.len(),
            r@,
            |z: Seq<F128>| equal_at(evals_at(lins(x@), z), evals_at(lins(y@), z), x@.len()),
        ),
{
    broadcast use {group_lin, group_field_units};

    let ghost b0 = b@;
    let ghost n = b0.rows.len();
    let ghost (xl, yl) = (lins(x@), lins(y@));
    let one = LinExpr::constant(F128::one());
    let mut acc = LinExpr::constant(F128::one());
    let mut i: usize = 0;
    proof {
        lemma_computed_refl(b0);
    }
    while i < x.len()
        invariant
            i <= x@.len(),
            x@.len() == y@.len(),
            n == b0.rows.len(),
            xl == lins(x@),
            yl == lins(y@),
            one@ == Lin::constant(F128::one()),
            all_below(xl, n),
            all_below(yl, n),
            b@.wf(),
            computed(b0, b@),
            acc@.below(b@.rows.len()),
            (b@.rows, acc@) == equality_rows(b0.rows, xl, yl, i as nat),
            forall|z: Seq<F128>| #[trigger]
                holds_past(b@.rows, n, z) ==> acc@.eval(z) == equal_at(
                    evals_at(xl, z),
                    evals_at(yl, z),
                    i as nat,
                ),
        decreases x@.len() - i,
    {
        let ghost c0 = b@;
        let ghost before = acc@;
        proof {
            lemma_below_at(x@, n, i as int);
            lemma_below_at(y@, n, i as int);
        }
        let m1 = times(b, &x[i], &y[i]);
        let ghost c1 = b@;
        let nx = one.add(&x[i]);
        let ny = one.add(&y[i]);
        let m2 = times(b, &nx, &ny);
        let ghost c2 = b@;
        let matched = m1.add(&m2);
        acc = times(b, &acc, &matched);
        proof {
            let rows = b@.rows;
            assert forall|z: Seq<F128>| #[trigger] holds_past(rows, n, z) implies acc@.eval(z)
                == equal_at(evals_at(xl, z), evals_at(yl, z), (i + 1) as nat) by {
                lemma_past_split(rows, c2.rows, n, z);
                lemma_past_split(c2.rows, c1.rows, n, z);
                lemma_past_split(c1.rows, c0.rows, n, z);
                lemma_mul_past(c0.rows, x@[i as int]@, y@[i as int]@, z);
                lemma_mul_past(c1.rows, nx@, ny@, z);
                lemma_mul_past(c2.rows, before, matched@, z);
                lemma_match(x@[i as int]@.eval(z), y@[i as int]@.eval(z));
            }
        }
        i += 1;
    }
    acc
}

/// Weights times the tensor of a point.
fn small_mle_eval_trace(b: &mut FieldR1csBuilder, values: &Vec<LinExpr>, point: &Vec<LinExpr>) -> (r:
    LinExpr)
    requires
        old(b)@.wf(),
        values@.len() == pow2(point@.len()),
        all_below(lins(values@), old(b)@.rows.len()),
        all_below(lins(point@), old(b)@.rows.len()),
    ensures
        computed(old(b)@, final(b)@),
        r@.below(final(b)@.rows.len()),
        (final(b)@.rows, r@) == weighed_rows(old(b)@.rows, lins(values@), lins(point@)),
        computes(
            final(b)@.rows,
            old(b)@.rows.len(),
            r@,
            |z: Seq<F128>| weighed(evals_at(lins(values@), z), evals_at(lins(point@), z)),
        ),
{
    let ghost b0 = b@;
    let ghost n = b0.rows.len();
    let count: usize = values.len();
    assert(pow2(point@.len()) == count);
    let eq = eq_ind_partial_eval_trace(b, point);
    let ghost b1 = b@;
    proof {
        lemma_below_grow(lins(values@), n, b1.rows.len());
    }
    let r = inner_product(b, values, &eq);
    proof {
        let rows = b@.rows;
        assert forall|z: Seq<F128>| #[trigger] holds_past(rows, n, z) implies r@.eval(z)
            == weighed(evals_at(lins(values@), z), evals_at(lins(point@), z)) by {
            lemma_past_split(rows, b1.rows, n, z);
            lemma_tensor_past(b0.rows, lins(point@), point@.len(), z);
            lemma_inner_past(b1.rows, lins(values@), lins(eq@), values@.len(), z);
        }
    }
    r
}

/// The next challenge, on a free wire.
pub fn sample(b: &mut FieldR1csBuilder, ch: &mut RawChannelTrace) -> (r: LinExpr)
    requires
        old(b)@.wf(),
    ensures
        computed(old(b)@, final(b)@),
        final(b)@.rows == old(b)@.rows.push(free_row(old(b)@.rows.len() as usize)),
        r@ == Lin::wire(old(b)@.rows.len() as usize),
        r@.below(final(b)@.rows.len()),
        final(ch)@ == old(ch)@.push(Op::Squeeze(r@)),
        r@.eval(final(b)@.values) == old(ch).upcoming(0),
        final(ch).after(old(ch), 1),
{
    ch.squeeze(b)
}

/// The operations of the first `n` rounds.
pub open spec fn round_ops(rounds: Seq<Seq<Lin>>, challenges: Seq<Lin>, n: nat) -> Seq<Op>
    decreases n,
{
    if n == 0 {
        Seq::empty()
    } else {
        round_ops(rounds, challenges, (n - 1) as nat).push(Op::Absorb(rounds[n - 1][0])).push(
            Op::Absorb(rounds[n - 1][1]),
        ).push(Op::Squeeze(challenges[n - 1]))
    }
}

pub open spec fn round_pairs(rounds: Seq<[LinExpr; 2]>) -> Seq<Seq<Lin>> {
    block_lins(rounds)
}

proof fn lemma_folded_agrees(
    rounds: Seq<Seq<F128>>,
    claim: F128,
    a: Seq<F128>,
    b: Seq<F128>,
    n: nat,
)
    requires
        n <= a.len(),
        n <= b.len(),
        forall|i: int| 0 <= i < n ==> (#[trigger] a[i]) == b[i],
    ensures
        folded_claim(rounds, claim, a, n) == folded_claim(rounds, claim, b, n),
    decreases n,
{
    if n > 0 {
        lemma_folded_agrees(rounds, claim, a, b, (n - 1) as nat);
        assert(a[n - 1] == b[n - 1]);
    }
}

proof fn lemma_ops_agree(rounds: Seq<Seq<Lin>>, a: Seq<Lin>, b: Seq<Lin>, n: nat)
    requires
        n <= a.len(),
        n <= b.len(),
        forall|i: int| 0 <= i < n ==> (#[trigger] a[i]) == b[i],
    ensures
        round_ops(rounds, a, n) == round_ops(rounds, b, n),
    decreases n,
{
    if n > 0 {
        lemma_ops_agree(rounds, a, b, (n - 1) as nat);
        assert(a[n - 1] == b[n - 1]);
    }
}

/// Rounds under way: their rows, the claim after them, and their challenges.
pub struct RoundsRun {
    pub rows: Seq<Row>,
    pub claim: Lin,
    pub challenges: Seq<Lin>,
}

/// The first `n` quadratic rounds.
pub open spec fn rounds_run(c: Seq<Row>, rounds: Seq<Seq<Lin>>, claim: Lin, n: nat) -> RoundsRun
    decreases n,
{
    if n == 0 {
        RoundsRun { rows: c, claim, challenges: Seq::empty() }
    } else {
        let run = rounds_run(c, rounds, claim, (n - 1) as nat);
        let w = rounds[n - 1];
        let r = Lin::wire(run.rows.len() as usize);
        let c1 = run.rows.push(free_row(run.rows.len() as usize));
        let (c2, t) = mul_rows(c1, w[1], r);
        let (c3, s) = mul_rows(c2, t.plus(run.claim.plus(w[1])), r);
        RoundsRun { rows: c3, claim: s.plus(w[0]), challenges: run.challenges.push(r) }
    }
}

/// Quadratic rounds: the claim after them, and their challenges.
#[verifier::rlimit(40)]
fn quadratic_rounds(
    b: &mut FieldR1csBuilder,
    ch: &mut RawChannelTrace,
    rounds: &Vec<[LinExpr; 2]>,
    claim: &LinExpr,
) -> (r: (LinExpr, Vec<LinExpr>))
    requires
        old(b)@.wf(),
        blocks_below(rounds@, old(b)@.rows.len()),
        claim@.below(old(b)@.rows.len()),
    ensures
        computed(old(b)@, final(b)@),
        r.0@.below(final(b)@.rows.len()),
        r.1@.len() == rounds@.len(),
        all_below(lins(r.1@), final(b)@.rows.len()),
        (RoundsRun { rows: final(b)@.rows, claim: r.0@, challenges: lins(r.1@) }) == rounds_run(
            old(b)@.rows,
            round_pairs(rounds@),
            claim@,
            rounds@.len(),
        ),
        evals_at(lins(r.1@), final(b)@.values) == old(ch).draws(rounds@.len()),
        final(ch).after(old(ch), rounds@.len()),
        final(ch)@ == old(ch)@ + round_ops(round_pairs(rounds@), lins(r.1@), rounds@.len()),
        computes(
            final(b)@.rows,
            old(b)@.rows.len(),
            r.0@,
            |z: Seq<F128>|
                folded_claim(
                    blocks_at(round_pairs(rounds@), z),
                    claim@.eval(z),
                    evals_at(lins(r.1@), z),
                    rounds@.len(),
                ),
        ),
{
    broadcast use group_lin;

    let ghost b0 = b@;
    let ghost n = b0.rows.len();
    let ghost rl = round_pairs(rounds@);
    let ghost o = ch@;
    let ghost ch0 = *ch;
    let mut now = claim.dup();
    let mut challenges: Vec<LinExpr> = Vec::new();
    proof {
        lemma_computed_refl(b0);
        lemma_empty_below(n);
        assert(ch@ =~= o + round_ops(rl, lins(challenges@), 0));
        assert(lins(challenges@) =~= Seq::empty());
    }
    while challenges.len() < rounds.len()
        invariant
            challenges@.len() <= rounds@.len(),
            n == b0.rows.len(),
            rl == round_pairs(rounds@),
            blocks_below(rounds@, n),
            b@.wf(),
            computed(b0, b@),
            now@.below(b@.rows.len()),
            all_below(lins(challenges@), b@.rows.len()),
            (RoundsRun { rows: b@.rows, claim: now@, challenges: lins(challenges@) })
                == rounds_run(b0.rows, rl, claim@, challenges@.len()),
            forall|k: int|
                0 <= k < challenges@.len() ==> (#[trigger] challenges@[k])@.eval(b@.values)
                    == ch0.upcoming(k as nat),
            ch.after(&ch0, challenges@.len()),
            ch@ == o + round_ops(rl, lins(challenges@), challenges@.len()),
            forall|z: Seq<F128>| #[trigger]
                holds_past(b@.rows, n, z) ==> now@.eval(z) == folded_claim(
                    blocks_at(rl, z),
                    claim@.eval(z),
                    evals_at(lins(challenges@), z),
                    challenges@.len(),
                ),
        decreases rounds@.len() - challenges@.len(),
    {
        let i: usize = challenges.len();
        let wire = &rounds[i];
        let ghost c0 = b@;
        let ghost prior = lins(challenges@);
        let ghost before = now@;
        proof {
            assert(all_below(lins(rounds@[i as int]@), n));
            assert(lins(wire@)[0].below(n) && lins(wire@)[1].below(n));
            assert(rl[i as int] == lins(wire@));
        }
        let ghost at = *ch;
        let ghost held = challenges@;
        ch.absorb(&wire[0]);
        ch.absorb(&wire[1]);
        let ghost asked = *ch;
        let linear = now.add(&wire[1]);
        let r = sample(b, ch);
        let ghost c1 = b@;
        let t = times(b, &wire[1], &r);
        let ghost c2 = b@;
        let u = t.add(&linear);
        let s = times(b, &u, &r);
        now = s.add(&wire[0]);
        let ghost m = b@.rows.len();
        proof {
            lemma_below_push(challenges@, r, c0.rows.len(), m);
            assert(forall|j: nat| #[trigger] asked.upcoming(j) == at.upcoming(j));
            assert(r@.eval(b@.values) == ch0.upcoming(i as nat));
        }
        let ghost rv = r@;
        challenges.push(r);
        proof {
            let all = lins(challenges@);
            assert(all =~= prior.push(rv));
            assert forall|k: int| 0 <= k < challenges@.len() implies (
            #[trigger] challenges@[k])@.eval(b@.values) == ch0.upcoming(k as nat) by {
                if k < i {
                    assert(challenges@[k] == held[k]);
                    assert(prior[k].below(c0.rows.len()));
                }
            }
            assert forall|j: nat| #[trigger] ch.upcoming(j) == ch0.upcoming(
                j + (i + 1) as nat,
            ) by {
                assert(asked.upcoming(j + 1) == at.upcoming(j + 1));
                assert(at.upcoming(j + 1) == ch0.upcoming(j + 1 + i as nat));
            }
            lemma_ops_agree(rl, prior, all, i as nat);
            assert(ch@ =~= o + round_ops(rl, all, (i + 1) as nat));
            let rows = b@.rows;
            assert forall|z: Seq<F128>| #[trigger] holds_past(rows, n, z) implies now@.eval(z)
                == folded_claim(
                blocks_at(rl, z),
                claim@.eval(z),
                evals_at(all, z),
                (i + 1) as nat,
            ) by {
                lemma_past_split(rows, c2.rows, n, z);
                lemma_past_split(c2.rows, c1.rows, n, z);
                lemma_past_split(c1.rows, c0.rows, n, z);
                lemma_mul_past(c1.rows, wire@[1]@, rv, z);
                lemma_mul_past(c2.rows, u@, rv, z);
                let bv = blocks_at(rl, z);
                lemma_folded_agrees(
                    bv,
                    claim@.eval(z),
                    evals_at(prior, z),
                    evals_at(all, z),
                    i as nat,
                );
                assert(bv[i as int] == evals_at(lins(wire@), z));
                assert(bv[i as int][0] == wire@[0]@.eval(z) && bv[i as int][1]
                    == wire@[1]@.eval(z));
            }
        }
    }
    assert(evals_at(lins(challenges@), b@.values) =~= ch0.draws(rounds@.len()));
    (now, challenges)
}

// ---------------------------------------------------------------------------
// The fold
// ---------------------------------------------------------------------------

/// The expressions of a fold.
pub struct FoldLins {
    pub alpha: Lin,
    pub lambda: Seq<Lin>,
    pub x_rest: Seq<Lin>,
    pub r_rest: Seq<Lin>,
    pub z_partial: Seq<Lin>,
    pub value: Lin,
    pub in_point: Seq<Lin>,
    pub in_value: Lin,
    pub gate: Lin,
    pub first: Seq<Seq<Lin>>,
    pub g_v: Lin,
    pub g_e: Lin,
    pub second: Seq<Seq<Lin>>,
    pub end: Lin,
}

impl FoldLins {
    pub open spec fn at(self, z: Seq<F128>) -> FoldValues {
        FoldValues {
            alpha: self.alpha.eval(z),
            lambda: evals_at(self.lambda, z),
            x_rest: evals_at(self.x_rest, z),
            r_rest: evals_at(self.r_rest, z),
            z_partial: evals_at(self.z_partial, z),
            value: self.value.eval(z),
            in_point: evals_at(self.in_point, z),
            in_value: self.in_value.eval(z),
            gate: self.gate.eval(z),
            first: blocks_at(self.first, z),
            g_v: self.g_v.eval(z),
            g_e: self.g_e.eval(z),
            second: blocks_at(self.second, z),
            end: self.end.eval(z),
        }
    }
}

pub open spec fn fold_lins(
    fresh: &FreshLincheckClaimTrace,
    incoming: &MatrixAccClaimTrace,
    gate: Lin,
    proof: &MatrixFoldProofTrace,
) -> FoldLins {
    FoldLins {
        alpha: fresh.alpha@,
        lambda: lins(fresh.lambda@),
        x_rest: lins(fresh.x_inner_rest@),
        r_rest: lins(fresh.r_inner_rest@),
        z_partial: lins(fresh.z_partial@),
        value: fresh.value@,
        in_point: lins(incoming.point@),
        in_value: incoming.value@,
        gate,
        first: round_pairs(proof.phase1_rounds@),
        g_v: proof.g_v@,
        g_e: proof.g_e@,
        second: round_pairs(proof.phase2_rounds@),
        end: proof.final_matrix_eval@,
    }
}

impl FreshLincheckClaimTrace {
    pub open spec fn wf(&self, k_log: int, k_skip: int, n: nat) -> bool {
        &&& 0 <= k_skip <= k_log
        &&& self.x_inner_rest@.len() == k_log - k_skip
        &&& self.r_inner_rest@.len() == k_log - k_skip
        &&& self.lambda@.len() == pow2(k_skip as nat)
        &&& self.z_partial@.len() == pow2(k_skip as nat)
        &&& self.alpha@.below(n)
        &&& self.z_skip@.below(n)
        &&& self.value@.below(n)
        &&& all_below(lins(self.lambda@), n)
        &&& all_below(lins(self.x_inner_rest@), n)
        &&& all_below(lins(self.r_inner_rest@), n)
        &&& all_below(lins(self.z_partial@), n)
    }

    /// What is absorbed of a fresh claim.
    pub open spec fn absorbed(&self) -> Seq<Lin> {
        seq![self.alpha@, self.z_skip@] + lins(self.x_inner_rest@) + lins(self.r_inner_rest@)
            + lins(self.z_partial@) + seq![self.value@]
    }
}

impl MatrixAccClaimTrace {
    pub open spec fn wf(&self, k_log: int, n: nat) -> bool {
        &&& self.point@.len() == 2 * k_log + 1
        &&& all_below(lins(self.point@), n)
        &&& self.value@.below(n)
    }

    /// Fresh wires of a claim.
    pub fn allocate(b: &mut FieldR1csBuilder, point: &Vec<F128>, value: F128) -> (r:
        MatrixAccClaimTrace)
        requires
            old(b)@.wf(),
        ensures
            allocated(old(b)@, final(b)@, point@ + seq![value]),
            lins(r.point@) == wires_from(old(b)@.rows.len() as int, point@.len()),
            r.value@ == Lin::wire((old(b)@.rows.len() + point@.len()) as usize),
    {
        let ghost b0 = b@;
        let wires = alloc_values(b, point);
        let ghost b1 = b@;
        let last = alloc_value(b, value);
        proof {
            lemma_allocated(b0, b1, b@, point@, seq![value]);
        }
        MatrixAccClaimTrace { point: wires, value: last }
    }
}

impl MatrixFoldProofTrace {
    pub open spec fn wf(&self, k_log: int, n: nat) -> bool {
        &&& self.phase1_rounds@.len() == k_log + 1
        &&& self.phase2_rounds@.len() == k_log
        &&& blocks_below(self.phase1_rounds@, n)
        &&& blocks_below(self.phase2_rounds@, n)
        &&& self.g_v@.below(n)
        &&& self.g_e@.below(n)
        &&& self.final_matrix_eval@.below(n)
    }

    /// Fresh wires of a proof: the first rounds, what they end on, the second
    /// rounds, and the matrix at the end.
    pub fn allocate(
        b: &mut FieldR1csBuilder,
        phase1_rounds: &Vec<[F128; 2]>,
        g_v: F128,
        g_e: F128,
        phase2_rounds: &Vec<[F128; 2]>,
        final_matrix_eval: F128,
        k_log: usize,
    ) -> (r: MatrixFoldProofTrace)
        requires
            old(b)@.wf(),
            phase1_rounds@.len() == k_log + 1,
            phase2_rounds@.len() == k_log,
        ensures
            allocated(
                old(b)@,
                final(b)@,
                round_values(phase1_rounds@, phase1_rounds@.len()) + seq![g_v, g_e]
                    + round_values(phase2_rounds@, phase2_rounds@.len()) + seq![
                    final_matrix_eval,
                ],
            ),
            r.wf(k_log as int, final(b)@.rows.len()),
            ({
                let start = old(b)@.rows.len() as int;
                let at = start + 2 * (k_log + 1);
                &&& round_pairs(r.phase1_rounds@) == pair_wires(start, (k_log + 1) as nat)
                &&& r.g_v@ == Lin::wire(at as usize)
                &&& r.g_e@ == Lin::wire((at + 1) as usize)
                &&& round_pairs(r.phase2_rounds@) == pair_wires(at + 2, k_log as nat)
                &&& r.final_matrix_eval@ == Lin::wire((at + 2 + 2 * k_log) as usize)
            }),
            blocks_at(round_pairs(r.phase1_rounds@), final(b)@.values) == pair_views(
                phase1_rounds@,
            ),
            blocks_at(round_pairs(r.phase2_rounds@), final(b)@.values) == pair_views(
                phase2_rounds@,
            ),
            r.g_v@.eval(final(b)@.values) == g_v,
            r.g_e@.eval(final(b)@.values) == g_e,
            r.final_matrix_eval@.eval(final(b)@.values) == final_matrix_eval,
    {
        broadcast use group_lin;

        let ghost b0 = b@;
        let first = allocate_pairs(b, phase1_rounds);
        let ghost b1 = b@;
        let v = alloc_value(b, g_v);
        let ghost b2 = b@;
        let e = alloc_value(b, g_e);
        let ghost b3 = b@;
        let second = allocate_pairs(b, phase2_rounds);
        let ghost b4 = b@;
        let end = alloc_value(b, final_matrix_eval);
        proof {
            let first_values = round_values(phase1_rounds@, phase1_rounds@.len());
            let second_values = round_values(phase2_rounds@, phase2_rounds@.len());
            let mid = first_values + seq![g_v, g_e];
            lemma_allocated(b1, b2, b3, seq![g_v], seq![g_e]);
            assert(seq![g_v] + seq![g_e] =~= seq![g_v, g_e]);
            lemma_allocated(b0, b1, b3, first_values, seq![g_v, g_e]);
            lemma_allocated(b0, b3, b4, mid, second_values);
            lemma_allocated(b0, b4, b@, mid + second_values, seq![final_matrix_eval]);
            assert(b@.grows(b1) && b@.grows(b2) && b@.grows(b3) && b@.grows(b4));
            lemma_pairs_stable(b1, b@, first@);
            lemma_pairs_stable(b4, b@, second@);
            assert(v@.eval(b@.values) == v@.eval(b2.values));
            assert(e@.eval(b@.values) == e@.eval(b3.values));
            assert(v@.eval(b2.values) == g_v);
            assert(e@.eval(b3.values) == g_e);
            assert(end@.eval(b@.values) == final_matrix_eval);
        }
        MatrixFoldProofTrace {
            phase1_rounds: first,
            g_v: v,
            g_e: e,
            phase2_rounds: second,
            final_matrix_eval: end,
        }
    }
}

/// The operations of a fold.
pub open spec fn fold_ops(
    label: Seq<F128>,
    fresh: &FreshLincheckClaimTrace,
    incoming: &MatrixAccClaimTrace,
    f: FoldLins,
    run: FoldRun,
) -> Seq<Op> {
    let header = Seq::new(label.len(), |i: int| Op::Absorb(Lin::constant(label[i]))) + absorbs(
        fresh.absorbed() + lins(incoming.point@) + seq![incoming.value@, f.gate],
    );
    header.push(Op::Squeeze(run.gamma)) + round_ops(f.first, run.rho, run.rho.len()) + seq![
        Op::Absorb(f.g_v),
        Op::Absorb(f.g_e),
        Op::Squeeze(run.delta),
    ] + round_ops(f.second, run.sigma, run.sigma.len()) + seq![Op::Absorb(f.end)]
}

fn absorb_header(
    ch: &mut RawChannelTrace,
    label: &Vec<F128>,
    fresh: &FreshLincheckClaimTrace,
    incoming: &MatrixAccClaimTrace,
    gate: &LinExpr,
)
    ensures
        final(ch)@ == old(ch)@ + (Seq::new(
            label@.len(),
            |i: int| Op::Absorb(Lin::constant(label@[i])),
        ) + absorbs(fresh.absorbed() + lins(incoming.point@) + seq![incoming.value@, gate@])),
        final(ch).challenges == old(ch).challenges,
        final(ch).squeezed == old(ch).squeezed,
{
    let ghost o = ch@;
    let ghost head = Seq::new(label@.len(), |i: int| Op::Absorb(Lin::constant(label@[i])));
    let mut i: usize = 0;
    assert(ch@ =~= o + head.take(0));
    while i < label.len()
        invariant
            i <= label@.len(),
            head == Seq::new(label@.len(), |i: int| Op::Absorb(Lin::constant(label@[i]))),
            ch@ == o + head.take(i as int),
            ch.challenges == old(ch).challenges,
            ch.squeezed == old(ch).squeezed,
        decreases label@.len() - i,
    {
        let lane = LinExpr::constant(label[i]);
        ch.absorb(&lane);
        assert(ch@ =~= o + head.take(i + 1));
        i += 1;
    }
    ch.absorb(&fresh.alpha);
    ch.absorb(&fresh.z_skip);
    absorb_all(ch, &fresh.x_inner_rest);
    absorb_all(ch, &fresh.r_inner_rest);
    absorb_all(ch, &fresh.z_partial);
    ch.absorb(&fresh.value);
    absorb_all(ch, &incoming.point);
    ch.absorb(&incoming.value);
    ch.absorb(gate);
    proof {
        assert(head.take(head.len() as int) =~= head);
        assert(ch@ =~= o + (head + absorbs(
            fresh.absorbed() + lins(incoming.point@) + seq![incoming.value@, gate@],
        )));
    }
}

/// The rows of what the first sumcheck ends on.
#[verifier::opaque]
pub open spec fn rows_end(
    c: Seq<Row>,
    f: FoldLins,
    k_log: int,
    k_skip: int,
    gg: Lin,
    rho: Seq<Lin>,
) -> (Seq<Row>, Lin) {
    let (c1, lam) = weighed_rows(c, f.lambda, rho.subrange(0, k_skip));
    let (c2, e) = equality_rows(
        c1,
        f.x_rest,
        rho.subrange(k_skip, k_log),
        (k_log - k_skip) as nat,
    );
    let (c3, m) = mul_rows(c2, rho[k_log], f.alpha.plus_const(F128::one()));
    let (c4, wu) = mul_rows(c3, lam, e);
    let (c5, wu2) = mul_rows(c4, wu, f.alpha.plus(m));
    let (c6, ein) = equality_rows(
        c5,
        f.in_point.subrange(0, k_log + 1),
        rho,
        (k_log + 1) as nat,
    );
    let (c7, t1) = mul_rows(c6, wu2, f.g_v);
    let (c8, t2) = mul_rows(c7, gg, ein);
    let (c9, t3) = mul_rows(c8, t2, f.g_e);
    (c9, t1.plus(t3))
}

/// The rows of what the second sumcheck ends on.
#[verifier::opaque]
pub open spec fn columns_end(
    c: Seq<Row>,
    f: FoldLins,
    k_log: int,
    k_skip: int,
    dg: Lin,
    sigma: Seq<Lin>,
) -> (Seq<Row>, Lin) {
    let (c1, zp) = weighed_rows(c, f.z_partial, sigma.subrange(0, k_skip));
    let (c2, q) = equality_rows(
        c1,
        f.r_rest,
        sigma.subrange(k_skip, k_log),
        (k_log - k_skip) as nat,
    );
    let (c3, w) = mul_rows(c2, zp, q);
    let (c4, ec) = equality_rows(
        c3,
        f.in_point.subrange(k_log + 1, 2 * k_log + 1),
        sigma,
        k_log as nat,
    );
    let (c5, dec) = mul_rows(c4, dg, ec);
    mul_rows(c5, w.plus(dec), f.end)
}

/// A fold: its rows and its challenges.
pub struct FoldRun {
    pub rows: Seq<Row>,
    pub gamma: Lin,
    pub rho: Seq<Lin>,
    pub delta: Lin,
    pub sigma: Seq<Lin>,
}

/// The run of a fold. It depends on wires and sizes alone.
#[verifier::opaque]
pub open spec fn fold_run(c: Seq<Row>, f: FoldLins, k_log: int, k_skip: int) -> FoldRun {
    let gamma = Lin::wire(c.len() as usize);
    let c1 = c.push(free_row(c.len() as usize));
    let (c2, gg) = mul_rows(c1, gamma, f.gate);
    let (c3, ggw) = mul_rows(c2, gg, f.in_value);
    let first = rounds_run(c3, f.first, f.value.plus(ggw), f.first.len());
    let (c5, end) = rows_end(first.rows, f, k_log, k_skip, gg, first.challenges);
    let c6 = pin_rows(c5, end.plus(first.claim));
    let delta = Lin::wire(c6.len() as usize);
    let c7 = c6.push(free_row(c6.len() as usize));
    let (c8, dg) = mul_rows(c7, delta, f.gate);
    let (c9, dgw) = mul_rows(c8, dg, f.g_e);
    let second = rounds_run(c9, f.second, f.g_v.plus(dgw), f.second.len());
    let (c11, last) = columns_end(second.rows, f, k_log, k_skip, dg, second.challenges);
    FoldRun {
        rows: pin_rows(c11, last.plus(second.claim)),
        gamma,
        rho: first.challenges,
        delta,
        sigma: second.challenges,
    }
}

/// What the first sumcheck ends on.
#[verifier::rlimit(60)]
fn rows_terminal(
    b: &mut FieldR1csBuilder,
    k_log: usize,
    k_skip: usize,
    fresh: &FreshLincheckClaimTrace,
    incoming: &MatrixAccClaimTrace,
    proof: &MatrixFoldProofTrace,
    gg: &LinExpr,
    rho: &Vec<LinExpr>,
    Ghost(gate): Ghost<Lin>,
) -> (r: LinExpr)
    requires
        old(b)@.wf(),
        2 * k_log + 1 <= usize::MAX,
        fresh.wf(k_log as int, k_skip as int, old(b)@.rows.len()),
        incoming.wf(k_log as int, old(b)@.rows.len()),
        proof.wf(k_log as int, old(b)@.rows.len()),
        gg@.below(old(b)@.rows.len()),
        rho@.len() == k_log + 1,
        all_below(lins(rho@), old(b)@.rows.len()),
    ensures
        computed(old(b)@, final(b)@),
        r@.below(final(b)@.rows.len()),
        (final(b)@.rows, r@) == rows_end(
            old(b)@.rows,
            fold_lins(fresh, incoming, gate, proof),
            k_log as int,
            k_skip as int,
            gg@,
            lins(rho@),
        ),
        computes(
            final(b)@.rows,
            old(b)@.rows.len(),
            r@,
            |z: Seq<F128>|
                {
                    let v = fold_lins(fresh, incoming, gate, proof).at(z);
                    let rv = evals_at(lins(rho@), z);
                    let (kl, ks) = (k_log as int, k_skip as int);
                    weighed(v.lambda, rv.subrange(0, ks)).times(
                        equal_at(v.x_rest, rv.subrange(ks, kl), (kl - ks) as nat),
                    ).times(v.alpha.plus(rv[kl].times(v.alpha.plus(F128::one())))).times(
                        v.g_v,
                    ).plus(
                        gg@.eval(z).times(
                            equal_at(v.in_point.subrange(0, kl + 1), rv, (kl + 1) as nat),
                        ).times(v.g_e),
                    )
                },
        ),
{
    broadcast use group_lin;

    let ghost b0 = b@;
    let ghost n = b0.rows.len();
    let ghost rl = lins(rho@);
    let ghost (kl, ks) = (k_log as int, k_skip as int);
    let low = slice_exprs(rho, 0, k_skip, Ghost(n));
    let high = slice_exprs(rho, k_skip, k_log, Ghost(n));
    let lam = small_mle_eval_trace(b, &fresh.lambda, &low);
    let ghost b1 = b@;
    proof {
        lemma_below_grow(lins(fresh.x_inner_rest@), n, b1.rows.len());
        lemma_below_grow(lins(high@), n, b1.rows.len());
        lemma_below_at(rho@, n, kl);
    }
    let e = eq_points_trace(b, &fresh.x_inner_rest, &high);
    let ghost b2 = b@;
    let shifted = fresh.alpha.add_const(F128::one());
    let m = times(b, &rho[k_log], &shifted);
    let ghost b3 = b@;
    let wb = fresh.alpha.add(&m);
    let wu = times(b, &lam, &e);
    let ghost b4 = b@;
    let wu2 = times(b, &wu, &wb);
    let ghost b5 = b@;
    let row = slice_exprs(&incoming.point, 0, k_log + 1, Ghost(n));
    proof {
        lemma_below_grow(lins(row@), n, b5.rows.len());
        lemma_below_grow(rl, n, b5.rows.len());
    }
    let ein = eq_points_trace(b, &row, rho);
    let ghost b6 = b@;
    let t1 = times(b, &wu2, &proof.g_v);
    let ghost b7 = b@;
    let t2 = times(b, gg, &ein);
    let ghost b8 = b@;
    let t3 = times(b, &t2, &proof.g_e);
    let r = t1.add(&t3);
    proof {
        reveal(rows_end);
        let rows = b@.rows;
        let f = fold_lins(fresh, incoming, gate, proof);
        assert forall|z: Seq<F128>| #[trigger] holds_past(rows, n, z) implies r@.eval(z) == ({
            let v = f.at(z);
            let rv = evals_at(rl, z);
            weighed(v.lambda, rv.subrange(0, ks)).times(
                equal_at(v.x_rest, rv.subrange(ks, kl), (kl - ks) as nat),
            ).times(v.alpha.plus(rv[kl].times(v.alpha.plus(F128::one())))).times(v.g_v).plus(
                gg@.eval(z).times(
                    equal_at(v.in_point.subrange(0, kl + 1), rv, (kl + 1) as nat),
                ).times(v.g_e),
            )
        }) by {
            lemma_past_split(rows, b8.rows, n, z);
            lemma_past_split(b8.rows, b7.rows, n, z);
            lemma_past_split(b7.rows, b6.rows, n, z);
            lemma_past_split(b6.rows, b5.rows, n, z);
            lemma_past_split(b5.rows, b4.rows, n, z);
            lemma_past_split(b4.rows, b3.rows, n, z);
            lemma_past_split(b3.rows, b2.rows, n, z);
            lemma_past_split(b2.rows, b1.rows, n, z);
            lemma_mul_past(b2.rows, rho@[kl]@, shifted@, z);
            lemma_mul_past(b3.rows, lam@, e@, z);
            lemma_mul_past(b4.rows, wu@, wb@, z);
            lemma_mul_past(b6.rows, wu2@, proof.g_v@, z);
            lemma_mul_past(b7.rows, gg@, ein@, z);
            lemma_mul_past(b8.rows, t2@, proof.g_e@, z);
            let v = f.at(z);
            let rv = evals_at(rl, z);
            assert(evals_at(lins(low@), z) =~= rv.subrange(0, ks));
            assert(evals_at(lins(high@), z) =~= rv.subrange(ks, kl));
            assert(evals_at(lins(row@), z) =~= v.in_point.subrange(0, kl + 1));
            assert(rv[kl] == rho@[kl]@.eval(z));
        }
    }
    r
}

/// What the second sumcheck ends on.
#[verifier::rlimit(60)]
fn columns_terminal(
    b: &mut FieldR1csBuilder,
    k_log: usize,
    k_skip: usize,
    fresh: &FreshLincheckClaimTrace,
    incoming: &MatrixAccClaimTrace,
    proof: &MatrixFoldProofTrace,
    dg: &LinExpr,
    sigma: &Vec<LinExpr>,
    Ghost(gate): Ghost<Lin>,
) -> (r: LinExpr)
    requires
        old(b)@.wf(),
        2 * k_log + 1 <= usize::MAX,
        fresh.wf(k_log as int, k_skip as int, old(b)@.rows.len()),
        incoming.wf(k_log as int, old(b)@.rows.len()),
        proof.wf(k_log as int, old(b)@.rows.len()),
        dg@.below(old(b)@.rows.len()),
        sigma@.len() == k_log,
        all_below(lins(sigma@), old(b)@.rows.len()),
    ensures
        computed(old(b)@, final(b)@),
        r@.below(final(b)@.rows.len()),
        (final(b)@.rows, r@) == columns_end(
            old(b)@.rows,
            fold_lins(fresh, incoming, gate, proof),
            k_log as int,
            k_skip as int,
            dg@,
            lins(sigma@),
        ),
        computes(
            final(b)@.rows,
            old(b)@.rows.len(),
            r@,
            |z: Seq<F128>|
                {
                    let v = fold_lins(fresh, incoming, gate, proof).at(z);
                    let sv = evals_at(lins(sigma@), z);
                    let (kl, ks) = (k_log as int, k_skip as int);
                    weighed(v.z_partial, sv.subrange(0, ks)).times(
                        equal_at(v.r_rest, sv.subrange(ks, kl), (kl - ks) as nat),
                    ).plus(
                        dg@.eval(z).times(
                            equal_at(
                                v.in_point.subrange(kl + 1, 2 * kl + 1),
                                sv,
                                kl as nat,
                            ),
                        ),
                    ).times(v.end)
                },
        ),
{
    broadcast use group_lin;

    let ghost b0 = b@;
    let ghost n = b0.rows.len();
    let ghost sl = lins(sigma@);
    let ghost (kl, ks) = (k_log as int, k_skip as int);
    let low = slice_exprs(sigma, 0, k_skip, Ghost(n));
    let high = slice_exprs(sigma, k_skip, k_log, Ghost(n));
    let zp = small_mle_eval_trace(b, &fresh.z_partial, &low);
    let ghost b1 = b@;
    proof {
        lemma_below_grow(lins(fresh.r_inner_rest@), n, b1.rows.len());
        lemma_below_grow(lins(high@), n, b1.rows.len());
    }
    let q = eq_points_trace(b, &fresh.r_inner_rest, &high);
    let ghost b2 = b@;
    let w = times(b, &zp, &q);
    let ghost b3 = b@;
    let column = slice_exprs(&incoming.point, k_log + 1, 2 * k_log + 1, Ghost(n));
    proof {
        lemma_below_grow(lins(column@), n, b3.rows.len());
        lemma_below_grow(sl, n, b3.rows.len());
    }
    let ec = eq_points_trace(b, &column, sigma);
    let ghost b4 = b@;
    let dec = times(b, dg, &ec);
    let ghost b5 = b@;
    let weight = w.add(&dec);
    let r = times(b, &weight, &proof.final_matrix_eval);
    proof {
        reveal(columns_end);
        let rows = b@.rows;
        let f = fold_lins(fresh, incoming, gate, proof);
        assert forall|z: Seq<F128>| #[trigger] holds_past(rows, n, z) implies r@.eval(z) == ({
            let v = f.at(z);
            let sv = evals_at(sl, z);
            weighed(v.z_partial, sv.subrange(0, ks)).times(
                equal_at(v.r_rest, sv.subrange(ks, kl), (kl - ks) as nat),
            ).plus(
                dg@.eval(z).times(
                    equal_at(v.in_point.subrange(kl + 1, 2 * kl + 1), sv, kl as nat),
                ),
            ).times(v.end)
        }) by {
            lemma_past_split(rows, b5.rows, n, z);
            lemma_past_split(b5.rows, b4.rows, n, z);
            lemma_past_split(b4.rows, b3.rows, n, z);
            lemma_past_split(b3.rows, b2.rows, n, z);
            lemma_past_split(b2.rows, b1.rows, n, z);
            lemma_mul_past(b2.rows, zp@, q@, z);
            lemma_mul_past(b4.rows, dg@, ec@, z);
            lemma_mul_past(b5.rows, weight@, proof.final_matrix_eval@, z);
            let v = f.at(z);
            let sv = evals_at(sl, z);
            assert(evals_at(lins(low@), z) =~= sv.subrange(0, ks));
            assert(evals_at(lins(high@), z) =~= sv.subrange(ks, kl));
            assert(evals_at(lins(column@), z) =~= v.in_point.subrange(kl + 1, 2 * kl + 1));
        }
    }
    r
}

proof fn lemma_fresh_grow(
    fresh: &FreshLincheckClaimTrace,
    incoming: &MatrixAccClaimTrace,
    proof: &MatrixFoldProofTrace,
    k_log: int,
    k_skip: int,
    m: nat,
    n: nat,
)
    requires
        fresh.wf(k_log, k_skip, m),
        incoming.wf(k_log, m),
        proof.wf(k_log, m),
        m <= n,
    ensures
        fresh.wf(k_log, k_skip, n),
        incoming.wf(k_log, n),
        proof.wf(k_log, n),
{
    lemma_below_grow(lins(fresh.lambda@), m, n);
    lemma_below_grow(lins(fresh.x_inner_rest@), m, n);
    lemma_below_grow(lins(fresh.r_inner_rest@), m, n);
    lemma_below_grow(lins(fresh.z_partial@), m, n);
    lemma_below_grow(lins(incoming.point@), m, n);
    lemma_blocks_grow(proof.phase1_rounds@, m, n);
    lemma_blocks_grow(proof.phase2_rounds@, m, n);
}

/// Both sumchecks of a fold under given values.
pub open spec fn fold_checked(
    f: FoldLins,
    k_log: int,
    k_skip: int,
    run: FoldRun,
    z: Seq<F128>,
) -> bool {
    &&& rows_check(f.at(z), k_log, k_skip, run.gamma.eval(z), evals_at(run.rho, z))
    &&& columns_check(f.at(z), k_log, k_skip, run.delta.eval(z), evals_at(run.sigma, z))
}

/// How many challenges a fold takes.
pub open spec fn fold_draws(k_log: int) -> nat {
    (2 * k_log + 3) as nat
}

/// A fold accepts the values and challenges `draws`, in the order in which they
/// come: both sumchecks hold.
pub open spec fn fold_accepts(v: FoldValues, k_log: int, k_skip: int, draws: Seq<F128>) -> bool {
    &&& rows_check(v, k_log, k_skip, draws[0], draws.subrange(1, k_log + 2))
    &&& columns_check(
        v,
        k_log,
        k_skip,
        draws[k_log + 2],
        draws.subrange(k_log + 3, 2 * k_log + 3),
    )
}

/// The point of an accepted fold: the challenges of both sumchecks.
pub open spec fn folded_point(k_log: int, draws: Seq<F128>) -> Seq<F128> {
    draws.subrange(1, k_log + 2) + draws.subrange(k_log + 3, 2 * k_log + 3)
}

/// Folds a fresh claim and a gated incoming one into one claim. `label` names the
/// fold on the channel. The rows are those of the run. The circuit goes in step
/// with the check of the same values under the challenges that the channel gives:
/// its own values satisfy it exactly where that check accepts, and the folded
/// claim is that check's point with the matrix value of the proof. The weights
/// `lambda` are taken as they come: nothing here ties them to `z_skip`.
#[verifier::rlimit(80)]
pub fn verify_matrix_claim_fold_trace(
    b: &mut FieldR1csBuilder,
    ch: &mut RawChannelTrace,
    label: &Vec<F128>,
    k_log: usize,
    k_skip: usize,
    fresh: &FreshLincheckClaimTrace,
    incoming: &MatrixAccClaimTrace,
    gate: &LinExpr,
    proof: &MatrixFoldProofTrace,
) -> (r: MatrixAccClaimTrace)
    requires
        old(b)@.wf(),
        2 * k_log + 1 <= usize::MAX,
        fresh.wf(k_log as int, k_skip as int, old(b)@.rows.len()),
        incoming.wf(k_log as int, old(b)@.rows.len()),
        proof.wf(k_log as int, old(b)@.rows.len()),
        gate@.below(old(b)@.rows.len()),
    ensures
        ({
            let (kl, ks) = (k_log as int, k_skip as int);
            let f = fold_lins(fresh, incoming, gate@, proof);
            let run = fold_run(old(b)@.rows, f, kl, ks);
            let draws = old(ch).draws(fold_draws(kl));
            &&& final(b)@.rows == run.rows
            &&& final(ch)@ == old(ch)@ + fold_ops(label@, fresh, incoming, f, run)
            &&& final(ch).after(old(ch), fold_draws(kl))
            &&& lins(r.point@) == run.rho + run.sigma
            &&& enforces(
                old(b)@,
                final(b)@,
                |z: Seq<F128>| fold_checked(f, kl, ks, run, z),
            )
            &&& final(b)@.honest() <==> old(b)@.honest() && fold_accepts(
                f.at(old(b)@.values),
                kl,
                ks,
                draws,
            )
            &&& evals_at(lins(r.point@), final(b)@.values) == folded_point(kl, draws)
        }),
        r.value@ == proof.final_matrix_eval@,
        r.wf(k_log as int, final(b)@.rows.len()),
{
    broadcast use group_lin;

    let ghost b0 = b@;
    let ghost n = b0.rows.len();
    let ghost o = ch@;
    let ghost ch0 = *ch;
    let ghost (kl, ks) = (k_log as int, k_skip as int);
    let ghost f = fold_lins(fresh, incoming, gate@, proof);
    absorb_header(ch, label, fresh, incoming, gate);
    let ghost ch1 = *ch;
    let gamma = sample(b, ch);
    let ghost ch2 = *ch;
    let ghost b1 = b@;
    let gg = times(b, &gamma, gate);
    let ghost b2 = b@;
    let ggw = times(b, &gg, &incoming.value);
    let ghost b3 = b@;
    let start = fresh.value.add(&ggw);
    proof {
        lemma_fresh_grow(fresh, incoming, proof, kl, ks, n, b3.rows.len());
    }
    let (claim, rho) = quadratic_rounds(b, ch, &proof.phase1_rounds, &start);
    let ghost ch3 = *ch;
    let ghost b4 = b@;
    proof {
        lemma_fresh_grow(fresh, incoming, proof, kl, ks, n, b4.rows.len());
    }
    let first = rows_terminal(
        b,
        k_log,
        k_skip,
        fresh,
        incoming,
        proof,
        &gg,
        &rho,
        Ghost(gate@),
    );
    let ghost b5 = b@;
    proof {
        lemma_pinned_none(b0, b5);
        lemma_binds_none(b5.rows);
    }
    pin_equal(b, &first, &claim, Ghost(b0), Ghost(Seq::empty()));
    let ghost b6 = b@;
    let ghost p1 = Seq::<Lin>::empty().push(first@.plus(claim@));
    ch.absorb(&proof.g_v);
    ch.absorb(&proof.g_e);
    let ghost ch4 = *ch;
    let delta = sample(b, ch);
    let ghost ch5 = *ch;
    let ghost b7 = b@;
    let dg = times(b, &delta, gate);
    let ghost b8 = b@;
    let dgw = times(b, &dg, &proof.g_e);
    let ghost b9 = b@;
    let start2 = proof.g_v.add(&dgw);
    proof {
        assert(b9.grows(b0));
        lemma_fresh_grow(fresh, incoming, proof, kl, ks, n, b9.rows.len());
    }
    let (claim2, sigma) = quadratic_rounds(b, ch, &proof.phase2_rounds, &start2);
    let ghost ch6 = *ch;
    let ghost b10 = b@;
    proof {
        lemma_fresh_grow(fresh, incoming, proof, kl, ks, n, b10.rows.len());
    }
    let second = columns_terminal(
        b,
        k_log,
        k_skip,
        fresh,
        incoming,
        proof,
        &dg,
        &sigma,
        Ghost(gate@),
    );
    let ghost b11 = b@;
    proof {
        assert(computed(b6, b11));
        lemma_pinned_computed(b0, b6, b11, p1);
        lemma_binds_grow(b6.rows, b11.rows, p1);
    }
    pin_equal(b, &second, &claim2, Ghost(b0), Ghost(p1));
    let ghost p2 = p1.push(second@.plus(claim2@));
    ch.absorb(&proof.final_matrix_eval);
    let ghost (rl, sl) = (lins(rho@), lins(sigma@));
    let ghost run = fold_run(b0.rows, f, kl, ks);
    let mut point = rho;
    let mut tail = sigma;
    point.append(&mut tail);
    proof {
        let pl = lins(point@);
        assert(pl =~= rl + sl);
        let end = b@.rows;
        lemma_below_grow(rl, b4.rows.len(), end.len());
        lemma_below_grow(sl, b10.rows.len(), end.len());
        assert forall|i: int| 0 <= i < pl.len() implies (#[trigger] pl[i]).below(end.len()) by {
            if i < rl.len() {
                assert(pl[i] == rl[i]);
            } else {
                assert(pl[i] == sl[i - rl.len()]);
            }
        }
        assert(end == run.rows && gamma@ == run.gamma && rl == run.rho && delta@ == run.delta
            && sl == run.sigma) by {
            reveal(fold_run);
        }
        assert(ch@ =~= o + fold_ops(label@, fresh, incoming, f, run));
        let g = |z: Seq<F128>| fold_checked(f, kl, ks, run, z);
        assert forall|z: Seq<F128>| #[trigger] holds_past(end, n, z) implies (all_zero(p2, z)
            <==> g(z)) by {
            lemma_past_split(end, b11.rows, n, z);
            lemma_past_split(b11.rows, b10.rows, n, z);
            lemma_past_split(b10.rows, b9.rows, n, z);
            lemma_past_split(b9.rows, b8.rows, n, z);
            lemma_past_split(b8.rows, b7.rows, n, z);
            lemma_past_split(b7.rows, b6.rows, n, z);
            lemma_past_split(b6.rows, b5.rows, n, z);
            lemma_past_split(b5.rows, b4.rows, n, z);
            lemma_past_split(b4.rows, b3.rows, n, z);
            lemma_past_split(b3.rows, b2.rows, n, z);
            lemma_past_split(b2.rows, b1.rows, n, z);
            lemma_mul_past(b1.rows, gamma@, gate@, z);
            lemma_mul_past(b2.rows, gg@, incoming.value@, z);
            lemma_mul_past(b7.rows, delta@, gate@, z);
            lemma_mul_past(b8.rows, dg@, proof.g_e@, z);
            lemma_equal_push(Seq::empty(), first@, claim@, z);
            lemma_equal_push(p1, second@, claim2@, z);
        }
        lemma_enforces(b0, b@, p2, g);
        // The values drawn.
        let draws = ch0.draws(fold_draws(kl));
        let z = b@.values;
        assert(forall|j: nat| #[trigger] ch1.upcoming(j) == ch0.upcoming(j));
        assert(forall|j: nat| #[trigger] ch4.upcoming(j) == ch3.upcoming(j));
        assert(forall|j: nat| #[trigger] ch.upcoming(j) == ch6.upcoming(j));
        assert forall|j: nat| #[trigger] ch2.upcoming(j) == ch0.upcoming(j + 1) by {
            assert(ch1.upcoming(j + 1) == ch0.upcoming(j + 1));
        }
        assert forall|j: nat| #[trigger] ch3.upcoming(j) == ch0.upcoming(
            (j + kl + 2) as nat,
        ) by {
            assert(ch2.upcoming((j + kl + 1) as nat) == ch0.upcoming((j + kl + 2) as nat));
        }
        assert forall|j: nat| #[trigger] ch5.upcoming(j) == ch0.upcoming(
            (j + kl + 3) as nat,
        ) by {
            assert(ch4.upcoming(j + 1) == ch3.upcoming(j + 1));
            assert(ch3.upcoming(j + 1) == ch0.upcoming((j + 1 + kl + 2) as nat));
        }
        assert forall|j: nat| #[trigger] ch.upcoming(j) == ch0.upcoming(
            j + fold_draws(kl),
        ) by {
            assert(ch6.upcoming(j) == ch5.upcoming((j + kl) as nat));
            assert(ch5.upcoming((j + kl) as nat) == ch0.upcoming((j + kl + kl + 3) as nat));
        }
        lemma_evals_stable(b4, b@, rl);
        lemma_evals_stable(b10, b@, sl);
        assert(gamma@.eval(z) == draws[0]) by {
            assert(b@.grows(b1));
            assert(ch1.upcoming(0) == ch0.upcoming(0));
        }
        assert(evals_at(rl, z) =~= draws.subrange(1, kl + 2)) by {
            assert(evals_at(rl, z).len() == kl + 1);
            assert forall|i: int| 0 <= i < kl + 1 implies evals_at(rl, z)[i] == draws.subrange(
                1,
                kl + 2,
            )[i] by {
                assert(ch2.upcoming(i as nat) == ch0.upcoming(i as nat + 1));
            }
        }
        assert(delta@.eval(z) == draws[kl + 2]) by {
            assert(b@.grows(b7));
            assert(ch4.upcoming(0) == ch3.upcoming(0));
            assert(ch3.upcoming(0) == ch0.upcoming((kl + 2) as nat));
        }
        assert(evals_at(sl, z) =~= draws.subrange(kl + 3, 2 * kl + 3)) by {
            assert(evals_at(sl, z).len() == kl);
            assert forall|i: int| 0 <= i < kl implies evals_at(sl, z)[i] == draws.subrange(
                kl + 3,
                2 * kl + 3,
            )[i] by {
                assert(ch5.upcoming(i as nat) == ch0.upcoming((i + kl + 3) as nat));
            }
        }
        assert(evals_at(pl, z) =~= evals_at(rl, z) + evals_at(sl, z));
        lemma_fold_stable(fresh, incoming, gate@, proof, kl, ks, b0, b@);
        assert(g(z) == fold_accepts(f.at(b0.values), kl, ks, draws));
    }
    let ghost pl = lins(point@);
    let r = MatrixAccClaimTrace { point, value: proof.final_matrix_eval.dup() };
    assert(lins(r.point@) == pl);
    r
}

/// The values of a fold do not change while a circuit grows.
proof fn lemma_fold_stable(
    fresh: &FreshLincheckClaimTrace,
    incoming: &MatrixAccClaimTrace,
    gate: Lin,
    proof: &MatrixFoldProofTrace,
    k_log: int,
    k_skip: int,
    before: Circuit,
    after: Circuit,
)
    requires
        after.grows(before),
        fresh.wf(k_log, k_skip, before.rows.len()),
        incoming.wf(k_log, before.rows.len()),
        proof.wf(k_log, before.rows.len()),
        gate.below(before.rows.len()),
    ensures
        fold_lins(fresh, incoming, gate, proof).at(after.values) == fold_lins(
            fresh,
            incoming,
            gate,
            proof,
        ).at(before.values),
{
    lemma_evals_stable(before, after, lins(fresh.lambda@));
    lemma_evals_stable(before, after, lins(fresh.x_inner_rest@));
    lemma_evals_stable(before, after, lins(fresh.r_inner_rest@));
    lemma_evals_stable(before, after, lins(fresh.z_partial@));
    lemma_evals_stable(before, after, lins(incoming.point@));
    lemma_pairs_stable(before, after, proof.phase1_rounds@);
    lemma_pairs_stable(before, after, proof.phase2_rounds@);
}

} // verus!
