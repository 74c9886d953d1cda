//! Batched evaluation sumchecks in the trace.

use vstd::prelude::*;
use crate::channel::{
    drew, kept, lemma_drew_end, lemma_drew_kept, lemma_drew_step, lemma_drew_trans, tape, Op,
    RawChannelTrace, Tape,
};
use crate::circuit::{
    all_below, group_circuit, group_lin, lemma_prefix_push, lemma_prefix_refl, lemma_prefix_trans,
    lins, mul_rows, pin_rows, prefix, sat, FieldR1csBuilder, Lin, LinExpr, Row,
};
use crate::eval_gadgets::{
    eq_ind_trace, equal_at, equal_rows, index_eq_trace, index_point, index_rows, inner,
    inner_product, inner_rows, ladder_rows, lemma_below_at, lemma_below_grow, lemma_below_push,
    lemma_empty_below, lemma_equal_past, lemma_index_past, lemma_inner_past, lemma_ladder_past,
    power_ladder,
};
use crate::field::{group_field_units, lemma_plus_is_zero, F128};
use crate::gadget::{
    all_zero, computed, free_wire, holds_past, lemma_computed_refl, lemma_computed_trans,
    lemma_mul_past, lemma_past_split, lemma_pin_prefix, lemma_pinned_none, lemma_sat_past,
    lemma_sat_pin, pin_after, pinned, times,
};
use crate::multilinear::evals_at;
use crate::relations::power;
use crate::structural_region::{
    alloc_value, allocated, lemma_allocated, lemma_allocated_none, wires_from,
};

verus! {

broadcast use {group_circuit, lemma_computed_trans};

// ---------------------------------------------------------------------------
// Rounds
// ---------------------------------------------------------------------------

/// A round polynomial of degree two, by its values at one and two. Its value at
/// zero is the claim plus its value at one.
#[derive(Debug)]
pub struct BatchEvalRoundTrace {
    pub evals_at_1_2: [LinExpr; 2],
}

/// The value at `r` of the polynomial of degree two with values `e0`, `e1`,
/// `e2` at zero, one and two. Two and three are inverse to each other.
pub open spec fn lagrange(e0: F128, e1: F128, e2: F128, r: F128) -> F128 {
    let (two, three) = (F128::of_nat(2), F128::of_nat(3));
    let (r1, r2) = (r.plus(F128::one()), r.plus(two));
    e0.times(r1.times(r2)).times(three).plus(e1.times(r.times(r2)).times(two)).plus(
        e2.times(r.times(r1)),
    )
}

/// Two squared is three, and two and three are inverse to each other.
pub proof fn lemma_two_three()
    ensures
        F128::of_nat(2).times(F128::of_nat(2)) == F128::of_nat(3),
        F128::of_nat(2).plus(F128::one()) == F128::of_nat(3),
        F128::of_nat(2).times(F128::of_nat(3)) == F128::one(),
        F128::of_nat(3).times(F128::of_nat(2)) == F128::one(),
{
    broadcast use {group_field_units, lemma_plus_is_zero};

    let (two, three) = (F128::of_nat(2), F128::of_nat(3));
    crate::tower::lemma_square_two(7);
    reveal(F128::times);
    reveal(F128::plus);
    assert(2u128 ^ 1 == 3) by (bit_vector);
    assert(two.times(two) == three);
    assert(two.plus(F128::one()) == three);
    crate::field::lemma_times_plus(two, two, F128::one());
    crate::field::lemma_plus_comm(two, F128::one());
    crate::field::lemma_times_comm(two, three);
    assert(three.plus(two) == F128::one()) by {
        crate::field::lemma_plus_comm(three, two);
    }
}

/// The interpolated polynomial takes the given values.
pub proof fn lemma_lagrange(e0: F128, e1: F128, e2: F128)
    ensures
        lagrange(e0, e1, e2, F128::zero()) == e0,
        lagrange(e0, e1, e2, F128::one()) == e1,
        lagrange(e0, e1, e2, F128::of_nat(2)) == e2,
{
    broadcast use {group_field_units, lemma_plus_is_zero};

    let (two, three) = (F128::of_nat(2), F128::of_nat(3));
    lemma_two_three();
    crate::field::lemma_times_assoc(e0, two, three);
    crate::field::lemma_plus_comm(F128::one(), two);
    crate::field::lemma_times_assoc(e1, three, two);
}

/// The rows of a round, and the next claim.
pub open spec fn round_rows(c: Seq<Row>, e1: Lin, e2: Lin, claim: Lin, r: Lin) -> (Seq<Row>, Lin) {
    let (two, three) = (F128::of_nat(2), F128::of_nat(3));
    let e0 = claim.plus(e1);
    let r1 = r.plus_const(F128::one());
    let r2 = r.plus_const(two);
    let (c1, n0) = mul_rows(c, r1, r2);
    let (c2, n1) = mul_rows(c1, r, r2);
    let (c3, n2) = mul_rows(c2, r, r1);
    let (c4, t0) = mul_rows(c3, e0, n0);
    let (c5, t1) = mul_rows(c4, e1, n1);
    let (c6, t2) = mul_rows(c5, e2, n2);
    (c6, t0.scale(three).plus(t1.scale(two)).plus(t2.scale(F128::one())))
}

pub proof fn lemma_round_past(c: Seq<Row>, e1: Lin, e2: Lin, claim: Lin, r: Lin, z: Seq<F128>)
    ensures
        prefix(c, round_rows(c, e1, e2, claim, r).0),
        holds_past(round_rows(c, e1, e2, claim, r).0, c.len(), z) ==> round_rows(
            c,
            e1,
            e2,
            claim,
            r,
        ).1.eval(z) == lagrange(
            claim.eval(z).plus(e1.eval(z)),
            e1.eval(z),
            e2.eval(z),
            r.eval(z),
        ),
{
    broadcast use {lemma_prefix_trans, group_lin};

    let (two, three) = (F128::of_nat(2), F128::of_nat(3));
    let e0 = claim.plus(e1);
    let r1 = r.plus_const(F128::one());
    let r2 = r.plus_const(two);
    let (c1, n0) = mul_rows(c, r1, r2);
    let (c2, n1) = mul_rows(c1, r, r2);
    let (c3, n2) = mul_rows(c2, r, r1);
    let (c4, t0) = mul_rows(c3, e0, n0);
    let (c5, t1) = mul_rows(c4, e1, n1);
    let (c6, t2) = mul_rows(c5, e2, n2);
    lemma_mul_past(c, r1, r2, z);
    lemma_mul_past(c1, r, r2, z);
    lemma_mul_past(c2, r, r1, z);
    lemma_mul_past(c3, e0, n0, z);
    lemma_mul_past(c4, e1, n1, z);
    lemma_mul_past(c5, e2, n2, z);
    if holds_past(c6, c.len(), z) {
        lemma_past_split(c6, c1, c.len(), z);
        lemma_past_split(c6, c2, c1.len(), z);
        lemma_past_split(c6, c3, c2.len(), z);
        lemma_past_split(c6, c4, c3.len(), z);
        lemma_past_split(c6, c5, c4.len(), z);
    }
}

impl BatchEvalRoundTrace {
    pub open spec fn lanes(&self) -> (Lin, Lin) {
        (self.evals_at_1_2@[0]@, self.evals_at_1_2@[1]@)
    }

    pub open spec fn below(&self, n: nat) -> bool {
        self.evals_at_1_2@[0]@.below(n) && self.evals_at_1_2@[1]@.below(n)
    }

    /// Fresh wires of a round's values.
    pub fn allocate(b: &mut FieldR1csBuilder, evals_at_1_2: &[F128; 2]) -> (r: BatchEvalRoundTrace)
        requires
            old(b)@.wf(),
        ensures
            computed(old(b)@, final(b)@),
            final(b)@.rows == crate::accepted_claim_batch::free_rows(old(b)@.rows, 2),
            r.lanes() == (
                Lin::wire(old(b)@.rows.len() as usize),
                Lin::wire((old(b)@.rows.len() + 1) as usize),
            ),
            r.below(final(b)@.rows.len()),
            r.lanes().0.eval(final(b)@.values) == evals_at_1_2@[0],
            r.lanes().1.eval(final(b)@.values) == evals_at_1_2@[1],
    {
        reveal_with_fuel(crate::accepted_claim_batch::free_rows, 3);
        let at_1 = free_wire(b, evals_at_1_2[0]);
        let at_2 = free_wire(b, evals_at_1_2[1]);
        BatchEvalRoundTrace { evals_at_1_2: [at_1, at_2] }
    }

    /// The next claim: the round polynomial at the challenge.
    pub fn evaluate(&self, b: &mut FieldR1csBuilder, claim: &LinExpr, r: &LinExpr) -> (next: LinExpr)
        requires
            old(b)@.wf(),
            self.below(old(b)@.rows.len()),
            claim@.below(old(b)@.rows.len()),
            r@.below(old(b)@.rows.len()),
        ensures
            (final(b)@.rows, next@) == round_rows(
                old(b)@.rows,
                self.lanes().0,
                self.lanes().1,
                claim@,
                r@,
            ),
            computed(old(b)@, final(b)@),
            next@.below(final(b)@.rows.len()),
    {
        let e0 = claim.add(&self.evals_at_1_2[0]);
        let r1 = r.add_const(F128::one());
        let r2 = r.add_const(F128::from_u128(2));
        let n0 = times(b, &r1, &r2);
        let n1 = times(b, r, &r2);
        let n2 = times(b, r, &r1);
        let t0 = times(b, &e0, &n0).scale(F128::from_u128(3));
        let t1 = times(b, &self.evals_at_1_2[0], &n1).scale(F128::from_u128(2));
        let t2 = times(b, &self.evals_at_1_2[1], &n2).scale(F128::one());
        t0.add(&t1).add(&t2)
    }

    /// Absorbs the round's values.
    pub fn absorb_evals(&self, ch: &mut RawChannelTrace)
        ensures
            final(ch)@ == old(ch)@.push(Op::Absorb(self.lanes().0)).push(
                Op::Absorb(self.lanes().1),
            ),
            kept(*old(ch), *final(ch)),
    {
        ch.absorb(&self.evals_at_1_2[0]);
        ch.absorb(&self.evals_at_1_2[1]);
    }
}

pub open spec fn round_lanes(rounds: Seq<BatchEvalRoundTrace>) -> Seq<(Lin, Lin)> {
    Seq::new(rounds.len(), |i: int| rounds[i].lanes())
}

pub open spec fn rounds_below(rounds: Seq<BatchEvalRoundTrace>, n: nat) -> bool {
    forall|i: int| 0 <= i < rounds.len() ==> (#[trigger] rounds[i]).below(n)
}

/// The claim after the first `n` rounds.
pub open spec fn claim_after(
    rounds: Seq<(F128, F128)>,
    claim: F128,
    challenges: Seq<F128>,
    n: nat,
) -> F128
    decreases n,
{
    if n == 0 {
        claim
    } else {
        let before = claim_after(rounds, claim, challenges, (n - 1) as nat);
        let (e1, e2) = rounds[n - 1];
        lagrange(before.plus(e1), e1, e2, challenges[n - 1])
    }
}

/// The rows and operations of the first `n` rounds, the claim after them, and
/// their challenges.
pub open spec fn rounds_tape(t: Tape, rounds: Seq<(Lin, Lin)>, claim: Lin, n: nat) -> (
    Tape,
    Lin,
    Seq<Lin>,
)
    decreases n,
{
    if n == 0 {
        (t, claim, Seq::empty())
    } else {
        let (t1, before, challenges) = rounds_tape(t, rounds, claim, (n - 1) as nat);
        let (e1, e2) = rounds[n - 1];
        let t2 = t1.absorb(e1).absorb(e2);
        let r = t2.challenge();
        let t3 = t2.squeeze();
        let (rows, next) = round_rows(t3.rows, e1, e2, before, r);
        (t3.on(rows), next, challenges.push(r))
    }
}

pub open spec fn pair_evals(s: Seq<(Lin, Lin)>, z: Seq<F128>) -> Seq<(F128, F128)> {
    Seq::new(s.len(), |i: int| (s[i].0.eval(z), s[i].1.eval(z)))
}

pub proof fn lemma_rounds_past(
    t: Tape,
    rounds: Seq<(Lin, Lin)>,
    claim: Lin,
    n: nat,
    z: Seq<F128>,
)
    requires
        n <= rounds.len(),
    ensures
        prefix(t.rows, rounds_tape(t, rounds, claim, n).0.rows),
        rounds_tape(t, rounds, claim, n).2.len() == n,
        holds_past(rounds_tape(t, rounds, claim, n).0.rows, t.rows.len(), z) ==> rounds_tape(
            t,
            rounds,
            claim,
            n,
        ).1.eval(z) == claim_after(
            pair_evals(rounds, z),
            claim.eval(z),
            evals_at(rounds_tape(t, rounds, claim, n).2, z),
            n,
        ),
    decreases n,
{
    broadcast use {lemma_prefix_trans, lemma_prefix_push, group_lin};

    if n > 0 {
        let m = (n - 1) as nat;
        let (t1, before, challenges) = rounds_tape(t, rounds, claim, m);
        lemma_rounds_past(t, rounds, claim, m, z);
        let (e1, e2) = rounds[n - 1];
        let t2 = t1.absorb(e1).absorb(e2);
        let r = t2.challenge();
        let t3 = t2.squeeze();
        lemma_prefix_push(t1.rows, crate::circuit::free_row(t1.rows.len() as usize));
        assert(prefix(t1.rows, t3.rows));
        lemma_round_past(t3.rows, e1, e2, before, r, z);
        let (rows, next) = round_rows(t3.rows, e1, e2, before, r);
        assert(prefix(t3.rows, rows));
        if holds_past(rows, t.rows.len(), z) {
            lemma_past_split(rows, t3.rows, t.rows.len(), z);
            lemma_past_split(t3.rows, t1.rows, t.rows.len(), z);
            let all = challenges.push(r);
            lemma_claim_agrees(
                pair_evals(rounds, z),
                claim.eval(z),
                evals_at(challenges, z),
                evals_at(all, z),
                m,
            );
        }
    }
}

proof fn lemma_claim_agrees(
    rounds: Seq<(F128, F128)>,
    claim: F128,
    a: Seq<F128>,
    b: Seq<F128>,
    n: nat,
)
    requires
        n <= a.len(),
        n <= b.len(),
        forall|i: int| 0 <= i < n ==> (#[trigger] a[i]) == b[i],
    ensures
        claim_after(rounds, claim, a, n) == claim_after(rounds, claim, b, n),
    decreases n,
{
    if n > 0 {
        lemma_claim_agrees(rounds, claim, a, b, (n - 1) as nat);
        assert(a[n - 1] == b[n - 1]);
    }
}

/// The rounds of a sumcheck: the claim after them, and their challenges.
pub fn run_rounds(
    b: &mut FieldR1csBuilder,
    ch: &mut RawChannelTrace,
    rounds: &Vec<BatchEvalRoundTrace>,
    claim: LinExpr,
) -> (r: (LinExpr, Vec<LinExpr>))
    requires
        old(b)@.wf(),
        rounds_below(rounds@, old(b)@.rows.len()),
        claim@.below(old(b)@.rows.len()),
    ensures
        (tape(*final(b), *final(ch)), r.0@, lins(r.1@)) == rounds_tape(
            tape(*old(b), *old(ch)),
            round_lanes(rounds@),
            claim@,
            rounds@.len(),
        ),
        r.1@.len() == rounds@.len(),
        computed(old(b)@, final(b)@),
        r.0@.below(final(b)@.rows.len()),
        all_below(lins(r.1@), final(b)@.rows.len()),
        drew(old(b)@, *old(ch), final(b)@, *final(ch)),
{
    let ghost b0 = b@;
    let ghost ch0 = *ch;
    let ghost t0 = tape(*b, *ch);
    let ghost start = claim@;
    let mut claim = claim;
    let mut challenges: Vec<LinExpr> = Vec::new();
    let mut i: usize = 0;
    proof {
        lemma_computed_refl(b0);
        lemma_empty_below(b0.rows.len());
        lemma_drew_kept(b0, ch0, b0, ch0);
    }
    while i < rounds.len()
        invariant
            i <= rounds@.len(),
            rounds_below(rounds@, b0.rows.len()),
            b@.wf(),
            computed(b0, b@),
            drew(b0, ch0, b@, *ch),
            claim@.below(b@.rows.len()),
            challenges@.len() == i,
            all_below(lins(challenges@), b@.rows.len()),
            (tape(*b, *ch), claim@, lins(challenges@)) == rounds_tape(
                t0,
                round_lanes(rounds@),
                start,
                i as nat,
            ),
        decreases rounds@.len() - i,
    {
        let ghost m = b@.rows.len();
        let ghost (c0, x0) = (b@, *ch);
        let round = &rounds[i];
        assert(rounds@[i as int].below(b0.rows.len()));
        round.absorb_evals(ch);
        let ghost x1 = *ch;
        let r = ch.squeeze(b);
        let ghost c1 = b@;
        claim = round.evaluate(b, &claim, &r);
        proof {
            lemma_below_push(challenges@, r, m, b@.rows.len());
            lemma_drew_step(b0, ch0, c0, x0, c0, x1, c1, *ch, b@);
            assert(round_lanes(rounds@)[i as int] == rounds@[i as int].lanes());
        }
        challenges.push(r);
        i += 1;
    }
    (claim, challenges)
}

// ---------------------------------------------------------------------------
// Weights of a random linear combination
// ---------------------------------------------------------------------------

/// Digits of one level of a combination.
pub const RLC_LEVEL_BASE: usize = 64;

/// `v` divided by the base `j` times.
pub open spec fn quotient(v: nat, j: nat) -> nat
    decreases j,
{
    if j == 0 {
        v
    } else {
        quotient(v, (j - 1) as nat) / 64
    }
}

/// Digit `j` of an index.
pub open spec fn level_digit(i: nat, j: nat) -> nat {
    quotient(i, j) % 64
}

/// Levels of a combination of `m` terms: the digits of its last index.
pub open spec fn levels_of(m: nat) -> nat
    decreases m,
{
    if m <= 64 {
        1
    } else {
        1 + levels_of(((m - 1) / 64 + 1) as nat)
    }
}

/// Entries of a level's table.
pub open spec fn level_width(m: nat, j: nat) -> nat {
    if quotient((m - 1) as nat, j) < 63 {
        quotient((m - 1) as nat, j) + 1
    } else {
        64
    }
}

/// The weight of an index: the product over its digits of powers of the level
/// challenges.
pub open spec fn rlc_weight(cs: Seq<F128>, i: nat, n: nat) -> F128
    decreases n,
{
    if n == 0 {
        F128::one()
    } else {
        rlc_weight(cs, i, (n - 1) as nat).times(power(cs[n - 1], level_digit(i, (n - 1) as nat)))
    }
}

/// The weights of the first `m` indices.
pub open spec fn rlc_weights(cs: Seq<F128>, m: nat) -> Seq<F128> {
    Seq::new(m, |i: int| rlc_weight(cs, i as nat, cs.len()))
}

proof fn lemma_quotient_le(a: nat, b: nat, j: nat)
    requires
        a <= b,
    ensures
        quotient(a, j) <= quotient(b, j),
    decreases j,
{
    if j > 0 {
        lemma_quotient_le(a, b, (j - 1) as nat);
    }
}

proof fn lemma_digit_width(i: nat, m: nat, j: nat)
    requires
        i < m,
    ensures
        level_digit(i, j) < level_width(m, j),
{
    lemma_quotient_le(i, (m - 1) as nat, j);
}

/// `n` squeezes in a row.
pub open spec fn squeezes_tape(t: Tape, n: nat) -> (Tape, Seq<Lin>)
    decreases n,
{
    if n == 0 {
        (t, Seq::empty())
    } else {
        let (t1, cs) = squeezes_tape(t, (n - 1) as nat);
        (t1.squeeze(), cs.push(t1.challenge()))
    }
}

pub proof fn lemma_squeezes_prefix(t: Tape, n: nat)
    ensures
        prefix(t.rows, squeezes_tape(t, n).0.rows),
        squeezes_tape(t, n).1.len() == n,
    decreases n,
{
    broadcast use lemma_prefix_trans;

    if n > 0 {
        let t1 = squeezes_tape(t, (n - 1) as nat).0;
        lemma_squeezes_prefix(t, (n - 1) as nat);
        lemma_prefix_push(t1.rows, crate::circuit::free_row(t1.rows.len() as usize));
    }
}

/// `n` challenges.
pub fn squeeze_many(b: &mut FieldR1csBuilder, ch: &mut RawChannelTrace, n: usize) -> (r: Vec<
    LinExpr,
>)
    requires
        old(b)@.wf(),
    ensures
        (tape(*final(b), *final(ch)), lins(r@)) == squeezes_tape(
            tape(*old(b), *old(ch)),
            n as nat,
        ),
        r@.len() == n,
        computed(old(b)@, final(b)@),
        all_below(lins(r@), final(b)@.rows.len()),
        drew(old(b)@, *old(ch), final(b)@, *final(ch)),
{
    let ghost b0 = b@;
    let ghost ch0 = *ch;
    let ghost t0 = tape(*b, *ch);
    let mut r: Vec<LinExpr> = Vec::new();
    proof {
        lemma_computed_refl(b0);
        lemma_empty_below(b0.rows.len());
        lemma_drew_kept(b0, ch0, b0, ch0);
    }
    while r.len() < n
        invariant
            r@.len() <= n,
            b@.wf(),
            computed(b0, b@),
            drew(b0, ch0, b@, *ch),
            all_below(lins(r@), b@.rows.len()),
            (tape(*b, *ch), lins(r@)) == squeezes_tape(t0, r@.len()),
        decreases n - r@.len(),
    {
        let ghost m = b@.rows.len();
        let ghost (c0, x0) = (b@, *ch);
        let c = ch.squeeze(b);
        proof {
            lemma_drew_trans(b0, ch0, c0, x0, b@, *ch);
            lemma_below_push(r@, c, m, b@.rows.len());
        }
        r.push(c);
    }
    r
}

/// The power tables of the first `n` levels.
pub open spec fn tables_rows(c: Seq<Row>, cs: Seq<Lin>, m: nat, n: nat) -> (
    Seq<Row>,
    Seq<Seq<Lin>>,
)
    decreases n,
{
    if n == 0 {
        (c, Seq::empty())
    } else {
        let (c1, tables) = tables_rows(c, cs, m, (n - 1) as nat);
        let (c2, table) = ladder_rows(c1, cs[n - 1], level_width(m, (n - 1) as nat));
        (c2, tables.push(table))
    }
}

/// The weight of an index from the first `n` tables.
pub open spec fn weight_rows(c: Seq<Row>, tables: Seq<Seq<Lin>>, i: nat, n: nat) -> (Seq<Row>, Lin)
    decreases n,
{
    if n == 0 {
        (c, Lin::constant(F128::one()))
    } else if n == 1 {
        (c, tables[0][level_digit(i, 0) as int])
    } else {
        let (c1, w) = weight_rows(c, tables, i, (n - 1) as nat);
        let d = level_digit(i, (n - 1) as nat);
        if d > 0 {
            mul_rows(c1, w, tables[n - 1][d as int])
        } else {
            (c1, w)
        }
    }
}

/// The weights of the first `m` indices.
pub open spec fn weights_rows(c: Seq<Row>, tables: Seq<Seq<Lin>>, m: nat) -> (Seq<Row>, Seq<Lin>)
    decreases m,
{
    if m == 0 {
        (c, Seq::empty())
    } else {
        let (c1, ws) = weights_rows(c, tables, (m - 1) as nat);
        let (c2, w) = weight_rows(c1, tables, (m - 1) as nat, tables.len());
        (c2, ws.push(w))
    }
}

/// The rows and operations of the weights of `m` terms, the weights, and the
/// level challenges.
pub open spec fn alphas_tape(t: Tape, m: nat) -> (Tape, Seq<Lin>, Seq<Lin>) {
    if m == 0 {
        (t, Seq::empty(), Seq::empty())
    } else {
        let (t1, cs) = squeezes_tape(t, levels_of(m));
        let (c1, tables) = tables_rows(t1.rows, cs, m, levels_of(m));
        let (c2, ws) = weights_rows(c1, tables, m);
        (t1.on(c2), ws, cs)
    }
}

/// Tables hold powers under `z`.
pub open spec fn tables_hold(tables: Seq<Seq<Lin>>, cs: Seq<Lin>, m: nat, z: Seq<F128>) -> bool {
    forall|j: int, k: int|
        0 <= j < tables.len() && 0 <= k < level_width(m, j as nat) ==> (
        #[trigger] tables[j][k]).eval(z) == power(cs[j].eval(z), k as nat)
}

proof fn lemma_tables_past(c: Seq<Row>, cs: Seq<Lin>, m: nat, n: nat, z: Seq<F128>)
    requires
        n <= cs.len(),
    ensures
        prefix(c, tables_rows(c, cs, m, n).0),
        tables_rows(c, cs, m, n).1.len() == n,
        forall|j: int|
            0 <= j < n ==> (#[trigger] tables_rows(c, cs, m, n).1[j]).len() == level_width(
                m,
                j as nat,
            ),
        holds_past(tables_rows(c, cs, m, n).0, c.len(), z) ==> tables_hold(
            tables_rows(c, cs, m, n).1,
            cs,
            m,
            z,
        ),
    decreases n,
{
    broadcast use lemma_prefix_trans;

    if n > 0 {
        let k = (n - 1) as nat;
        let (c1, tables) = tables_rows(c, cs, m, k);
        lemma_tables_past(c, cs, m, k, z);
        let width = level_width(m, k);
        lemma_ladder_past(c1, cs[n - 1], width, z);
        let (c2, table) = ladder_rows(c1, cs[n - 1], width);
        let now = tables.push(table);
        assert forall|j: int| 0 <= j < n implies (#[trigger] now[j]).len() == level_width(
            m,
            j as nat,
        ) by {
            if j < k {
                assert(now[j] == tables[j]);
            }
        }
        if holds_past(c2, c.len(), z) {
            lemma_past_split(c2, c1, c.len(), z);
            assert forall|j: int, i: int|
                0 <= j < now.len() && 0 <= i < level_width(m, j as nat) implies (
            #[trigger] now[j][i]).eval(z) == power(cs[j].eval(z), i as nat) by {
                if j < k {
                    assert(now[j][i] == tables[j][i]);
                } else {
                    assert(now[j][i] == table[i]);
                }
            }
        }
    }
}

proof fn lemma_weight_past(
    c: Seq<Row>,
    tables: Seq<Seq<Lin>>,
    cs: Seq<Lin>,
    m: nat,
    i: nat,
    n: nat,
    z: Seq<F128>,
)
    requires
        n <= tables.len(),
        n <= cs.len(),
        i < m,
    ensures
        prefix(c, weight_rows(c, tables, i, n).0),
        holds_past(weight_rows(c, tables, i, n).0, c.len(), z) && tables_hold(tables, cs, m, z)
            ==> weight_rows(c, tables, i, n).1.eval(z) == rlc_weight(evals_at(cs, z), i, n),
    decreases n,
{
    broadcast use {lemma_prefix_trans, group_lin};

    if n == 1 {
        lemma_digit_width(i, m, 0);
        reveal_with_fuel(rlc_weight, 2);
        let d = level_digit(i, 0);
        if tables_hold(tables, cs, m, z) {
            assert(tables[0][d as int].eval(z) == power(cs[0].eval(z), d));
        }
    } else if n > 1 {
        let k = (n - 1) as nat;
        let (c1, w) = weight_rows(c, tables, i, k);
        lemma_weight_past(c, tables, cs, m, i, k, z);
        lemma_digit_width(i, m, k);
        let d = level_digit(i, k);
        if d > 0 {
            lemma_mul_past(c1, w, tables[n - 1][d as int], z);
        }
        let rows = weight_rows(c, tables, i, n).0;
        if holds_past(rows, c.len(), z) && tables_hold(tables, cs, m, z) {
            lemma_past_split(rows, c1, c.len(), z);
            if d > 0 {
                assert(tables[n - 1][d as int].eval(z) == power(cs[n - 1].eval(z), d));
            } else {
                assert(power(cs[n - 1].eval(z), 0) == F128::one());
            }
        }
    }
}

proof fn lemma_weights_past(
    c: Seq<Row>,
    tables: Seq<Seq<Lin>>,
    cs: Seq<Lin>,
    total: nat,
    m: nat,
    z: Seq<F128>,
)
    requires
        m <= total,
        tables.len() == cs.len(),
    ensures
        prefix(c, weights_rows(c, tables, m).0),
        weights_rows(c, tables, m).1.len() == m,
        holds_past(weights_rows(c, tables, m).0, c.len(), z) && tables_hold(tables, cs, total, z)
            ==> evals_at(weights_rows(c, tables, m).1, z) == rlc_weights(evals_at(cs, z), m),
    decreases m,
{
    broadcast use lemma_prefix_trans;

    if m > 0 {
        let k = (m - 1) as nat;
        let (c1, ws) = weights_rows(c, tables, k);
        lemma_weights_past(c, tables, cs, total, k, z);
        lemma_weight_past(c1, tables, cs, total, k, tables.len(), z);
        let (c2, w) = weight_rows(c1, tables, k, tables.len());
        if holds_past(c2, c.len(), z) && tables_hold(tables, cs, total, z) {
            lemma_past_split(c2, c1, c.len(), z);
            let want = rlc_weights(evals_at(cs, z), m);
            assert(evals_at(ws.push(w), z) =~= want) by {
                assert forall|i: int| 0 <= i < m implies evals_at(ws.push(w), z)[i] == want[i] by {
                    if i < k {
                        assert(evals_at(ws, z)[i] == rlc_weights(evals_at(cs, z), k)[i]);
                    }
                }
            }
        }
    } else {
        assert(evals_at(Seq::<Lin>::empty(), z) =~= rlc_weights(evals_at(cs, z), 0));
    }
}

/// The weights are those of the level challenges.
pub proof fn lemma_alphas_past(t: Tape, m: nat, z: Seq<F128>)
    ensures
        prefix(t.rows, alphas_tape(t, m).0.rows),
        alphas_tape(t, m).1.len() == m,
        holds_past(alphas_tape(t, m).0.rows, t.rows.len(), z) ==> evals_at(
            alphas_tape(t, m).1,
            z,
        ) == rlc_weights(evals_at(alphas_tape(t, m).2, z), m),
{
    broadcast use lemma_prefix_trans;

    if m > 0 {
        let (t1, cs) = squeezes_tape(t, levels_of(m));
        lemma_squeezes_prefix(t, levels_of(m));
        let (c1, tables) = tables_rows(t1.rows, cs, m, levels_of(m));
        lemma_tables_past(t1.rows, cs, m, levels_of(m), z);
        lemma_weights_past(c1, tables, cs, m, m, z);
        let (c2, ws) = weights_rows(c1, tables, m);
        if holds_past(c2, t.rows.len(), z) {
            lemma_past_split(c2, c1, t.rows.len(), z);
            lemma_past_split(c1, t1.rows, t.rows.len(), z);
        }
    } else {
        assert(evals_at(alphas_tape(t, m).1, z) =~= rlc_weights(
            evals_at(alphas_tape(t, m).2, z),
            m,
        ));
    }
}

fn rlc_levels(m: usize) -> (r: usize)
    requires
        m > 0,
    ensures
        r == levels_of(m as nat),
{
    let mut x: usize = m;
    let mut n: usize = 1;
    while x > 64
        invariant
            x > 0,
            x <= m,
            n + x <= m + 1,
            n + levels_of(x as nat) == 1 + levels_of(m as nat),
        decreases x,
    {
        x = (x - 1) / 64 + 1;
        n += 1;
    }
    n
}

/// Rows of expressions below `n`.
pub open spec fn tables_below(tables: Seq<Vec<LinExpr>>, n: nat) -> bool {
    forall|j: int| 0 <= j < tables.len() ==> all_below(lins((#[trigger] tables[j])@), n)
}

pub open spec fn table_lins(tables: Seq<Vec<LinExpr>>) -> Seq<Seq<Lin>> {
    Seq::new(tables.len(), |j: int| lins(tables[j]@))
}

/// The weights of a random linear combination of `m` terms.
pub fn squeeze_alphas_trace(b: &mut FieldR1csBuilder, ch: &mut RawChannelTrace, m: usize) -> (r: Vec<
    LinExpr,
>)
    requires
        old(b)@.wf(),
    ensures
        tape(*final(b), *final(ch)) == alphas_tape(tape(*old(b), *old(ch)), m as nat).0,
        lins(r@) == alphas_tape(tape(*old(b), *old(ch)), m as nat).1,
        r@.len() == m,
        computed(old(b)@, final(b)@),
        all_below(lins(r@), final(b)@.rows.len()),
        drew(old(b)@, *old(ch), final(b)@, *final(ch)),
{
    let ghost b0 = b@;
    let ghost ch0 = *ch;
    proof {
        lemma_drew_kept(b0, ch0, b0, ch0);
        lemma_computed_refl(b0);
        lemma_empty_below(b0.rows.len());
    }
    if m == 0 {
        return Vec::new();
    }
    let levels: usize = rlc_levels(m);
    let cs = squeeze_many(b, ch, levels);
    let ghost (b1, ch1) = (b@, *ch);
    let ghost csl = lins(cs@);
    let mut tables: Vec<Vec<LinExpr>> = Vec::new();
    let mut q: usize = m - 1;
    let mut j: usize = 0;
    proof {
        assert(table_lins(tables@) =~= Seq::empty());
        lemma_computed_refl(b1);
    }
    while j < levels
        invariant
            j <= levels,
            m > 0,
            csl == lins(cs@),
            cs@.len() == levels,
            all_below(csl, b1.rows.len()),
            b@.wf(),
            computed(b1, b@),
            tables@.len() == j,
            q == quotient((m - 1) as nat, j as nat),
            (b@.rows, table_lins(tables@)) == tables_rows(b1.rows, csl, m as nat, j as nat),
            tables_below(tables@, b@.rows.len()),
            forall|k: int|
                0 <= k < j ==> (#[trigger] tables@[k])@.len() == level_width(m as nat, k as nat),
        decreases levels - j,
    {
        let width: usize = if q < 63 {
            q + 1
        } else {
            64
        };
        let ghost prior = tables@;
        let ghost n = b@.rows.len();
        proof {
            lemma_below_at(cs@, b1.rows.len(), j as int);
        }
        let table = power_ladder(b, &cs[j], width);
        tables.push(table);
        proof {
            assert(table_lins(tables@) =~= table_lins(prior).push(lins(table@)));
            assert forall|k: int| 0 <= k < tables@.len() implies all_below(
                lins((#[trigger] tables@[k])@),
                b@.rows.len(),
            ) by {
                if k < j {
                    assert(tables@[k] == prior[k]);
                    lemma_below_grow(lins(prior[k]@), n, b@.rows.len());
                }
            }
            assert forall|k: int| 0 <= k <= j implies (#[trigger] tables@[k])@.len()
                == level_width(m as nat, k as nat) by {
                if k < j {
                    assert(tables@[k] == prior[k]);
                }
            }
        }
        q = q / 64;
        j += 1;
    }
    let ghost b2 = b@;
    let ghost tl = table_lins(tables@);
    let mut alphas: Vec<LinExpr> = Vec::new();
    proof {
        lemma_computed_refl(b2);
        lemma_empty_below(b2.rows.len());
    }
    while alphas.len() < m
        invariant
            alphas@.len() <= m,
            levels == levels_of(m as nat),
            levels >= 1,
            tl == table_lins(tables@),
            tables@.len() == levels,
            tables_below(tables@, b2.rows.len()),
            forall|k: int|
                0 <= k < levels ==> (#[trigger] tables@[k])@.len() == level_width(
                    m as nat,
                    k as nat,
                ),
            b2.wf(),
            b@.wf(),
            computed(b2, b@),
            all_below(lins(alphas@), b@.rows.len()),
            (b@.rows, lins(alphas@)) == weights_rows(b2.rows, tl, alphas@.len()),
        decreases m - alphas@.len(),
    {
        let i: usize = alphas.len();
        let ghost b3 = b@;
        proof {
            lemma_digit_width(i as nat, m as nat, 0);
            assert(all_below(lins(tables@[0]@), b2.rows.len()));
            lemma_below_at(tables@[0]@, b2.rows.len(), level_digit(i as nat, 0) as int);
            assert(tables@[0]@.len() == level_width(m as nat, 0));
            lemma_computed_refl(b3);
        }
        let mut w = tables[0][i % 64].dup();
        let mut x: usize = i / 64;
        let mut k: usize = 1;
        proof {
            reveal_with_fuel(quotient, 2);
            assert(tl[0] == lins(tables@[0]@));
        }
        while k < levels
            invariant
                1 <= k <= levels,
                i < m,
                tl == table_lins(tables@),
                tables@.len() == levels,
                tables_below(tables@, b2.rows.len()),
                forall|l: int|
                    0 <= l < levels ==> (#[trigger] tables@[l])@.len() == level_width(
                        m as nat,
                        l as nat,
                    ),
                b@.wf(),
                computed(b3, b@),
                b3.grows(b2),
                x == quotient(i as nat, k as nat),
                w@.below(b@.rows.len()),
                (b@.rows, w@) == weight_rows(b3.rows, tl, i as nat, k as nat),
            decreases levels - k,
        {
            let d: usize = x % 64;
            proof {
                lemma_digit_width(i as nat, m as nat, k as nat);
                assert(tables@[k as int]@.len() == level_width(m as nat, k as nat));
                assert(all_below(lins(tables@[k as int]@), b2.rows.len()));
                lemma_below_at(tables@[k as int]@, b2.rows.len(), d as int);
                assert(tl[k as int] == lins(tables@[k as int]@));
            }
            x = x / 64;
            if d > 0 {
                w = times(b, &w, &tables[k][d]);
            }
            k += 1;
        }
        proof {
            lemma_below_push(alphas@, w, b3.rows.len(), b@.rows.len());
        }
        alphas.push(w);
    }
    proof {
        lemma_drew_end(b0, ch0, b1, ch1, b@, *ch);
    }
    alphas
}

// ---------------------------------------------------------------------------
// Claims
// ---------------------------------------------------------------------------

/// A claimed evaluation at a point.
#[derive(Debug)]
pub struct EvalClaimTrace {
    pub point: Vec<LinExpr>,
    pub value: LinExpr,
}

/// A reduced claim.
#[derive(Debug)]
pub struct BatchEvalReductionTrace {
    pub point: Vec<LinExpr>,
    pub value: LinExpr,
}

impl BatchEvalReductionTrace {
    /// A point of `n` coordinates, over wires below a bound.
    pub open spec fn fits(&self, n: nat, below: nat) -> bool {
        self.point@.len() == n && all_below(lins(self.point@), below) && self.value@.below(below)
    }

    /// A copy.
    pub fn dup(&self) -> (r: BatchEvalReductionTrace)
        ensures
            lins(r.point@) == lins(self.point@),
            r.point@.len() == self.point@.len(),
            r.value@ == self.value@,
    {
        BatchEvalReductionTrace { point: dup_all(&self.point), value: self.value.dup() }
    }
}

/// A proof of one column.
#[derive(Debug)]
pub struct BatchEvalProofTrace {
    pub rounds: Vec<BatchEvalRoundTrace>,
    pub b_final: LinExpr,
}

/// A proof of several columns.
#[derive(Debug)]
pub struct MultiBatchEvalProofTrace {
    pub rounds: Vec<BatchEvalRoundTrace>,
    pub b_finals: Vec<LinExpr>,
}

/// A proof of linear relations.
#[derive(Debug)]
pub struct LinearEvalProofTrace {
    pub rounds: Vec<BatchEvalRoundTrace>,
    pub b_final: LinExpr,
}

/// A term of a linear relation: a boolean point, by its index, and a
/// coefficient.
#[derive(Debug)]
pub struct LinearEvalTermTrace {
    pub index: usize,
    pub coeff: LinExpr,
}

/// A linear relation: its terms and their sum.
#[derive(Debug)]
pub struct LinearEvalClaimTrace {
    pub terms: Vec<LinearEvalTermTrace>,
    pub value: LinExpr,
}

pub open spec fn claim_points(claims: Seq<EvalClaimTrace>) -> Seq<Seq<Lin>> {
    Seq::new(claims.len(), |i: int| lins(claims[i].point@))
}

pub open spec fn claim_values(claims: Seq<EvalClaimTrace>) -> Seq<Lin> {
    Seq::new(claims.len(), |i: int| claims[i].value@)
}

pub open spec fn claims_ok(claims: Seq<EvalClaimTrace>, n: nat, below: nat) -> bool {
    forall|i: int|
        0 <= i < claims.len() ==> (#[trigger] claims[i]).point@.len() == n && all_below(
            lins(claims[i].point@),
            below,
        ) && claims[i].value@.below(below)
}

/// The terms of a relation.
pub open spec fn term_views(terms: Seq<LinearEvalTermTrace>) -> Seq<(nat, Lin)> {
    Seq::new(terms.len(), |i: int| (terms[i].index as nat, terms[i].coeff@))
}

pub open spec fn linear_terms(claims: Seq<LinearEvalClaimTrace>) -> Seq<Seq<(nat, Lin)>> {
    Seq::new(claims.len(), |i: int| term_views(claims[i].terms@))
}

pub open spec fn linear_values(claims: Seq<LinearEvalClaimTrace>) -> Seq<Lin> {
    Seq::new(claims.len(), |i: int| claims[i].value@)
}

pub open spec fn terms_below(terms: Seq<LinearEvalTermTrace>, below: nat) -> bool {
    forall|i: int| 0 <= i < terms.len() ==> (#[trigger] terms[i]).coeff@.below(below)
}

pub open spec fn linear_ok(claims: Seq<LinearEvalClaimTrace>, below: nat) -> bool {
    forall|i: int|
        0 <= i < claims.len() ==> terms_below((#[trigger] claims[i]).terms@, below)
            && claims[i].value@.below(below)
}

pub open spec fn reversed<A>(s: Seq<A>) -> Seq<A> {
    Seq::new(s.len(), |i: int| s[s.len() - 1 - i])
}

/// The operations that absorb claims.
pub open spec fn absorb_claims(t: Tape, points: Seq<Seq<Lin>>, values: Seq<Lin>, n: nat) -> Tape
    decreases n,
{
    if n == 0 {
        t
    } else {
        absorb_claims(t, points, values, (n - 1) as nat).absorb_const(
            points[n - 1].len(),
        ).absorb(values[n - 1])
    }
}

proof fn lemma_absorb_rows(t: Tape, points: Seq<Seq<Lin>>, values: Seq<Lin>, n: nat)
    ensures
        absorb_claims(t, points, values, n).rows == t.rows,
    decreases n,
{
    if n > 0 {
        lemma_absorb_rows(t, points, values, (n - 1) as nat);
    }
}

/// The equality indicators of points.
pub open spec fn indicators(points: Seq<Seq<F128>>, r: Seq<F128>) -> Seq<F128> {
    Seq::new(points.len(), |i: int| equal_at(points[i], r, r.len()))
}

pub open spec fn rows_at(s: Seq<Seq<Lin>>, z: Seq<F128>) -> Seq<Seq<F128>> {
    Seq::new(s.len(), |i: int| evals_at(s[i], z))
}

pub open spec fn indicator_rows(c: Seq<Row>, points: Seq<Seq<Lin>>, r: Seq<Lin>, n: nat) -> (
    Seq<Row>,
    Seq<Lin>,
)
    decreases n,
{
    if n == 0 {
        (c, Seq::empty())
    } else {
        let (c1, es) = indicator_rows(c, points, r, (n - 1) as nat);
        let (c2, e) = equal_rows(c1, points[n - 1], r, r.len());
        (c2, es.push(e))
    }
}

pub proof fn lemma_indicators_past(
    c: Seq<Row>,
    points: Seq<Seq<Lin>>,
    r: Seq<Lin>,
    n: nat,
    z: Seq<F128>,
)
    requires
        n <= points.len(),
        forall|i: int| 0 <= i < points.len() ==> (#[trigger] points[i]).len() == r.len(),
    ensures
        prefix(c, indicator_rows(c, points, r, n).0),
        indicator_rows(c, points, r, n).1.len() == n,
        holds_past(indicator_rows(c, points, r, n).0, c.len(), z) ==> evals_at(
            indicator_rows(c, points, r, n).1,
            z,
        ) == indicators(rows_at(points, z), evals_at(r, z)).take(n as int),
    decreases n,
{
    broadcast use lemma_prefix_trans;

    let want = indicators(rows_at(points, z), evals_at(r, z));
    if n > 0 {
        let m = (n - 1) as nat;
        let (c1, es) = indicator_rows(c, points, r, m);
        lemma_indicators_past(c, points, r, m, z);
        lemma_equal_past(c1, points[n - 1], r, r.len(), z);
        let (c2, e) = equal_rows(c1, points[n - 1], r, r.len());
        if holds_past(c2, c.len(), z) {
            lemma_past_split(c2, c1, c.len(), z);
            assert(evals_at(es.push(e), z) =~= want.take(n as int)) by {
                assert forall|i: int| 0 <= i < n implies evals_at(es.push(e), z)[i] == want[i] by {
                    if i < m {
                        assert(evals_at(es, z)[i] == want.take(m as int)[i]);
                    }
                }
            }
        }
    } else {
        assert(evals_at(Seq::<Lin>::empty(), z) =~= want.take(0));
    }
}

/// The equality indicators of claims at a point.
fn claim_indicators(b: &mut FieldR1csBuilder, claims: &Vec<EvalClaimTrace>, r: &Vec<LinExpr>) -> (
    es: Vec<LinExpr>)
    requires
        old(b)@.wf(),
        claims_ok(claims@, r@.len(), old(b)@.rows.len()),
        all_below(lins(r@), old(b)@.rows.len()),
    ensures
        (final(b)@.rows, lins(es@)) == indicator_rows(
            old(b)@.rows,
            claim_points(claims@),
            lins(r@),
            claims@.len(),
        ),
        es@.len() == claims@.len(),
        computed(old(b)@, final(b)@),
        all_below(lins(es@), final(b)@.rows.len()),
{
    let ghost b0 = b@;
    let mut es: Vec<LinExpr> = Vec::new();
    proof {
        lemma_computed_refl(b0);
        lemma_empty_below(b0.rows.len());
    }
    while es.len() < claims.len()
        invariant
            es@.len() <= claims@.len(),
            claims_ok(claims@, r@.len(), b0.rows.len()),
            all_below(lins(r@), b0.rows.len()),
            b@.wf(),
            computed(b0, b@),
            all_below(lins(es@), b@.rows.len()),
            (b@.rows, lins(es@)) == indicator_rows(
                b0.rows,
                claim_points(claims@),
                lins(r@),
                es@.len(),
            ),
        decreases claims@.len() - es@.len(),
    {
        let i: usize = es.len();
        let ghost m = b@.rows.len();
        proof {
            assert(claims@[i as int].point@.len() == r@.len());
            lemma_below_grow(lins(claims@[i as int].point@), b0.rows.len(), m);
            lemma_below_grow(lins(r@), b0.rows.len(), m);
            assert(claim_points(claims@)[i as int] == lins(claims@[i as int].point@));
        }
        let e = eq_ind_trace(b, &claims[i].point, r);
        proof {
            lemma_below_push(es@, e, m, b@.rows.len());
        }
        es.push(e);
    }
    es
}

fn absorb_claims_trace(ch: &mut RawChannelTrace, claims: &Vec<EvalClaimTrace>, Ghost(rows): Ghost<Seq<Row>>)
    ensures
        (Tape { rows, ops: final(ch)@ }) == absorb_claims(
            Tape { rows, ops: old(ch)@ },
            claim_points(claims@),
            claim_values(claims@),
            claims@.len(),
        ),
        kept(*old(ch), *final(ch)),
{
    let mut i: usize = 0;
    while i < claims.len()
        invariant
            i <= claims@.len(),
            (Tape { rows, ops: ch@ }) == absorb_claims(
                Tape { rows, ops: old(ch)@ },
                claim_points(claims@),
                claim_values(claims@),
                i as nat,
            ),
            kept(*old(ch), *ch),
        decreases claims@.len() - i,
    {
        assert(claim_points(claims@)[i as int].len() == claims@[i as int].point@.len());
        assert(claim_values(claims@)[i as int] == claims@[i as int].value@);
        ch.absorb_const_tower(claims[i].point.len() as u128);
        ch.absorb(&claims[i].value);
        i += 1;
    }
}

fn values_of(claims: &Vec<EvalClaimTrace>, Ghost(n): Ghost<nat>, Ghost(below): Ghost<nat>) -> (r: Vec<
    LinExpr,
>)
    requires
        claims_ok(claims@, n, below),
    ensures
        lins(r@) == claim_values(claims@),
        r@.len() == claims@.len(),
        all_below(lins(r@), below),
{
    let mut r: Vec<LinExpr> = Vec::new();
    proof {
        lemma_empty_below(below);
    }
    while r.len() < claims.len()
        invariant
            r@.len() <= claims@.len(),
            claims_ok(claims@, n, below),
            all_below(lins(r@), below),
            forall|i: int| 0 <= i < r@.len() ==> (#[trigger] r@[i])@ == claims@[i].value@,
        decreases claims@.len() - r@.len(),
    {
        let i: usize = r.len();
        let v = claims[i].value.dup();
        proof {
            assert(claims@[i as int].value@.below(below));
            lemma_below_push(r@, v, below, below);
        }
        r.push(v);
    }
    assert(lins(r@) =~= claim_values(claims@));
    r
}

pub fn reverse(s: &Vec<LinExpr>) -> (r: Vec<LinExpr>)
    ensures
        lins(r@) == reversed(lins(s@)),
        r@.len() == s@.len(),
{
    let mut r: Vec<LinExpr> = Vec::new();
    while r.len() < s.len()
        invariant
            r@.len() <= s@.len(),
            forall|i: int| 0 <= i < r@.len() ==> (#[trigger] r@[i])@ == s@[s@.len() - 1 - i]@,
        decreases s@.len() - r@.len(),
    {
        let i: usize = r.len();
        r.push(s[s.len() - 1 - i].dup());
    }
    assert(lins(r@) =~= reversed(lins(s@)));
    r
}

pub proof fn lemma_reversed_below(s: Seq<Lin>, n: nat)
    requires
        all_below(s, n),
    ensures
        all_below(reversed(s), n),
{
    let r = reversed(s);
    assert forall|i: int| 0 <= i < r.len() implies (#[trigger] r[i]).below(n) by {
        assert(s[s.len() - 1 - i].below(n));
    }
}

// ---------------------------------------------------------------------------
// One column
// ---------------------------------------------------------------------------

/// The run of a sumcheck: its tape, the level challenges of its weights, the
/// challenges of its rounds, and what it pins.
pub struct Run {
    pub tape: Tape,
    pub levels: Seq<Lin>,
    pub challenges: Seq<Lin>,
    pub pins: Seq<Lin>,
}

/// The run over one column.
#[verifier::opaque]
pub open spec fn batch_run(
    t: Tape,
    rounds: Seq<(Lin, Lin)>,
    b_final: Lin,
    points: Seq<Seq<Lin>>,
    values: Seq<Lin>,
) -> Run {
    let m = values.len();
    let t1 = absorb_claims(t, points, values, m);
    let (t2, alphas, levels) = alphas_tape(t1, m);
    let (c3, claim) = inner_rows(t2.rows, alphas, values, m);
    let (t4, last, challenges) = rounds_tape(t2.on(c3), rounds, claim, rounds.len());
    let (c5, es) = indicator_rows(t4.rows, points, reversed(challenges), m);
    let (c6, w) = inner_rows(c5, alphas, es, m);
    let (c7, rhs) = mul_rows(c6, w, b_final);
    Run {
        tape: t4.on(pin_rows(c7, last.plus(rhs))),
        levels,
        challenges,
        pins: seq![last.plus(rhs)],
    }
}

/// What a sumcheck over one column checks: the weighted claims, reduced by the
/// rounds, equal the weighted indicators at the reversed challenges times the
/// final value.
#[verifier::opaque]
pub open spec fn batch_checks(
    rounds: Seq<(F128, F128)>,
    b_final: F128,
    points: Seq<Seq<F128>>,
    values: Seq<F128>,
    levels: Seq<F128>,
    challenges: Seq<F128>,
) -> bool {
    let weights = rlc_weights(levels, values.len());
    claim_after(rounds, inner(weights, values, values.len()), challenges, rounds.len()) == inner(
        weights,
        indicators(points, reversed(challenges)),
        values.len(),
    ).times(b_final)
}

/// The pinned expression is zero exactly where the claims check.
pub proof fn lemma_batch_past(
    t: Tape,
    rounds: Seq<(Lin, Lin)>,
    b_final: Lin,
    points: Seq<Seq<Lin>>,
    values: Seq<Lin>,
    z: Seq<F128>,
)
    requires
        points.len() == values.len(),
        forall|i: int| 0 <= i < points.len() ==> (#[trigger] points[i]).len() == rounds.len(),
    ensures
        prefix(t.rows, batch_run(t, rounds, b_final, points, values).tape.rows),
        holds_past(
            batch_run(t, rounds, b_final, points, values).tape.rows,
            t.rows.len(),
            z,
        ) ==> (all_zero(batch_run(t, rounds, b_final, points, values).pins, z) <==> batch_checks(
            pair_evals(rounds, z),
            b_final.eval(z),
            rows_at(points, z),
            evals_at(values, z),
            evals_at(batch_run(t, rounds, b_final, points, values).levels, z),
            evals_at(batch_run(t, rounds, b_final, points, values).challenges, z),
        )),
{
    broadcast use {lemma_prefix_trans, group_lin, lemma_plus_is_zero};

    reveal(batch_run);
    reveal(batch_checks);
    lemma_batch_parts(t, rounds, b_final, points, values, z);
    let m = values.len();
    let t1 = absorb_claims(t, points, values, m);
    let (t2, alphas, levels) = alphas_tape(t1, m);
    let (c3, claim) = inner_rows(t2.rows, alphas, values, m);
    let (t4, last, challenges) = rounds_tape(t2.on(c3), rounds, claim, rounds.len());
    let (c5, es) = indicator_rows(t4.rows, points, reversed(challenges), m);
    let (c6, w) = inner_rows(c5, alphas, es, m);
    let (c7, rhs) = mul_rows(c6, w, b_final);
    let e = last.plus(rhs);
    lemma_pin_prefix(c7, e);
    let rows = pin_rows(c7, e);
    if holds_past(rows, t.rows.len(), z) {
        lemma_past_split(rows, c7, t.rows.len(), z);
        let pins = seq![e];
        assert(pins[0] == e);
        assert(all_zero(pins, z) <==> e.eval(z) == F128::zero());
    }
}

/// Soundness: a run whose rows hold, pins and all, has checked its claims.
pub proof fn lemma_batch_sound(
    t: Tape,
    rounds: Seq<(Lin, Lin)>,
    b_final: Lin,
    points: Seq<Seq<Lin>>,
    values: Seq<Lin>,
    z: Seq<F128>,
)
    requires
        points.len() == values.len(),
        forall|i: int| 0 <= i < points.len() ==> (#[trigger] points[i]).len() == rounds.len(),
        sat(batch_run(t, rounds, b_final, points, values).tape.rows, z),
    ensures
        sat(t.rows, z),
        batch_checks(
            pair_evals(rounds, z),
            b_final.eval(z),
            rows_at(points, z),
            evals_at(values, z),
            evals_at(batch_run(t, rounds, b_final, points, values).levels, z),
            evals_at(batch_run(t, rounds, b_final, points, values).challenges, z),
        ),
{
    reveal(batch_run);
    lemma_batch_past(t, rounds, b_final, points, values, z);
    let run = batch_run(t, rounds, b_final, points, values);
    lemma_sat_past(run.tape.rows, t.rows.len(), z);
    crate::circuit::lemma_sat_prefix(t.rows, run.tape.rows, z);
    let c = run.tape.rows.drop_last();
    assert(run.tape.rows == pin_rows(c, run.pins[0])) by {
        assert(c =~= run.tape.rows.take(run.tape.rows.len() - 1));
        assert(run.tape.rows.drop_last().push(run.tape.rows.last()) =~= run.tape.rows);
    }
    lemma_prefix_refl(run.tape.rows);
    lemma_sat_pin(run.tape.rows, c, run.pins[0], z);
}

/// The two sides of the final check, before it is pinned.
proof fn lemma_batch_parts(
    t: Tape,
    rounds: Seq<(Lin, Lin)>,
    b_final: Lin,
    points: Seq<Seq<Lin>>,
    values: Seq<Lin>,
    z: Seq<F128>,
)
    requires
        points.len() == values.len(),
        forall|i: int| 0 <= i < points.len() ==> (#[trigger] points[i]).len() == rounds.len(),
    ensures
        ({
            let m = values.len();
            let t1 = absorb_claims(t, points, values, m);
            let (t2, alphas, levels) = alphas_tape(t1, m);
            let (c3, claim) = inner_rows(t2.rows, alphas, values, m);
            let (t4, last, challenges) = rounds_tape(t2.on(c3), rounds, claim, rounds.len());
            let (c5, es) = indicator_rows(t4.rows, points, reversed(challenges), m);
            let (c6, w) = inner_rows(c5, alphas, es, m);
            let (c7, rhs) = mul_rows(c6, w, b_final);
            let weights = rlc_weights(evals_at(levels, z), m);
            let rs = evals_at(challenges, z);
            &&& prefix(t.rows, c7)
            &&& challenges.len() == rounds.len()
            &&& holds_past(c7, t.rows.len(), z) ==> last.eval(z) == claim_after(
                pair_evals(rounds, z),
                inner(weights, evals_at(values, z), m),
                rs,
                rounds.len(),
            ) && rhs.eval(z) == inner(
                weights,
                indicators(rows_at(points, z), reversed(rs)),
                m,
            ).times(b_final.eval(z))
        }),
{
    broadcast use {lemma_prefix_trans, group_lin};

    reveal(batch_run);
    reveal(batch_checks);
    let m = values.len();
    let t1 = absorb_claims(t, points, values, m);
    lemma_absorb_rows(t, points, values, m);
    let (t2, alphas, levels) = alphas_tape(t1, m);
    lemma_alphas_past(t1, m, z);
    let (c3, claim) = inner_rows(t2.rows, alphas, values, m);
    lemma_inner_past(t2.rows, alphas, values, m, z);
    let (t4, last, challenges) = rounds_tape(t2.on(c3), rounds, claim, rounds.len());
    lemma_rounds_past(t2.on(c3), rounds, claim, rounds.len(), z);
    let point = reversed(challenges);
    let (c5, es) = indicator_rows(t4.rows, points, point, m);
    lemma_indicators_past(t4.rows, points, point, m, z);
    let (c6, w) = inner_rows(c5, alphas, es, m);
    lemma_inner_past(c5, alphas, es, m, z);
    let (c7, rhs) = mul_rows(c6, w, b_final);
    lemma_mul_past(c6, w, b_final, z);
    if holds_past(c7, t.rows.len(), z) {
        lemma_past_split(c7, c6, t.rows.len(), z);
        lemma_past_split(c6, c5, t.rows.len(), z);
        lemma_past_split(c5, t4.rows, t.rows.len(), z);
        lemma_past_split(t4.rows, c3, t.rows.len(), z);
        lemma_past_split(c3, t2.rows, t.rows.len(), z);
        let rs = evals_at(challenges, z);
        assert(evals_at(point, z) =~= reversed(rs));
        let all = indicators(rows_at(points, z), reversed(rs));
        assert(all.take(m as int) =~= all);
    }
}

/// Reduces claims about one column to one claim at a common point.
pub fn verify_batch_eval_trace(
    b: &mut FieldR1csBuilder,
    ch: &mut RawChannelTrace,
    proof: &BatchEvalProofTrace,
    claims: &Vec<EvalClaimTrace>,
    n: usize,
) -> (r: BatchEvalReductionTrace)
    requires
        old(b)@.wf(),
        claims@.len() > 0,
        proof.rounds@.len() == n,
        claims_ok(claims@, n as nat, old(b)@.rows.len()),
        rounds_below(proof.rounds@, old(b)@.rows.len()),
        proof.b_final@.below(old(b)@.rows.len()),
    ensures
        ({
            let run = batch_run(
                tape(*old(b), *old(ch)),
                round_lanes(proof.rounds@),
                proof.b_final@,
                claim_points(claims@),
                claim_values(claims@),
            );
            &&& tape(*final(b), *final(ch)) == run.tape
            &&& pinned(old(b)@, final(b)@, run.pins)
            &&& lins(r.point@) == reversed(run.challenges)
            &&& final(b)@.honest() <==> old(b)@.honest() && batch_checks(
                pair_evals(round_lanes(proof.rounds@), final(b)@.values),
                proof.b_final@.eval(final(b)@.values),
                rows_at(claim_points(claims@), final(b)@.values),
                evals_at(claim_values(claims@), final(b)@.values),
                evals_at(run.levels, final(b)@.values),
                evals_at(run.challenges, final(b)@.values),
            )
        }),
        final(b)@.grows(old(b)@),
        r.value@ == proof.b_final@,
        r.point@.len() == n,
        all_below(lins(r.point@), final(b)@.rows.len()),
        drew(old(b)@, *old(ch), final(b)@, *final(ch)),
{
    proof {
        reveal(batch_run);
    }
    let ghost b0 = b@;
    let ghost ch0 = *ch;
    let ghost t0 = tape(*b, *ch);
    let ghost below = b0.rows.len();
    absorb_claims_trace(ch, claims, Ghost(b@.rows));
    let ghost ch1 = *ch;
    let alphas = squeeze_alphas_trace(b, ch, claims.len());
    let ghost ch2 = *ch;
    let ghost b1 = b@;
    let values = values_of(claims, Ghost(n as nat), Ghost(below));
    proof {
        lemma_below_grow(lins(values@), below, b1.rows.len());
    }
    let claim = inner_product(b, &alphas, &values);
    let ghost b2 = b@;
    proof {
        assert(rounds_below(proof.rounds@, b2.rows.len())) by {
            assert forall|i: int| 0 <= i < proof.rounds@.len() implies (
            #[trigger] proof.rounds@[i]).below(b2.rows.len()) by {
                assert(proof.rounds@[i].below(below));
            }
        }
    }
    let (last, challenges) = run_rounds(b, ch, &proof.rounds, claim);
    let ghost (b3, ch3) = (b@, *ch);
    let point = reverse(&challenges);
    proof {
        lemma_reversed_below(lins(challenges@), b3.rows.len());
        assert(claims_ok(claims@, n as nat, b3.rows.len())) by {
            assert forall|i: int| 0 <= i < claims@.len() implies (
            #[trigger] claims@[i]).point@.len() == n && all_below(
                lins(claims@[i].point@),
                b3.rows.len(),
            ) && claims@[i].value@.below(b3.rows.len()) by {
                lemma_below_grow(lins(claims@[i].point@), below, b3.rows.len());
            }
        }
    }
    let es = claim_indicators(b, claims, &point);
    let ghost b4 = b@;
    proof {
        lemma_below_grow(lins(alphas@), b1.rows.len(), b4.rows.len());
    }
    let w = inner_product(b, &alphas, &es);
    let rhs = times(b, &w, &proof.b_final);
    let e = last.add(&rhs);
    proof {
        lemma_pinned_none(b0, b@);
    }
    pin_after(b, &e, Ghost(b0), Ghost(Seq::empty()));
    proof {
        let z = b@.values;
        lemma_batch_past(
            t0,
            round_lanes(proof.rounds@),
            proof.b_final@,
            claim_points(claims@),
            claim_values(claims@),
            z,
        );
        lemma_below_grow(lins(point@), b3.rows.len(), b@.rows.len());
        let run = batch_run(
            t0,
            round_lanes(proof.rounds@),
            proof.b_final@,
            claim_points(claims@),
            claim_values(claims@),
        );
        assert(tape(*b, *ch) == run.tape);
        assert(run.challenges == lins(challenges@));
        assert(Seq::<Lin>::empty().push(e@) =~= run.pins);
        lemma_drew_kept(b0, ch0, b0, ch0);
        lemma_drew_step(b0, ch0, b0, ch0, b0, ch1, b1, ch2, b2);
        lemma_drew_step(b0, ch0, b2, ch2, b2, ch2, b3, ch3, b@);
    }
    BatchEvalReductionTrace { point, value: proof.b_final.dup() }
}

// ---------------------------------------------------------------------------
// Linear relations
// ---------------------------------------------------------------------------

/// The first `n` terms of a relation at a point.
pub open spec fn relation_value(terms: Seq<(nat, F128)>, r: Seq<F128>, n: nat) -> F128
    decreases n,
{
    if n == 0 {
        F128::zero()
    } else {
        let (index, coeff) = terms[n - 1];
        relation_value(terms, r, (n - 1) as nat).plus(
            equal_at(index_point(index, r.len()), r, r.len()).times(coeff),
        )
    }
}

pub open spec fn terms_at(terms: Seq<(nat, Lin)>, z: Seq<F128>) -> Seq<(nat, F128)> {
    Seq::new(terms.len(), |i: int| (terms[i].0, terms[i].1.eval(z)))
}

pub open spec fn relations_at(terms: Seq<Seq<(nat, Lin)>>, z: Seq<F128>) -> Seq<
    Seq<(nat, F128)>,
> {
    Seq::new(terms.len(), |i: int| terms_at(terms[i], z))
}

pub open spec fn relation_rows(c: Seq<Row>, terms: Seq<(nat, Lin)>, r: Seq<Lin>, n: nat) -> (
    Seq<Row>,
    Lin,
)
    decreases n,
{
    if n == 0 {
        (c, Lin::zero())
    } else {
        let (c1, sum) = relation_rows(c, terms, r, (n - 1) as nat);
        let (c2, e) = index_rows(c1, terms[n - 1].0, r, r.len());
        let (c3, p) = mul_rows(c2, e, terms[n - 1].1);
        (c3, sum.plus(p))
    }
}

pub open spec fn relations_rows(c: Seq<Row>, terms: Seq<Seq<(nat, Lin)>>, r: Seq<Lin>, n: nat) -> (
    Seq<Row>,
    Seq<Lin>,
)
    decreases n,
{
    if n == 0 {
        (c, Seq::empty())
    } else {
        let (c1, sums) = relations_rows(c, terms, r, (n - 1) as nat);
        let (c2, s) = relation_rows(c1, terms[n - 1], r, terms[n - 1].len());
        (c2, sums.push(s))
    }
}

/// The values of relations at a point.
pub open spec fn relation_values(terms: Seq<Seq<(nat, F128)>>, r: Seq<F128>) -> Seq<F128> {
    Seq::new(terms.len(), |i: int| relation_value(terms[i], r, terms[i].len()))
}

proof fn lemma_relation_past(
    c: Seq<Row>,
    terms: Seq<(nat, Lin)>,
    r: Seq<Lin>,
    n: nat,
    z: Seq<F128>,
)
    requires
        n <= terms.len(),
    ensures
        prefix(c, relation_rows(c, terms, r, n).0),
        holds_past(relation_rows(c, terms, r, n).0, c.len(), z) ==> relation_rows(
            c,
            terms,
            r,
            n,
        ).1.eval(z) == relation_value(terms_at(terms, z), evals_at(r, z), n),
    decreases n,
{
    broadcast use {lemma_prefix_trans, group_lin};

    if n > 0 {
        let m = (n - 1) as nat;
        let (c1, sum) = relation_rows(c, terms, r, m);
        lemma_relation_past(c, terms, r, m, z);
        let (index, coeff) = terms[n - 1];
        lemma_index_past(c1, index, r, r.len(), z);
        let (c2, e) = index_rows(c1, index, r, r.len());
        lemma_mul_past(c2, e, coeff, z);
        let (c3, p) = mul_rows(c2, e, coeff);
        assert(prefix(c, c2));
        if holds_past(c3, c.len(), z) {
            lemma_past_split(c3, c2, c.len(), z);
            lemma_past_split(c2, c1, c.len(), z);
        }
    }
}

proof fn lemma_relations_past(
    c: Seq<Row>,
    terms: Seq<Seq<(nat, Lin)>>,
    r: Seq<Lin>,
    n: nat,
    z: Seq<F128>,
)
    requires
        n <= terms.len(),
    ensures
        prefix(c, relations_rows(c, terms, r, n).0),
        relations_rows(c, terms, r, n).1.len() == n,
        holds_past(relations_rows(c, terms, r, n).0, c.len(), z) ==> evals_at(
            relations_rows(c, terms, r, n).1,
            z,
        ) == relation_values(relations_at(terms, z), evals_at(r, z)).take(n as int),
    decreases n,
{
    broadcast use lemma_prefix_trans;

    let want = relation_values(relations_at(terms, z), evals_at(r, z));
    if n > 0 {
        let m = (n - 1) as nat;
        let (c1, sums) = relations_rows(c, terms, r, m);
        lemma_relations_past(c, terms, r, m, z);
        lemma_relation_past(c1, terms[n - 1], r, terms[n - 1].len(), z);
        let (c2, s) = relation_rows(c1, terms[n - 1], r, terms[n - 1].len());
        if holds_past(c2, c.len(), z) {
            lemma_past_split(c2, c1, c.len(), z);
            assert(evals_at(sums.push(s), z) =~= want.take(n as int)) by {
                assert forall|i: int| 0 <= i < n implies evals_at(sums.push(s), z)[i]
                    == want[i] by {
                    if i < m {
                        assert(evals_at(sums, z)[i] == want.take(m as int)[i]);
                    }
                }
            }
        }
    } else {
        assert(evals_at(Seq::<Lin>::empty(), z) =~= want.take(0));
    }
}

fn relation_sum(b: &mut FieldR1csBuilder, terms: &Vec<LinearEvalTermTrace>, r: &Vec<LinExpr>) -> (
    sum: LinExpr)
    requires
        old(b)@.wf(),
        r@.len() <= 128,
        terms_below(terms@, old(b)@.rows.len()),
        all_below(lins(r@), old(b)@.rows.len()),
    ensures
        (final(b)@.rows, sum@) == relation_rows(
            old(b)@.rows,
            term_views(terms@),
            lins(r@),
            terms@.len(),
        ),
        computed(old(b)@, final(b)@),
        sum@.below(final(b)@.rows.len()),
{
    let ghost b0 = b@;
    let mut sum = LinExpr::zero();
    let mut i: usize = 0;
    proof {
        lemma_computed_refl(b0);
    }
    while i < terms.len()
        invariant
            i <= terms@.len(),
            r@.len() <= 128,
            terms_below(terms@, b0.rows.len()),
            all_below(lins(r@), b0.rows.len()),
            b@.wf(),
            computed(b0, b@),
            (b@.rows, sum@) == relation_rows(b0.rows, term_views(terms@), lins(r@), i as nat),
            sum@.below(b@.rows.len()),
        decreases terms@.len() - i,
    {
        proof {
            lemma_below_grow(lins(r@), b0.rows.len(), b@.rows.len());
            assert(terms@[i as int].coeff@.below(b0.rows.len()));
        }
        let e = index_eq_trace(b, terms[i].index, r);
        let p = times(b, &e, &terms[i].coeff);
        sum = sum.add(&p);
        i += 1;
    }
    sum
}

/// The number of terms of the first `n` relations.
pub open spec fn term_count(terms: Seq<Seq<(nat, Lin)>>, n: nat) -> nat
    decreases n,
{
    if n == 0 {
        0
    } else {
        term_count(terms, (n - 1) as nat) + terms[n - 1].len()
    }
}

/// The run over linear relations. `tag` names this form of binding and
/// `relation_tag` the relations, whose shape is absorbed by counts alone.
#[verifier::opaque]
pub open spec fn linear_run(
    t: Tape,
    rounds: Seq<(Lin, Lin)>,
    b_final: Lin,
    terms: Seq<Seq<(nat, Lin)>>,
    values: Seq<Lin>,
    tag: nat,
    relation_tag: nat,
) -> Run {
    let m = values.len();
    let t1 = t.absorb_const(tag).absorb_const(relation_tag).absorb_const(
        rounds.len(),
    ).absorb_const(m).absorb_const(term_count(terms, terms.len()));
    let (t2, alphas, levels) = alphas_tape(t1, m);
    let (c3, claim) = inner_rows(t2.rows, alphas, values, m);
    let (t4, last, challenges) = rounds_tape(t2.on(c3), rounds, claim, rounds.len());
    let (c5, sums) = relations_rows(t4.rows, terms, reversed(challenges), m);
    let (c6, w) = inner_rows(c5, alphas, sums, m);
    let (c7, rhs) = mul_rows(c6, w, b_final);
    Run {
        tape: t4.on(pin_rows(c7, last.plus(rhs))),
        levels,
        challenges,
        pins: seq![last.plus(rhs)],
    }
}

/// What a sumcheck over linear relations checks.
#[verifier::opaque]
pub open spec fn linear_checks(
    rounds: Seq<(F128, F128)>,
    b_final: F128,
    terms: Seq<Seq<(nat, F128)>>,
    values: Seq<F128>,
    levels: Seq<F128>,
    challenges: Seq<F128>,
) -> bool {
    let weights = rlc_weights(levels, values.len());
    claim_after(rounds, inner(weights, values, values.len()), challenges, rounds.len()) == inner(
        weights,
        relation_values(terms, reversed(challenges)),
        values.len(),
    ).times(b_final)
}

proof fn lemma_linear_parts(
    t: Tape,
    rounds: Seq<(Lin, Lin)>,
    b_final: Lin,
    terms: Seq<Seq<(nat, Lin)>>,
    values: Seq<Lin>,
    tag: nat,
    relation_tag: nat,
    z: Seq<F128>,
)
    requires
        terms.len() == values.len(),
    ensures
        ({
            let m = values.len();
            let t1 = t.absorb_const(tag).absorb_const(relation_tag).absorb_const(
                rounds.len(),
            ).absorb_const(m).absorb_const(term_count(terms, terms.len()));
            let (t2, alphas, levels) = alphas_tape(t1, m);
            let (c3, claim) = inner_rows(t2.rows, alphas, values, m);
            let (t4, last, challenges) = rounds_tape(t2.on(c3), rounds, claim, rounds.len());
            let (c5, sums) = relations_rows(t4.rows, terms, reversed(challenges), m);
            let (c6, w) = inner_rows(c5, alphas, sums, m);
            let (c7, rhs) = mul_rows(c6, w, b_final);
            let weights = rlc_weights(evals_at(levels, z), m);
            let rs = evals_at(challenges, z);
            &&& prefix(t.rows, c7)
            &&& challenges.len() == rounds.len()
            &&& holds_past(c7, t.rows.len(), z) ==> last.eval(z) == claim_after(
                pair_evals(rounds, z),
                inner(weights, evals_at(values, z), m),
                rs,
                rounds.len(),
            ) && rhs.eval(z) == inner(
                weights,
                relation_values(relations_at(terms, z), reversed(rs)),
                m,
            ).times(b_final.eval(z))
        }),
{
    broadcast use {lemma_prefix_trans, group_lin};

    reveal(linear_run);
    reveal(linear_checks);
    let m = values.len();
    let t1 = t.absorb_const(tag).absorb_const(relation_tag).absorb_const(
        rounds.len(),
    ).absorb_const(m).absorb_const(term_count(terms, terms.len()));
    let (t2, alphas, levels) = alphas_tape(t1, m);
    lemma_alphas_past(t1, m, z);
    let (c3, claim) = inner_rows(t2.rows, alphas, values, m);
    lemma_inner_past(t2.rows, alphas, values, m, z);
    let (t4, last, challenges) = rounds_tape(t2.on(c3), rounds, claim, rounds.len());
    lemma_rounds_past(t2.on(c3), rounds, claim, rounds.len(), z);
    let point = reversed(challenges);
    let (c5, sums) = relations_rows(t4.rows, terms, point, m);
    lemma_relations_past(t4.rows, terms, point, m, z);
    let (c6, w) = inner_rows(c5, alphas, sums, m);
    lemma_inner_past(c5, alphas, sums, m, z);
    let (c7, rhs) = mul_rows(c6, w, b_final);
    lemma_mul_past(c6, w, b_final, z);
    if holds_past(c7, t.rows.len(), z) {
        lemma_past_split(c7, c6, t.rows.len(), z);
        lemma_past_split(c6, c5, t.rows.len(), z);
        lemma_past_split(c5, t4.rows, t.rows.len(), z);
        lemma_past_split(t4.rows, c3, t.rows.len(), z);
        lemma_past_split(c3, t2.rows, t.rows.len(), z);
        let rs = evals_at(challenges, z);
        assert(evals_at(point, z) =~= reversed(rs));
        let all = relation_values(relations_at(terms, z), reversed(rs));
        assert(all.take(m as int) =~= all);
    }
}

/// The pinned expression is zero exactly where the relations check.
pub proof fn lemma_linear_past(
    t: Tape,
    rounds: Seq<(Lin, Lin)>,
    b_final: Lin,
    terms: Seq<Seq<(nat, Lin)>>,
    values: Seq<Lin>,
    tag: nat,
    relation_tag: nat,
    z: Seq<F128>,
)
    requires
        terms.len() == values.len(),
    ensures
        prefix(
            t.rows,
            linear_run(t, rounds, b_final, terms, values, tag, relation_tag).tape.rows,
        ),
        linear_run(t, rounds, b_final, terms, values, tag, relation_tag).challenges.len()
            == rounds.len(),
        holds_past(
            linear_run(t, rounds, b_final, terms, values, tag, relation_tag).tape.rows,
            t.rows.len(),
            z,
        ) ==> (all_zero(linear_run(t, rounds, b_final, terms, values, tag, relation_tag).pins, z) <==> linear_checks(
            pair_evals(rounds, z),
            b_final.eval(z),
            relations_at(terms, z),
            evals_at(values, z),
            evals_at(
                linear_run(t, rounds, b_final, terms, values, tag, relation_tag).levels,
                z,
            ),
            evals_at(
                linear_run(t, rounds, b_final, terms, values, tag, relation_tag).challenges,
                z,
            ),
        )),
{
    broadcast use {lemma_prefix_trans, group_lin, lemma_plus_is_zero};

    reveal(linear_run);
    reveal(linear_checks);
    lemma_linear_parts(t, rounds, b_final, terms, values, tag, relation_tag, z);
    let m = values.len();
    let t1 = t.absorb_const(tag).absorb_const(relation_tag).absorb_const(
        rounds.len(),
    ).absorb_const(m).absorb_const(term_count(terms, terms.len()));
    let (t2, alphas, levels) = alphas_tape(t1, m);
    let (c3, claim) = inner_rows(t2.rows, alphas, values, m);
    let (t4, last, challenges) = rounds_tape(t2.on(c3), rounds, claim, rounds.len());
    let (c5, sums) = relations_rows(t4.rows, terms, reversed(challenges), m);
    let (c6, w) = inner_rows(c5, alphas, sums, m);
    let (c7, rhs) = mul_rows(c6, w, b_final);
    let e = last.plus(rhs);
    lemma_pin_prefix(c7, e);
    let rows = pin_rows(c7, e);
    if holds_past(rows, t.rows.len(), z) {
        lemma_past_split(rows, c7, t.rows.len(), z);
        let pins = seq![e];
        assert(pins[0] == e);
        assert(all_zero(pins, z) <==> e.eval(z) == F128::zero());
    }
}

/// Soundness: a run whose rows hold, pins and all, has checked its claims.
pub proof fn lemma_linear_sound(
    t: Tape,
    rounds: Seq<(Lin, Lin)>,
    b_final: Lin,
    terms: Seq<Seq<(nat, Lin)>>,
    values: Seq<Lin>,
    tag: nat,
    relation_tag: nat,
    z: Seq<F128>,
)
    requires
        terms.len() == values.len(),
        sat(linear_run(t, rounds, b_final, terms, values, tag, relation_tag).tape.rows, z),
    ensures
        sat(t.rows, z),
        linear_checks(
            pair_evals(rounds, z),
            b_final.eval(z),
            relations_at(terms, z),
            evals_at(values, z),
            evals_at(linear_run(t, rounds, b_final, terms, values, tag, relation_tag).levels, z),
            evals_at(
                linear_run(t, rounds, b_final, terms, values, tag, relation_tag).challenges,
                z,
            ),
        ),
{
    reveal(linear_run);
    lemma_linear_past(t, rounds, b_final, terms, values, tag, relation_tag, z);
    let run = linear_run(t, rounds, b_final, terms, values, tag, relation_tag);
    lemma_sat_past(run.tape.rows, t.rows.len(), z);
    crate::circuit::lemma_sat_prefix(t.rows, run.tape.rows, z);
    let c = run.tape.rows.drop_last();
    assert(run.tape.rows == pin_rows(c, run.pins[0])) by {
        assert(c =~= run.tape.rows.take(run.tape.rows.len() - 1));
        assert(run.tape.rows.drop_last().push(run.tape.rows.last()) =~= run.tape.rows);
    }
    lemma_prefix_refl(run.tape.rows);
    lemma_sat_pin(run.tape.rows, c, run.pins[0], z);
}

fn total_terms(claims: &Vec<LinearEvalClaimTrace>) -> (r: u128)
    ensures
        r == term_count(linear_terms(claims@), claims@.len()),
{
    let mut r: u128 = 0;
    let mut i: usize = 0;
    while i < claims.len()
        invariant
            i <= claims@.len(),
            r == term_count(linear_terms(claims@), i as nat),
            r <= i * 0xffff_ffff_ffff_ffff,
        decreases claims@.len() - i,
    {
        assert(linear_terms(claims@)[i as int].len() == claims@[i as int].terms@.len());
        assert(i * 0xffff_ffff_ffff_ffff <= 0xffff_ffff_ffff_ffff * 0xffff_ffff_ffff_ffff)
            by (nonlinear_arith)
            requires
                i <= 0xffff_ffff_ffff_ffff,
        ;
        r = r + claims[i].terms.len() as u128;
        i += 1;
    }
    r
}

/// Reduces linear relations over boolean points to one claim.
pub fn verify_linear_eval_prebound_trace(
    b: &mut FieldR1csBuilder,
    ch: &mut RawChannelTrace,
    proof: &LinearEvalProofTrace,
    claims: &Vec<LinearEvalClaimTrace>,
    n: usize,
    tag: u128,
    relation_tag: u128,
) -> (r: BatchEvalReductionTrace)
    requires
        old(b)@.wf(),
        claims@.len() > 0,
        proof.rounds@.len() == n,
        n < usize::BITS,
        linear_ok(claims@, old(b)@.rows.len()),
        rounds_below(proof.rounds@, old(b)@.rows.len()),
        proof.b_final@.below(old(b)@.rows.len()),
    ensures
        ({
            let run = linear_run(
                tape(*old(b), *old(ch)),
                round_lanes(proof.rounds@),
                proof.b_final@,
                linear_terms(claims@),
                linear_values(claims@),
                tag as nat,
                relation_tag as nat,
            );
            &&& tape(*final(b), *final(ch)) == run.tape
            &&& pinned(old(b)@, final(b)@, run.pins)
            &&& lins(r.point@) == reversed(run.challenges)
            &&& final(b)@.honest() <==> old(b)@.honest() && linear_checks(
                pair_evals(round_lanes(proof.rounds@), final(b)@.values),
                proof.b_final@.eval(final(b)@.values),
                relations_at(linear_terms(claims@), final(b)@.values),
                evals_at(linear_values(claims@), final(b)@.values),
                evals_at(run.levels, final(b)@.values),
                evals_at(run.challenges, final(b)@.values),
            )
        }),
        final(b)@.grows(old(b)@),
        r.value@ == proof.b_final@,
        r.point@.len() == n,
        all_below(lins(r.point@), final(b)@.rows.len()),
        drew(old(b)@, *old(ch), final(b)@, *final(ch)),
{
    proof {
        reveal(linear_run);
    }
    let ghost b0 = b@;
    let ghost ch0 = *ch;
    let ghost t0 = tape(*b, *ch);
    let ghost below = b0.rows.len();
    let ghost terms = linear_terms(claims@);
    let total: u128 = total_terms(claims);
    ch.absorb_const_tower(tag);
    ch.absorb_const_tower(relation_tag);
    ch.absorb_const_tower(n as u128);
    ch.absorb_const_tower(claims.len() as u128);
    ch.absorb_const_tower(total);
    let ghost ch1 = *ch;
    let alphas = squeeze_alphas_trace(b, ch, claims.len());
    let ghost (b1, ch2) = (b@, *ch);
    let mut values: Vec<LinExpr> = Vec::new();
    proof {
        lemma_empty_below(below);
    }
    while values.len() < claims.len()
        invariant
            values@.len() <= claims@.len(),
            linear_ok(claims@, below),
            all_below(lins(values@), below),
            forall|i: int| 0 <= i < values@.len() ==> (#[trigger] values@[i])@ == claims@[i].value@,
        decreases claims@.len() - values@.len(),
    {
        let i: usize = values.len();
        let v = claims[i].value.dup();
        proof {
            assert(claims@[i as int].value@.below(below));
            lemma_below_push(values@, v, below, below);
        }
        values.push(v);
    }
    proof {
        assert(lins(values@) =~= linear_values(claims@));
        lemma_below_grow(lins(values@), below, b1.rows.len());
    }
    let claim = inner_product(b, &alphas, &values);
    let ghost b2 = b@;
    proof {
        assert(rounds_below(proof.rounds@, b2.rows.len())) by {
            assert forall|i: int| 0 <= i < proof.rounds@.len() implies (
            #[trigger] proof.rounds@[i]).below(b2.rows.len()) by {
                assert(proof.rounds@[i].below(below));
            }
        }
    }
    let (last, challenges) = run_rounds(b, ch, &proof.rounds, claim);
    let ghost (b3, ch3) = (b@, *ch);
    let point = reverse(&challenges);
    proof {
        lemma_reversed_below(lins(challenges@), b3.rows.len());
        lemma_empty_below(b3.rows.len());
        lemma_computed_refl(b3);
    }
    let mut sums: Vec<LinExpr> = Vec::new();
    while sums.len() < claims.len()
        invariant
            sums@.len() <= claims@.len(),
            point@.len() <= 128,
            terms == linear_terms(claims@),
            linear_ok(claims@, below),
            below <= b3.rows.len(),
            all_below(lins(point@), b3.rows.len()),
            b@.wf(),
            computed(b3, b@),
            all_below(lins(sums@), b@.rows.len()),
            (b@.rows, lins(sums@)) == relations_rows(b3.rows, terms, lins(point@), sums@.len()),
        decreases claims@.len() - sums@.len(),
    {
        let i: usize = sums.len();
        let ghost m = b@.rows.len();
        proof {
            lemma_below_grow(lins(point@), b3.rows.len(), m);
            assert(terms_below(claims@[i as int].terms@, below));
            assert(terms_below(claims@[i as int].terms@, m)) by {
                let ts = claims@[i as int].terms@;
                assert forall|k: int| 0 <= k < ts.len() implies (#[trigger] ts[k]).coeff@.below(
                    m,
                ) by {
                    assert(ts[k].coeff@.below(below));
                }
            }
            assert(terms[i as int] == term_views(claims@[i as int].terms@));
        }
        let s = relation_sum(b, &claims[i].terms, &point);
        proof {
            lemma_below_push(sums@, s, m, b@.rows.len());
        }
        sums.push(s);
    }
    let ghost b4 = b@;
    proof {
        lemma_below_grow(lins(alphas@), b1.rows.len(), b4.rows.len());
    }
    let w = inner_product(b, &alphas, &sums);
    let rhs = times(b, &w, &proof.b_final);
    let e = last.add(&rhs);
    proof {
        lemma_pinned_none(b0, b@);
    }
    pin_after(b, &e, Ghost(b0), Ghost(Seq::empty()));
    proof {
        let z = b@.values;
        let rounds = round_lanes(proof.rounds@);
        let vals = linear_values(claims@);
        lemma_linear_past(
            t0,
            rounds,
            proof.b_final@,
            terms,
            vals,
            tag as nat,
            relation_tag as nat,
            z,
        );
        lemma_below_grow(lins(point@), b3.rows.len(), b@.rows.len());
        let run = linear_run(
            t0,
            rounds,
            proof.b_final@,
            terms,
            vals,
            tag as nat,
            relation_tag as nat,
        );
        assert(tape(*b, *ch) == run.tape);
        assert(run.challenges == lins(challenges@));
        assert(Seq::<Lin>::empty().push(e@) =~= run.pins);
        lemma_drew_kept(b0, ch0, b0, ch0);
        lemma_drew_step(b0, ch0, b0, ch0, b0, ch1, b1, ch2, b2);
        lemma_drew_step(b0, ch0, b2, ch2, b2, ch2, b3, ch3, b@);
    }
    BatchEvalReductionTrace { point, value: proof.b_final.dup() }
}

// ---------------------------------------------------------------------------
// Several columns
// ---------------------------------------------------------------------------

/// The operations that absorb the claims of the first `n` columns.
pub open spec fn absorb_columns(
    t: Tape,
    points: Seq<Seq<Seq<Lin>>>,
    values: Seq<Seq<Lin>>,
    n: nat,
) -> Tape
    decreases n,
{
    if n == 0 {
        t
    } else {
        let k = (n - 1) as nat;
        let t1 = absorb_columns(t, points, values, k).absorb_const(k).absorb_const(
            values[n - 1].len(),
        );
        absorb_claims(t1, points[n - 1], values[n - 1], values[n - 1].len())
    }
}

proof fn lemma_absorb_columns_rows(
    t: Tape,
    points: Seq<Seq<Seq<Lin>>>,
    values: Seq<Seq<Lin>>,
    n: nat,
)
    ensures
        absorb_columns(t, points, values, n).rows == t.rows,
    decreases n,
{
    if n > 0 {
        let k = (n - 1) as nat;
        lemma_absorb_columns_rows(t, points, values, k);
        let t1 = absorb_columns(t, points, values, k).absorb_const(k).absorb_const(
            values[n - 1].len(),
        );
        lemma_absorb_rows(t1, points[n - 1], values[n - 1], values[n - 1].len());
    }
}

/// The weights of the first `n` columns, and their level challenges.
pub open spec fn columns_alphas(t: Tape, values: Seq<Seq<Lin>>, n: nat) -> (
    Tape,
    Seq<Seq<Lin>>,
    Seq<Seq<Lin>>,
)
    decreases n,
{
    if n == 0 {
        (t, Seq::empty(), Seq::empty())
    } else {
        let (t1, alphas, levels) = columns_alphas(t, values, (n - 1) as nat);
        let (t2, a, l) = alphas_tape(t1, values[n - 1].len());
        (t2, alphas.push(a), levels.push(l))
    }
}

/// The sum over the first `n` columns of their weighted claims.
pub open spec fn columns_inner(weights: Seq<Seq<F128>>, values: Seq<Seq<F128>>, n: nat) -> F128
    decreases n,
{
    if n == 0 {
        F128::zero()
    } else {
        columns_inner(weights, values, (n - 1) as nat).plus(
            inner(weights[n - 1], values[n - 1], values[n - 1].len()),
        )
    }
}

pub open spec fn columns_inner_rows(
    c: Seq<Row>,
    alphas: Seq<Seq<Lin>>,
    values: Seq<Seq<Lin>>,
    n: nat,
) -> (Seq<Row>, Lin)
    decreases n,
{
    if n == 0 {
        (c, Lin::zero())
    } else {
        let (c1, sum) = columns_inner_rows(c, alphas, values, (n - 1) as nat);
        let (c2, s) = inner_rows(c1, alphas[n - 1], values[n - 1], values[n - 1].len());
        (c2, sum.plus(s))
    }
}

/// The sum over the first `n` columns of their weighted indicators times their
/// final values.
pub open spec fn columns_final(
    weights: Seq<Seq<F128>>,
    points: Seq<Seq<Seq<F128>>>,
    r: Seq<F128>,
    finals: Seq<F128>,
    n: nat,
) -> F128
    decreases n,
{
    if n == 0 {
        F128::zero()
    } else {
        columns_final(weights, points, r, finals, (n - 1) as nat).plus(
            inner(
                weights[n - 1],
                indicators(points[n - 1], r),
                points[n - 1].len(),
            ).times(finals[n - 1]),
        )
    }
}

pub open spec fn columns_final_rows(
    c: Seq<Row>,
    alphas: Seq<Seq<Lin>>,
    points: Seq<Seq<Seq<Lin>>>,
    r: Seq<Lin>,
    finals: Seq<Lin>,
    n: nat,
) -> (Seq<Row>, Lin)
    decreases n,
{
    if n == 0 {
        (c, Lin::zero())
    } else {
        let (c1, sum) = columns_final_rows(c, alphas, points, r, finals, (n - 1) as nat);
        let (c2, es) = indicator_rows(c1, points[n - 1], r, points[n - 1].len());
        let (c3, w) = inner_rows(c2, alphas[n - 1], es, points[n - 1].len());
        let (c4, p) = mul_rows(c3, w, finals[n - 1]);
        (c4, sum.plus(p))
    }
}

/// The run over several columns: its tape, the level challenges of every
/// column's weights, the challenges of its rounds, and what it pins.
pub struct MultiRun {
    pub tape: Tape,
    pub levels: Seq<Seq<Lin>>,
    pub challenges: Seq<Lin>,
    pub pins: Seq<Lin>,
}

#[verifier::opaque]
pub open spec fn multi_run(
    t: Tape,
    rounds: Seq<(Lin, Lin)>,
    finals: Seq<Lin>,
    points: Seq<Seq<Seq<Lin>>>,
    values: Seq<Seq<Lin>>,
    tag: nat,
) -> MultiRun {
    let k = values.len();
    let t1 = absorb_columns(t.absorb_const(tag).absorb_const(k), points, values, k);
    let (t2, alphas, levels) = columns_alphas(t1, values, k);
    let (c3, claim) = columns_inner_rows(t2.rows, alphas, values, k);
    let (t4, last, challenges) = rounds_tape(t2.on(c3), rounds, claim, rounds.len());
    let (c5, total) = columns_final_rows(
        t4.rows,
        alphas,
        points,
        reversed(challenges),
        finals,
        k,
    );
    MultiRun {
        tape: t4.on(pin_rows(c5, last.plus(total))),
        levels,
        challenges,
        pins: seq![last.plus(total)],
    }
}

/// The weights of every column.
pub open spec fn columns_weights(levels: Seq<Seq<F128>>, values: Seq<Seq<F128>>) -> Seq<Seq<F128>> {
    Seq::new(values.len(), |i: int| rlc_weights(levels[i], values[i].len()))
}

/// What a sumcheck over several columns checks.
#[verifier::opaque]
pub open spec fn multi_checks(
    rounds: Seq<(F128, F128)>,
    finals: Seq<F128>,
    points: Seq<Seq<Seq<F128>>>,
    values: Seq<Seq<F128>>,
    levels: Seq<Seq<F128>>,
    challenges: Seq<F128>,
) -> bool {
    let weights = columns_weights(levels, values);
    claim_after(
        rounds,
        columns_inner(weights, values, values.len()),
        challenges,
        rounds.len(),
    ) == columns_final(weights, points, reversed(challenges), finals, values.len())
}

pub open spec fn columns_at(s: Seq<Seq<Seq<Lin>>>, z: Seq<F128>) -> Seq<Seq<Seq<F128>>> {
    Seq::new(s.len(), |i: int| rows_at(s[i], z))
}

proof fn lemma_columns_alphas_past(t: Tape, values: Seq<Seq<Lin>>, n: nat, z: Seq<F128>)
    requires
        n <= values.len(),
    ensures
        prefix(t.rows, columns_alphas(t, values, n).0.rows),
        columns_alphas(t, values, n).1.len() == n,
        columns_alphas(t, values, n).2.len() == n,
        forall|i: int|
            0 <= i < n ==> (#[trigger] columns_alphas(t, values, n).1[i]).len()
                == values[i].len(),
        holds_past(columns_alphas(t, values, n).0.rows, t.rows.len(), z) ==> forall|i: int|
            0 <= i < n ==> evals_at(#[trigger] columns_alphas(t, values, n).1[i], z)
                == rlc_weights(
                evals_at(columns_alphas(t, values, n).2[i], z),
                values[i].len(),
            ),
    decreases n,
{
    broadcast use lemma_prefix_trans;

    if n > 0 {
        let m = (n - 1) as nat;
        let (t1, alphas, levels) = columns_alphas(t, values, m);
        lemma_columns_alphas_past(t, values, m, z);
        lemma_alphas_past(t1, values[n - 1].len(), z);
        let (t2, a, l) = alphas_tape(t1, values[n - 1].len());
        let (na, nl) = (alphas.push(a), levels.push(l));
        assert forall|i: int| 0 <= i < n implies (#[trigger] na[i]).len() == values[i].len() by {
            if i < m {
                assert(na[i] == alphas[i]);
            }
        }
        if holds_past(t2.rows, t.rows.len(), z) {
            lemma_past_split(t2.rows, t1.rows, t.rows.len(), z);
            assert forall|i: int| 0 <= i < n implies evals_at(#[trigger] na[i], z) == rlc_weights(
                evals_at(nl[i], z),
                values[i].len(),
            ) by {
                if i < m {
                    assert(na[i] == alphas[i]);
                    assert(nl[i] == levels[i]);
                }
            }
        }
    }
}

proof fn lemma_columns_inner_past(
    c: Seq<Row>,
    alphas: Seq<Seq<Lin>>,
    values: Seq<Seq<Lin>>,
    n: nat,
    z: Seq<F128>,
)
    requires
        n <= values.len(),
        alphas.len() == values.len(),
        forall|i: int| 0 <= i < values.len() ==> (#[trigger] alphas[i]).len() == values[i].len(),
    ensures
        prefix(c, columns_inner_rows(c, alphas, values, n).0),
        holds_past(columns_inner_rows(c, alphas, values, n).0, c.len(), z) ==> columns_inner_rows(
            c,
            alphas,
            values,
            n,
        ).1.eval(z) == columns_inner(rows_at(alphas, z), rows_at(values, z), n),
    decreases n,
{
    broadcast use {lemma_prefix_trans, group_lin};

    if n > 0 {
        let m = (n - 1) as nat;
        let (c1, sum) = columns_inner_rows(c, alphas, values, m);
        lemma_columns_inner_past(c, alphas, values, m, z);
        assert(alphas[n - 1].len() == values[n - 1].len());
        lemma_inner_past(c1, alphas[n - 1], values[n - 1], values[n - 1].len(), z);
        let (c2, s) = inner_rows(c1, alphas[n - 1], values[n - 1], values[n - 1].len());
        if holds_past(c2, c.len(), z) {
            lemma_past_split(c2, c1, c.len(), z);
        }
    }
}

proof fn lemma_columns_final_past(
    c: Seq<Row>,
    alphas: Seq<Seq<Lin>>,
    points: Seq<Seq<Seq<Lin>>>,
    r: Seq<Lin>,
    finals: Seq<Lin>,
    n: nat,
    z: Seq<F128>,
)
    requires
        n <= points.len(),
        alphas.len() == points.len(),
        finals.len() == points.len(),
        forall|i: int| 0 <= i < points.len() ==> (#[trigger] alphas[i]).len() == points[i].len(),
        forall|i: int, j: int|
            0 <= i < points.len() && 0 <= j < points[i].len() ==> (#[trigger] points[i][j]).len()
                == r.len(),
    ensures
        prefix(c, columns_final_rows(c, alphas, points, r, finals, n).0),
        holds_past(columns_final_rows(c, alphas, points, r, finals, n).0, c.len(), z)
            ==> columns_final_rows(c, alphas, points, r, finals, n).1.eval(z) == columns_final(
            rows_at(alphas, z),
            columns_at(points, z),
            evals_at(r, z),
            evals_at(finals, z),
            n,
        ),
    decreases n,
{
    broadcast use {lemma_prefix_trans, group_lin};

    if n > 0 {
        let m = (n - 1) as nat;
        let (c1, sum) = columns_final_rows(c, alphas, points, r, finals, m);
        lemma_columns_final_past(c, alphas, points, r, finals, m, z);
        let ps = points[n - 1];
        assert forall|j: int| 0 <= j < ps.len() implies (#[trigger] ps[j]).len() == r.len() by {
            assert(points[n - 1][j].len() == r.len());
        }
        assert(alphas[n - 1].len() == ps.len());
        lemma_indicators_past(c1, ps, r, ps.len(), z);
        let (c2, es) = indicator_rows(c1, ps, r, ps.len());
        lemma_inner_past(c2, alphas[n - 1], es, ps.len(), z);
        let (c3, w) = inner_rows(c2, alphas[n - 1], es, ps.len());
        lemma_mul_past(c3, w, finals[n - 1], z);
        let (c4, p) = mul_rows(c3, w, finals[n - 1]);
        assert(prefix(c, c2) && prefix(c, c3));
        if holds_past(c4, c.len(), z) {
            lemma_past_split(c4, c3, c.len(), z);
            lemma_past_split(c3, c2, c.len(), z);
            lemma_past_split(c2, c1, c.len(), z);
            let all = indicators(rows_at(ps, z), evals_at(r, z));
            assert(all.take(ps.len() as int) =~= all);
        }
    }
}

/// The shape of claims by column.
pub open spec fn columns_ok(points: Seq<Seq<Seq<Lin>>>, values: Seq<Seq<Lin>>, n: nat) -> bool {
    &&& points.len() == values.len()
    &&& forall|i: int| 0 <= i < points.len() ==> (#[trigger] points[i]).len() == values[i].len()
    &&& forall|i: int, j: int|
        0 <= i < points.len() && 0 <= j < points[i].len() ==> (#[trigger] points[i][j]).len() == n
}

proof fn lemma_multi_parts(
    t: Tape,
    rounds: Seq<(Lin, Lin)>,
    finals: Seq<Lin>,
    points: Seq<Seq<Seq<Lin>>>,
    values: Seq<Seq<Lin>>,
    tag: nat,
    z: Seq<F128>,
)
    requires
        columns_ok(points, values, rounds.len()),
        finals.len() == values.len(),
    ensures
        ({
            let k = values.len();
            let t1 = absorb_columns(t.absorb_const(tag).absorb_const(k), points, values, k);
            let (t2, alphas, levels) = columns_alphas(t1, values, k);
            let (c3, claim) = columns_inner_rows(t2.rows, alphas, values, k);
            let (t4, last, challenges) = rounds_tape(t2.on(c3), rounds, claim, rounds.len());
            let (c5, total) = columns_final_rows(
                t4.rows,
                alphas,
                points,
                reversed(challenges),
                finals,
                k,
            );
            let weights = columns_weights(rows_at(levels, z), rows_at(values, z));
            let rs = evals_at(challenges, z);
            &&& prefix(t.rows, c5)
            &&& challenges.len() == rounds.len()
            &&& holds_past(c5, t.rows.len(), z) ==> last.eval(z) == claim_after(
                pair_evals(rounds, z),
                columns_inner(weights, rows_at(values, z), k),
                rs,
                rounds.len(),
            ) && total.eval(z) == columns_final(
                weights,
                columns_at(points, z),
                reversed(rs),
                evals_at(finals, z),
                k,
            )
        }),
{
    broadcast use {lemma_prefix_trans, group_lin};

    reveal(multi_run);
    reveal(multi_checks);
    let k = values.len();
    let t0 = t.absorb_const(tag).absorb_const(k);
    let t1 = absorb_columns(t0, points, values, k);
    lemma_absorb_columns_rows(t0, points, values, k);
    let (t2, alphas, levels) = columns_alphas(t1, values, k);
    lemma_columns_alphas_past(t1, values, k, z);
    let (c3, claim) = columns_inner_rows(t2.rows, alphas, values, k);
    lemma_columns_inner_past(t2.rows, alphas, values, k, z);
    let (t4, last, challenges) = rounds_tape(t2.on(c3), rounds, claim, rounds.len());
    lemma_rounds_past(t2.on(c3), rounds, claim, rounds.len(), z);
    let point = reversed(challenges);
    assert forall|i: int| 0 <= i < points.len() implies (#[trigger] alphas[i]).len()
        == points[i].len() by {
        assert(points[i].len() == values[i].len());
    }
    lemma_columns_final_past(t4.rows, alphas, points, point, finals, k, z);
    let (c5, total) = columns_final_rows(t4.rows, alphas, points, point, finals, k);
    if holds_past(c5, t.rows.len(), z) {
        lemma_past_split(c5, t4.rows, t.rows.len(), z);
        lemma_past_split(t4.rows, c3, t.rows.len(), z);
        lemma_past_split(c3, t2.rows, t.rows.len(), z);
        let rs = evals_at(challenges, z);
        assert(evals_at(point, z) =~= reversed(rs));
        let weights = columns_weights(rows_at(levels, z), rows_at(values, z));
        assert(rows_at(alphas, z) =~= weights) by {
            assert forall|i: int| 0 <= i < k implies rows_at(alphas, z)[i] == weights[i] by {
                assert(evals_at(alphas[i], z) == rlc_weights(
                    evals_at(levels[i], z),
                    values[i].len(),
                ));
            }
        }
    }
}

/// The pinned expression is zero exactly where the claims check.
pub proof fn lemma_multi_past(
    t: Tape,
    rounds: Seq<(Lin, Lin)>,
    finals: Seq<Lin>,
    points: Seq<Seq<Seq<Lin>>>,
    values: Seq<Seq<Lin>>,
    tag: nat,
    z: Seq<F128>,
)
    requires
        columns_ok(points, values, rounds.len()),
        finals.len() == values.len(),
    ensures
        prefix(t.rows, multi_run(t, rounds, finals, points, values, tag).tape.rows),
        holds_past(
            multi_run(t, rounds, finals, points, values, tag).tape.rows,
            t.rows.len(),
            z,
        ) ==> (all_zero(multi_run(t, rounds, finals, points, values, tag).pins, z) <==> multi_checks(
            pair_evals(rounds, z),
            evals_at(finals, z),
            columns_at(points, z),
            rows_at(values, z),
            rows_at(multi_run(t, rounds, finals, points, values, tag).levels, z),
            evals_at(multi_run(t, rounds, finals, points, values, tag).challenges, z),
        )),
{
    broadcast use {lemma_prefix_trans, group_lin, lemma_plus_is_zero};

    reveal(multi_run);
    reveal(multi_checks);
    lemma_multi_parts(t, rounds, finals, points, values, tag, z);
    let k = values.len();
    let t1 = absorb_columns(t.absorb_const(tag).absorb_const(k), points, values, k);
    let (t2, alphas, levels) = columns_alphas(t1, values, k);
    let (c3, claim) = columns_inner_rows(t2.rows, alphas, values, k);
    let (t4, last, challenges) = rounds_tape(t2.on(c3), rounds, claim, rounds.len());
    let (c5, total) = columns_final_rows(
        t4.rows,
        alphas,
        points,
        reversed(challenges),
        finals,
        k,
    );
    let e = last.plus(total);
    lemma_pin_prefix(c5, e);
    let rows = pin_rows(c5, e);
    if holds_past(rows, t.rows.len(), z) {
        lemma_past_split(rows, c5, t.rows.len(), z);
        let pins = seq![e];
        assert(pins[0] == e);
        assert(all_zero(pins, z) <==> e.eval(z) == F128::zero());
    }
}

/// Soundness: a run whose rows hold, pins and all, has checked its claims.
pub proof fn lemma_multi_sound(
    t: Tape,
    rounds: Seq<(Lin, Lin)>,
    finals: Seq<Lin>,
    points: Seq<Seq<Seq<Lin>>>,
    values: Seq<Seq<Lin>>,
    tag: nat,
    z: Seq<F128>,
)
    requires
        columns_ok(points, values, rounds.len()),
        finals.len() == values.len(),
        sat(multi_run(t, rounds, finals, points, values, tag).tape.rows, z),
    ensures
        sat(t.rows, z),
        multi_checks(
            pair_evals(rounds, z),
            evals_at(finals, z),
            columns_at(points, z),
            rows_at(values, z),
            rows_at(multi_run(t, rounds, finals, points, values, tag).levels, z),
            evals_at(multi_run(t, rounds, finals, points, values, tag).challenges, z),
        ),
{
    reveal(multi_run);
    lemma_multi_past(t, rounds, finals, points, values, tag, z);
    let run = multi_run(t, rounds, finals, points, values, tag);
    lemma_sat_past(run.tape.rows, t.rows.len(), z);
    crate::circuit::lemma_sat_prefix(t.rows, run.tape.rows, z);
    let c = run.tape.rows.drop_last();
    assert(run.tape.rows == pin_rows(c, run.pins[0])) by {
        assert(c =~= run.tape.rows.take(run.tape.rows.len() - 1));
        assert(run.tape.rows.drop_last().push(run.tape.rows.last()) =~= run.tape.rows);
    }
    lemma_prefix_refl(run.tape.rows);
    lemma_sat_pin(run.tape.rows, c, run.pins[0], z);
}

pub open spec fn column_points(columns: Seq<Vec<EvalClaimTrace>>) -> Seq<Seq<Seq<Lin>>> {
    Seq::new(columns.len(), |i: int| claim_points(columns[i]@))
}

pub open spec fn column_values(columns: Seq<Vec<EvalClaimTrace>>) -> Seq<Seq<Lin>> {
    Seq::new(columns.len(), |i: int| claim_values(columns[i]@))
}

pub open spec fn all_claims_ok(columns: Seq<Vec<EvalClaimTrace>>, n: nat, below: nat) -> bool {
    forall|i: int| 0 <= i < columns.len() ==> claims_ok((#[trigger] columns[i])@, n, below)
}

proof fn lemma_claims_grow(claims: Seq<EvalClaimTrace>, n: nat, low: nat, high: nat)
    requires
        claims_ok(claims, n, low),
        low <= high,
    ensures
        claims_ok(claims, n, high),
{
    assert forall|i: int| 0 <= i < claims.len() implies (#[trigger] claims[i]).point@.len() == n
        && all_below(lins(claims[i].point@), high) && claims[i].value@.below(high) by {
        lemma_below_grow(lins(claims[i].point@), low, high);
    }
}

/// Reduces claims about several columns to one claim for each, at a common
/// point. `tag` names this form of binding.
#[verifier::rlimit(60)]
pub fn verify_multi_batch_eval_trace(
    b: &mut FieldR1csBuilder,
    ch: &mut RawChannelTrace,
    proof: &MultiBatchEvalProofTrace,
    claims_by_column: &Vec<Vec<EvalClaimTrace>>,
    n: usize,
    tag: u128,
) -> (r: Vec<BatchEvalReductionTrace>)
    requires
        old(b)@.wf(),
        claims_by_column@.len() > 0,
        forall|i: int|
            0 <= i < claims_by_column@.len() ==> (#[trigger] claims_by_column@[i])@.len() > 0,
        proof.rounds@.len() == n,
        proof.b_finals@.len() == claims_by_column@.len(),
        all_claims_ok(claims_by_column@, n as nat, old(b)@.rows.len()),
        rounds_below(proof.rounds@, old(b)@.rows.len()),
        all_below(lins(proof.b_finals@), old(b)@.rows.len()),
    ensures
        ({
            let run = multi_run(
                tape(*old(b), *old(ch)),
                round_lanes(proof.rounds@),
                lins(proof.b_finals@),
                column_points(claims_by_column@),
                column_values(claims_by_column@),
                tag as nat,
            );
            &&& tape(*final(b), *final(ch)) == run.tape
            &&& pinned(old(b)@, final(b)@, run.pins)
            &&& final(b)@.honest() <==> old(b)@.honest() && multi_checks(
                pair_evals(round_lanes(proof.rounds@), final(b)@.values),
                evals_at(lins(proof.b_finals@), final(b)@.values),
                columns_at(column_points(claims_by_column@), final(b)@.values),
                rows_at(column_values(claims_by_column@), final(b)@.values),
                rows_at(run.levels, final(b)@.values),
                evals_at(run.challenges, final(b)@.values),
            )
            &&& forall|i: int|
                0 <= i < r@.len() ==> lins((#[trigger] r@[i]).point@) == reversed(
                    run.challenges,
                ) && r@[i].value@ == proof.b_finals@[i]@
        }),
        final(b)@.grows(old(b)@),
        r@.len() == claims_by_column@.len(),
        forall|i: int|
            0 <= i < r@.len() ==> (#[trigger] r@[i]).fits(n as nat, final(b)@.rows.len()),
        drew(old(b)@, *old(ch), final(b)@, *final(ch)),
{
    proof {
        reveal(multi_run);
    }
    let ghost b0 = b@;
    let ghost ch0 = *ch;
    let ghost t0 = tape(*b, *ch);
    let ghost below = b0.rows.len();
    let ghost points = column_points(claims_by_column@);
    let ghost vals = column_values(claims_by_column@);
    let k: usize = claims_by_column.len();
    ch.absorb_const_tower(tag);
    ch.absorb_const_tower(k as u128);
    let ghost ta = t0.absorb_const(tag as nat).absorb_const(k as nat);
    let mut i: usize = 0;
    while i < k
        invariant
            i <= k,
            k == claims_by_column@.len(),
            points == column_points(claims_by_column@),
            vals == column_values(claims_by_column@),
            b@ == b0,
            ta.rows == b0.rows,
            (Tape { rows: b0.rows, ops: ch@ }) == absorb_columns(ta, points, vals, i as nat),
            kept(ch0, *ch),
        decreases k - i,
    {
        let claims = &claims_by_column[i];
        ch.absorb_const_tower(i as u128);
        ch.absorb_const_tower(claims.len() as u128);
        absorb_claims_trace(ch, claims, Ghost(b0.rows));
        assert(points[i as int] == claim_points(claims@));
        assert(vals[i as int] == claim_values(claims@));
        i += 1;
    }
    let ghost t1 = tape(*b, *ch);
    assert(t1 == absorb_columns(ta, points, vals, k as nat));
    let mut alphas: Vec<Vec<LinExpr>> = Vec::new();
    let ghost mut levels: Seq<Seq<Lin>> = Seq::empty();
    proof {
        assert(table_lins(alphas@) =~= Seq::empty());
        lemma_computed_refl(b0);
        lemma_drew_kept(b0, ch0, b0, *ch);
    }
    while alphas.len() < k
        invariant
            alphas@.len() <= k,
            k == claims_by_column@.len(),
            vals == column_values(claims_by_column@),
            b@.wf(),
            computed(b0, b@),
            drew(b0, ch0, b@, *ch),
            t1.rows == b0.rows,
            (tape(*b, *ch), table_lins(alphas@), levels) == columns_alphas(
                t1,
                vals,
                alphas@.len(),
            ),
            tables_below(alphas@, b@.rows.len()),
            forall|j: int|
                0 <= j < alphas@.len() ==> (#[trigger] alphas@[j])@.len()
                    == claims_by_column@[j]@.len(),
        decreases k - alphas@.len(),
    {
        let j: usize = alphas.len();
        let ghost m = b@.rows.len();
        let ghost prior = alphas@;
        let ghost tb = tape(*b, *ch);
        let ghost (bb, xb) = (b@, *ch);
        let a = squeeze_alphas_trace(b, ch, claims_by_column[j].len());
        alphas.push(a);
        proof {
            lemma_drew_trans(b0, ch0, bb, xb, b@, *ch);
            assert(vals[j as int].len() == claims_by_column@[j as int]@.len());
            levels = levels.push(alphas_tape(tb, vals[j as int].len()).2);
            assert(table_lins(alphas@) =~= table_lins(prior).push(lins(a@)));
            assert forall|l: int| 0 <= l < alphas@.len() implies all_below(
                lins((#[trigger] alphas@[l])@),
                b@.rows.len(),
            ) by {
                if l < j {
                    assert(alphas@[l] == prior[l]);
                    lemma_below_grow(lins(prior[l]@), m, b@.rows.len());
                }
            }
            assert forall|l: int| 0 <= l < alphas@.len() implies (#[trigger] alphas@[l])@.len()
                == claims_by_column@[l]@.len() by {
                if l < j {
                    assert(alphas@[l] == prior[l]);
                }
            }
        }
    }
    let ghost (b1, ch1) = (b@, *ch);
    let ghost al = table_lins(alphas@);
    let ghost t2 = tape(*b, *ch);
    let mut claim = LinExpr::zero();
    let mut j: usize = 0;
    proof {
        lemma_computed_refl(b1);
    }
    while j < k
        invariant
            j <= k,
            k == claims_by_column@.len(),
            alphas@.len() == k,
            al == table_lins(alphas@),
            vals == column_values(claims_by_column@),
            all_claims_ok(claims_by_column@, n as nat, below),
            below <= b1.rows.len(),
            tables_below(alphas@, b1.rows.len()),
            forall|l: int|
                0 <= l < k ==> (#[trigger] alphas@[l])@.len() == claims_by_column@[l]@.len(),
            b@.wf(),
            computed(b1, b@),
            claim@.below(b@.rows.len()),
            ch@ == t2.ops,
            *ch == ch1,
            (b@.rows, claim@) == columns_inner_rows(b1.rows, al, vals, j as nat),
        decreases k - j,
    {
        let ghost m = b@.rows.len();
        proof {
            assert(claims_ok(claims_by_column@[j as int]@, n as nat, below));
            assert(all_below(lins(alphas@[j as int]@), b1.rows.len()));
            lemma_below_grow(lins(alphas@[j as int]@), b1.rows.len(), m);
            assert(alphas@[j as int]@.len() == claims_by_column@[j as int]@.len());
            assert(al[j as int] == lins(alphas@[j as int]@));
            assert(vals[j as int] == claim_values(claims_by_column@[j as int]@));
        }
        let values = values_of(&claims_by_column[j], Ghost(n as nat), Ghost(below));
        proof {
            lemma_below_grow(lins(values@), below, m);
        }
        let s = inner_product(b, &alphas[j], &values);
        claim = claim.add(&s);
        j += 1;
    }
    let ghost b2 = b@;
    proof {
        assert(rounds_below(proof.rounds@, b2.rows.len())) by {
            assert forall|i: int| 0 <= i < proof.rounds@.len() implies (
            #[trigger] proof.rounds@[i]).below(b2.rows.len()) by {
                assert(proof.rounds@[i].below(below));
            }
        }
    }
    let (last, challenges) = run_rounds(b, ch, &proof.rounds, claim);
    let ghost (b3, ch3) = (b@, *ch);
    let ghost t4 = tape(*b, *ch);
    let point = reverse(&challenges);
    proof {
        lemma_reversed_below(lins(challenges@), b3.rows.len());
        lemma_computed_refl(b3);
    }
    let ghost fl = lins(proof.b_finals@);
    let mut total = LinExpr::zero();
    let mut l: usize = 0;
    while l < k
        invariant
            l <= k,
            k == claims_by_column@.len(),
            alphas@.len() == k,
            proof.b_finals@.len() == k,
            point@.len() == n,
            al == table_lins(alphas@),
            fl == lins(proof.b_finals@),
            points == column_points(claims_by_column@),
            all_claims_ok(claims_by_column@, n as nat, below),
            below <= b1.rows.len() <= b3.rows.len(),
            tables_below(alphas@, b1.rows.len()),
            all_below(lins(point@), b3.rows.len()),
            all_below(fl, below),
            forall|i: int|
                0 <= i < k ==> (#[trigger] alphas@[i])@.len() == claims_by_column@[i]@.len(),
            b@.wf(),
            computed(b3, b@),
            total@.below(b@.rows.len()),
            ch@ == t4.ops,
            *ch == ch3,
            (b@.rows, total@) == columns_final_rows(
                b3.rows,
                al,
                points,
                lins(point@),
                fl,
                l as nat,
            ),
        decreases k - l,
    {
        let ghost m = b@.rows.len();
        proof {
            assert(claims_ok(claims_by_column@[l as int]@, n as nat, below));
            lemma_claims_grow(claims_by_column@[l as int]@, n as nat, below, m);
            lemma_below_grow(lins(point@), b3.rows.len(), m);
            assert(points[l as int] == claim_points(claims_by_column@[l as int]@));
            assert(al[l as int] == lins(alphas@[l as int]@));
            lemma_below_at(proof.b_finals@, below, l as int);
        }
        let es = claim_indicators(b, &claims_by_column[l], &point);
        proof {
            assert(all_below(lins(alphas@[l as int]@), b1.rows.len()));
            lemma_below_grow(lins(alphas@[l as int]@), b1.rows.len(), b@.rows.len());
            assert(alphas@[l as int]@.len() == claims_by_column@[l as int]@.len());
        }
        let w = inner_product(b, &alphas[l], &es);
        let p = times(b, &w, &proof.b_finals[l]);
        total = total.add(&p);
        l += 1;
    }
    let e = last.add(&total);
    proof {
        lemma_pinned_none(b0, b@);
    }
    pin_after(b, &e, Ghost(b0), Ghost(Seq::empty()));
    let ghost z = b@.values;
    let ghost run = multi_run(
        t0,
        round_lanes(proof.rounds@),
        fl,
        points,
        vals,
        tag as nat,
    );
    proof {
        assert(columns_ok(points, vals, n as nat)) by {
            assert forall|i: int, j: int|
                0 <= i < points.len() && 0 <= j < points[i].len() implies (
            #[trigger] points[i][j]).len() == n by {
                assert(claims_ok(claims_by_column@[i]@, n as nat, below));
                assert(claims_by_column@[i]@[j].point@.len() == n);
            }
        }
        lemma_multi_past(t0, round_lanes(proof.rounds@), fl, points, vals, tag as nat, z);
        assert(tape(*b, *ch) == run.tape);
        assert(run.challenges == lins(challenges@));
        assert(Seq::<Lin>::empty().push(e@) =~= run.pins);
        assert(run.levels == levels);
        lemma_drew_step(b0, ch0, b1, ch1, b2, ch1, b3, ch3, b@);
        lemma_below_grow(lins(point@), b3.rows.len(), b@.rows.len());
    }
    let mut r: Vec<BatchEvalReductionTrace> = Vec::new();
    while r.len() < k
        invariant
            r@.len() <= k,
            proof.b_finals@.len() == k,
            point@.len() == n,
            all_below(lins(point@), b@.rows.len()),
            below <= b@.rows.len(),
            all_below(lins(proof.b_finals@), below),
            lins(point@) == reversed(run.challenges),
            forall|i: int|
                0 <= i < r@.len() ==> lins((#[trigger] r@[i]).point@) == reversed(run.challenges)
                    && r@[i].value@ == proof.b_finals@[i]@,
            forall|i: int| 0 <= i < r@.len() ==> (#[trigger] r@[i]).fits(n as nat, b@.rows.len()),
        decreases k - r@.len(),
    {
        let i: usize = r.len();
        proof {
            lemma_below_at(proof.b_finals@, below, i as int);
        }
        let copy = dup_all(&point);
        r.push(BatchEvalReductionTrace { point: copy, value: proof.b_finals[i].dup() });
    }
    r
}

/// Copies of expressions.
pub fn dup_all(s: &Vec<LinExpr>) -> (r: Vec<LinExpr>)
    ensures
        lins(r@) == lins(s@),
        r@.len() == s@.len(),
{
    let mut r: Vec<LinExpr> = Vec::new();
    while r.len() < s.len()
        invariant
            r@.len() <= s@.len(),
            forall|i: int| 0 <= i < r@.len() ==> (#[trigger] r@[i])@ == s@[i]@,
        decreases s@.len() - r@.len(),
    {
        let i: usize = r.len();
        r.push(s[i].dup());
    }
    assert(lins(r@) =~= lins(s@));
    r
}

// ---------------------------------------------------------------------------
// Wires of proofs
// ---------------------------------------------------------------------------

/// The values of the first `n` rounds.
pub open spec fn round_values(rounds: Seq<[F128; 2]>, n: nat) -> Seq<F128>
    decreases n,
{
    if n == 0 {
        Seq::empty()
    } else {
        round_values(rounds, (n - 1) as nat) + rounds[n - 1]@
    }
}

pub proof fn lemma_round_values_len(rounds: Seq<[F128; 2]>, n: nat)
    ensures
        round_values(rounds, n).len() == 2 * n,
    decreases n,
{
    if n > 0 {
        lemma_round_values_len(rounds, (n - 1) as nat);
        assert(rounds[n - 1]@.len() == 2);
    }
}

/// The wires of rounds from a given one on.
pub open spec fn rounds_wired(rounds: Seq<BatchEvalRoundTrace>, start: int) -> bool {
    forall|i: int|
        0 <= i < rounds.len() ==> (#[trigger] rounds[i]).lanes() == (
            Lin::wire((start + 2 * i) as usize),
            Lin::wire((start + 2 * i + 1) as usize),
        )
}

fn allocate_rounds(b: &mut FieldR1csBuilder, rounds: &Vec<[F128; 2]>) -> (r: Vec<
    BatchEvalRoundTrace,
>)
    requires
        old(b)@.wf(),
    ensures
        allocated(old(b)@, final(b)@, round_values(rounds@, rounds@.len())),
        r@.len() == rounds@.len(),
        rounds_wired(r@, old(b)@.rows.len() as int),
{
    let ghost b0 = b@;
    let mut r: Vec<BatchEvalRoundTrace> = Vec::new();
    proof {
        lemma_allocated_none(b0);
    }
    while r.len() < rounds.len()
        invariant
            r@.len() <= rounds@.len(),
            b@.wf(),
            allocated(b0, b@, round_values(rounds@, r@.len())),
            rounds_wired(r@, b0.rows.len() as int),
        decreases rounds@.len() - r@.len(),
    {
        let i: usize = r.len();
        let ghost b1 = b@;
        let ghost prior = r@;
        let at_1 = alloc_value(b, rounds[i][0]);
        let ghost b2 = b@;
        let at_2 = alloc_value(b, rounds[i][1]);
        r.push(BatchEvalRoundTrace { evals_at_1_2: [at_1, at_2] });
        proof {
            let v = rounds@[i as int]@;
            lemma_allocated(b1, b2, b@, seq![v[0]], seq![v[1]]);
            assert(v =~= seq![v[0]] + seq![v[1]]);
            lemma_allocated(b0, b1, b@, round_values(rounds@, i as nat), v);
            lemma_round_values_len(rounds@, i as nat);
            assert forall|j: int| 0 <= j < r@.len() implies (#[trigger] r@[j]).lanes() == (
                Lin::wire((b0.rows.len() + 2 * j) as usize),
                Lin::wire((b0.rows.len() + 2 * j + 1) as usize),
            ) by {
                if j < i {
                    assert(r@[j] == prior[j]);
                }
            }
        }
    }
    r
}

impl BatchEvalProofTrace {
    /// Fresh wires of a proof of `n` rounds.
    pub fn allocate(
        b: &mut FieldR1csBuilder,
        rounds: &Vec<[F128; 2]>,
        b_final: F128,
        n: usize,
    ) -> (r: BatchEvalProofTrace)
        requires
            old(b)@.wf(),
            rounds@.len() == n,
        ensures
            allocated(old(b)@, final(b)@, round_values(rounds@, n as nat) + seq![b_final]),
            r.rounds@.len() == n,
            rounds_wired(r.rounds@, old(b)@.rows.len() as int),
            r.b_final@ == Lin::wire((old(b)@.rows.len() + 2 * n) as usize),
    {
        let ghost b0 = b@;
        let wires = allocate_rounds(b, rounds);
        let ghost b1 = b@;
        let last = alloc_value(b, b_final);
        proof {
            lemma_round_values_len(rounds@, n as nat);
            lemma_allocated(b0, b1, b@, round_values(rounds@, n as nat), seq![b_final]);
        }
        BatchEvalProofTrace { rounds: wires, b_final: last }
    }
}

impl LinearEvalProofTrace {
    /// Fresh wires of a proof of `n` rounds.
    pub fn allocate(
        b: &mut FieldR1csBuilder,
        rounds: &Vec<[F128; 2]>,
        b_final: F128,
        n: usize,
    ) -> (r: LinearEvalProofTrace)
        requires
            old(b)@.wf(),
            rounds@.len() == n,
        ensures
            allocated(old(b)@, final(b)@, round_values(rounds@, n as nat) + seq![b_final]),
            r.rounds@.len() == n,
            rounds_wired(r.rounds@, old(b)@.rows.len() as int),
            r.b_final@ == Lin::wire((old(b)@.rows.len() + 2 * n) as usize),
    {
        let r = BatchEvalProofTrace::allocate(b, rounds, b_final, n);
        LinearEvalProofTrace { rounds: r.rounds, b_final: r.b_final }
    }
}

impl MultiBatchEvalProofTrace {
    /// Fresh wires of a proof of `n` rounds over `n_columns` columns.
    pub fn allocate(
        b: &mut FieldR1csBuilder,
        rounds: &Vec<[F128; 2]>,
        b_finals: &Vec<F128>,
        n: usize,
        n_columns: usize,
    ) -> (r: MultiBatchEvalProofTrace)
        requires
            old(b)@.wf(),
            rounds@.len() == n,
            b_finals@.len() == n_columns,
        ensures
            allocated(old(b)@, final(b)@, round_values(rounds@, n as nat) + b_finals@),
            r.rounds@.len() == n,
            rounds_wired(r.rounds@, old(b)@.rows.len() as int),
            lins(r.b_finals@) == wires_from(old(b)@.rows.len() + 2 * n, n_columns as nat),
    {
        let ghost b0 = b@;
        let wires = allocate_rounds(b, rounds);
        let ghost b1 = b@;
        let finals = alloc_values(b, b_finals);
        proof {
            lemma_round_values_len(rounds@, n as nat);
            lemma_allocated(b0, b1, b@, round_values(rounds@, n as nat), b_finals@);
        }
        MultiBatchEvalProofTrace { rounds: wires, b_finals: finals }
    }
}

/// Fresh wires of values.
pub fn alloc_values(b: &mut FieldR1csBuilder, values: &Vec<F128>) -> (r: Vec<LinExpr>)
    requires
        old(b)@.wf(),
    ensures
        allocated(old(b)@, final(b)@, values@),
        lins(r@) == wires_from(old(b)@.rows.len() as int, values@.len()),
        r@.len() == values@.len(),
        all_below(lins(r@), final(b)@.rows.len()),
{
    let ghost b0 = b@;
    let mut r: Vec<LinExpr> = Vec::new();
    proof {
        lemma_allocated_none(b0);
        assert(values@.take(0) =~= Seq::empty());
    }
    while r.len() < values.len()
        invariant
            r@.len() <= values@.len(),
            b@.wf(),
            allocated(b0, b@, values@.take(r@.len() as int)),
            forall|i: int|
                0 <= i < r@.len() ==> (#[trigger] r@[i])@ == Lin::wire(
                    (b0.rows.len() + i) as usize,
                ),
        decreases values@.len() - r@.len(),
    {
        let i: usize = r.len();
        let ghost b1 = b@;
        let e = alloc_value(b, values[i]);
        r.push(e);
        proof {
            lemma_allocated(b0, b1, b@, values@.take(i as int), seq![values@[i as int]]);
            assert(values@.take(i + 1) =~= values@.take(i as int) + seq![values@[i as int]]);
        }
    }
    proof {
        assert(values@.take(values@.len() as int) =~= values@);
        assert(lins(r@) =~= wires_from(b0.rows.len() as int, values@.len()));
        assert(all_below(lins(r@), b@.rows.len())) by {
            assert forall|i: int| 0 <= i < r@.len() implies (#[trigger] lins(r@)[i]).below(
                b@.rows.len(),
            ) by {
                assert(lins(r@)[i] == Lin::wire((b0.rows.len() + i) as usize));
            }
        }
    }
    r
}

} // verus!
