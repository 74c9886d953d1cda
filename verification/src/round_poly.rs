//! Round polynomials whose linear coefficient comes from the running claim.

use vstd::prelude::*;
use crate::batch_eval::alloc_values;
use crate::channel::{
    drew, kept, lemma_drew_kept, lemma_drew_step, tape, Op, RawChannelTrace, Tape,
};
use crate::circuit::{
    all_below, group_circuit, group_lin, lemma_prefix_push, lemma_prefix_trans, lins, mul_rows,
    prefix, FieldR1csBuilder, Lin, LinExpr, Row,
};
use crate::eval_gadgets::{lemma_below_at, lemma_below_grow, lemma_below_push, lemma_empty_below};
use crate::field::{group_field_units, lemma_plus_is_zero, F128};
use crate::gadget::{
    computed, holds_past, lemma_computed_refl, lemma_computed_trans, lemma_mul_past,
    lemma_past_split, times,
};
use crate::multilinear::evals_at;
use crate::structural_region::{allocated, wires_from};

verus! {

broadcast use {group_circuit, lemma_computed_trans};

/// A round polynomial: its constant coefficient, then those from the quadratic
/// one on.
#[derive(Debug)]
pub struct RoundPolyTrace {
    pub coeffs: Vec<LinExpr>,
}

/// The value of a polynomial.
pub open spec fn poly_at(coeffs: Seq<F128>, r: F128) -> F128
    decreases coeffs.len(),
{
    if coeffs.len() == 0 {
        F128::zero()
    } else if coeffs.len() == 1 {
        coeffs[0]
    } else {
        coeffs[0].plus(poly_at(coeffs.skip(1), r).times(r))
    }
}

/// The sum of the coefficients from the `n`-th on.
pub open spec fn tail_sum(coeffs: Seq<F128>, n: nat) -> F128
    decreases coeffs.len() - n,
{
    if n >= coeffs.len() {
        F128::zero()
    } else {
        coeffs[n as int].plus(tail_sum(coeffs, n + 1))
    }
}

/// All coefficients: the linear one makes the values at zero and one add up to
/// the claim.
pub open spec fn completed(coeffs: Seq<F128>, claim: F128) -> Seq<F128> {
    seq![coeffs[0], claim.plus(tail_sum(coeffs, 1))] + coeffs.skip(1)
}

pub proof fn lemma_tail_skip(coeffs: Seq<F128>, m: nat, n: nat)
    requires
        m + n <= coeffs.len(),
    ensures
        tail_sum(coeffs.skip(m as int), n) == tail_sum(coeffs, m + n),
    decreases coeffs.len() - n - m,
{
    if m + n < coeffs.len() {
        lemma_tail_skip(coeffs, m, n + 1);
    }
}

pub proof fn lemma_poly_one(coeffs: Seq<F128>)
    requires
        coeffs.len() >= 1,
    ensures
        poly_at(coeffs, F128::one()) == tail_sum(coeffs, 0),
    decreases coeffs.len(),
{
    broadcast use group_field_units;

    reveal_with_fuel(tail_sum, 2);
    if coeffs.len() > 1 {
        lemma_poly_one(coeffs.skip(1));
        lemma_tail_skip(coeffs, 1, 0);
    }
}

/// The values of a completed polynomial at zero and one add up to the claim.
pub proof fn lemma_completed(coeffs: Seq<F128>, claim: F128)
    requires
        coeffs.len() >= 1,
    ensures
        poly_at(completed(coeffs, claim), F128::zero()).plus(
            poly_at(completed(coeffs, claim), F128::one()),
        ) == claim,
{
    broadcast use {group_field_units, lemma_plus_is_zero};

    let full = completed(coeffs, claim);
    lemma_poly_one(full);
    let t = tail_sum(coeffs, 1);
    assert(full.skip(2) =~= coeffs.skip(1));
    lemma_tail_skip(full, 2, 0);
    lemma_tail_skip(coeffs, 1, 0);
    assert(tail_sum(full, 2) == t);
    assert(tail_sum(full, 1) == claim.plus(t).plus(t));
    assert(tail_sum(full, 0) == coeffs[0].plus(claim));
    assert(poly_at(full, F128::zero()) == coeffs[0]);
}

// ---------------------------------------------------------------------------
// In the trace
// ---------------------------------------------------------------------------

pub open spec fn tail_lin(coeffs: Seq<Lin>, n: nat) -> Lin
    decreases coeffs.len() - n,
{
    if n >= coeffs.len() {
        Lin::zero()
    } else {
        coeffs[n as int].plus(tail_lin(coeffs, n + 1))
    }
}

pub open spec fn completed_lins(coeffs: Seq<Lin>, claim: Lin) -> Seq<Lin> {
    seq![coeffs[0], claim.plus(tail_lin(coeffs, 1))] + coeffs.skip(1)
}

/// The rows of a polynomial's value, and its expression.
pub open spec fn poly_rows(c: Seq<Row>, coeffs: Seq<Lin>, r: Lin) -> (Seq<Row>, Lin)
    decreases coeffs.len(),
{
    if coeffs.len() == 0 {
        (c, Lin::zero())
    } else if coeffs.len() == 1 {
        (c, coeffs[0])
    } else {
        let (c1, t) = poly_rows(c, coeffs.skip(1), r);
        let (c2, m) = mul_rows(c1, t, r);
        (c2, coeffs[0].plus(m))
    }
}

proof fn lemma_poly_past(c: Seq<Row>, coeffs: Seq<Lin>, r: Lin, z: Seq<F128>)
    ensures
        prefix(c, poly_rows(c, coeffs, r).0),
        holds_past(poly_rows(c, coeffs, r).0, c.len(), z) ==> poly_rows(c, coeffs, r).1.eval(z)
            == poly_at(evals_at(coeffs, z), r.eval(z)),
    decreases coeffs.len(),
{
    broadcast use {lemma_prefix_trans, group_lin};

    if coeffs.len() > 1 {
        let (c1, t) = poly_rows(c, coeffs.skip(1), r);
        lemma_poly_past(c, coeffs.skip(1), r, z);
        lemma_mul_past(c1, t, r, z);
        let (c2, m) = mul_rows(c1, t, r);
        assert(evals_at(coeffs.skip(1), z) =~= evals_at(coeffs, z).skip(1));
        if holds_past(c2, c.len(), z) {
            lemma_past_split(c2, c1, c.len(), z);
        }
    }
}

proof fn lemma_tail_lin(coeffs: Seq<Lin>, n: nat, z: Seq<F128>)
    ensures
        tail_lin(coeffs, n).eval(z) == tail_sum(evals_at(coeffs, z), n),
    decreases coeffs.len() - n,
{
    broadcast use group_lin;

    if n < coeffs.len() {
        lemma_tail_lin(coeffs, n + 1, z);
    }
}

proof fn lemma_completed_lins(coeffs: Seq<Lin>, claim: Lin, z: Seq<F128>)
    requires
        coeffs.len() >= 1,
    ensures
        evals_at(completed_lins(coeffs, claim), z) == completed(
            evals_at(coeffs, z),
            claim.eval(z),
        ),
{
    broadcast use group_lin;

    lemma_tail_lin(coeffs, 1, z);
    assert(evals_at(completed_lins(coeffs, claim), z) =~= completed(
        evals_at(coeffs, z),
        claim.eval(z),
    ));
}

/// The rows of a round, and the next claim.
pub open spec fn round_poly_rows(c: Seq<Row>, coeffs: Seq<Lin>, claim: Lin, r: Lin) -> (
    Seq<Row>,
    Lin,
) {
    poly_rows(c, completed_lins(coeffs, claim), r)
}

impl RoundPolyTrace {
    /// Fresh wires of a polynomial's coefficients.
    pub fn allocate(b: &mut FieldR1csBuilder, coeffs: &Vec<F128>) -> (r: RoundPolyTrace)
        requires
            old(b)@.wf(),
        ensures
            allocated(old(b)@, final(b)@, coeffs@),
            lins(r.coeffs@) == wires_from(old(b)@.rows.len() as int, coeffs@.len()),
            all_below(lins(r.coeffs@), final(b)@.rows.len()),
    {
        RoundPolyTrace { coeffs: alloc_values(b, coeffs) }
    }

    /// Absorbs the coefficients.
    pub fn absorb_coeffs(&self, ch: &mut RawChannelTrace)
        ensures
            final(ch)@ == old(ch)@ + absorbs(lins(self.coeffs@)),
            kept(*old(ch), *final(ch)),
    {
        absorb_all(ch, &self.coeffs);
    }

    /// The next claim: the completed polynomial at the challenge.
    pub fn evaluate_reconstructed(
        &self,
        b: &mut FieldR1csBuilder,
        claim: &LinExpr,
        r: &LinExpr,
    ) -> (next: LinExpr)
        requires
            old(b)@.wf(),
            self.coeffs@.len() >= 1,
            all_below(lins(self.coeffs@), old(b)@.rows.len()),
            claim@.below(old(b)@.rows.len()),
            r@.below(old(b)@.rows.len()),
        ensures
            (final(b)@.rows, next@) == round_poly_rows(
                old(b)@.rows,
                lins(self.coeffs@),
                claim@,
                r@,
            ),
            computed(old(b)@, final(b)@),
            next@.below(final(b)@.rows.len()),
    {
        let ghost b0 = b@;
        let ghost n = b0.rows.len();
        let ghost cl = lins(self.coeffs@);
        let ghost full = completed_lins(cl, claim@);
        let count: usize = self.coeffs.len();
        let mut tail = LinExpr::zero();
        let mut k: usize = count;
        while k > 1
            invariant
                1 <= k <= count,
                count == self.coeffs@.len(),
                cl == lins(self.coeffs@),
                all_below(cl, n),
                tail@ == tail_lin(cl, k as nat),
                tail@.below(n),
            decreases k,
        {
            k = k - 1;
            proof {
                lemma_below_at(self.coeffs@, n, k as int);
            }
            tail = self.coeffs[k].add(&tail);
        }
        let linear = claim.add(&tail);
        // From the top coefficient down: `full` has one more than `coeffs`.
        proof {
            lemma_computed_refl(b0);
            lemma_below_at(self.coeffs@, n, 0);
            lemma_below_at(self.coeffs@, n, count - 1);
        }
        let mut acc = if count == 1 {
            linear.dup()
        } else {
            self.coeffs[count - 1].dup()
        };
        let mut at: usize = count;
        proof {
            assert(full.len() == count + 1);
            assert(full.skip(count as int) =~= seq![acc@]);
        }
        while at > 0
            invariant
                at <= count,
                count == self.coeffs@.len(),
                count >= 1,
                cl == lins(self.coeffs@),
                full == completed_lins(cl, claim@),
                full.len() == count + 1,
                linear@ == full[1],
                linear@.below(n),
                n == b0.rows.len(),
                all_below(cl, n),
                r@.below(n),
                b@.wf(),
                computed(b0, b@),
                acc@.below(b@.rows.len()),
                (b@.rows, acc@) == poly_rows(b0.rows, full.skip(at as int), r@),
            decreases at,
        {
            at = at - 1;
            let m = times(b, &acc, r);
            proof {
                assert(full.skip(at as int).skip(1) =~= full.skip(at + 1));
                assert(full.skip(at as int)[0] == full[at as int]);
            }
            if at == 0 {
                proof {
                    lemma_below_at(self.coeffs@, n, 0);
                }
                acc = self.coeffs[0].add(&m);
            } else if at == 1 {
                acc = linear.add(&m);
            } else {
                proof {
                    lemma_below_at(self.coeffs@, n, at - 1);
                    assert(full[at as int] == cl[at - 1]);
                }
                acc = self.coeffs[at - 1].add(&m);
            }
        }
        assert(full.skip(0) =~= full);
        acc
    }
}

/// The operations that absorb expressions.
pub open spec fn absorbs(s: Seq<Lin>) -> Seq<Op> {
    Seq::new(s.len(), |i: int| Op::Absorb(s[i]))
}

/// Absorbs expressions in order.
pub fn absorb_all(ch: &mut RawChannelTrace, s: &Vec<LinExpr>)
    ensures
        final(ch)@ == old(ch)@ + absorbs(lins(s@)),
        kept(*old(ch), *final(ch)),
{
    let ghost all = absorbs(lins(s@));
    let mut i: usize = 0;
    assert(ch@ =~= old(ch)@ + all.take(0));
    while i < s.len()
        invariant
            i <= s@.len(),
            all == absorbs(lins(s@)),
            ch@ == old(ch)@ + all.take(i as int),
            kept(*old(ch), *ch),
        decreases s@.len() - i,
    {
        ch.absorb(&s[i]);
        assert(ch@ =~= old(ch)@ + all.take(i + 1));
        i += 1;
    }
    assert(all.take(i as int) =~= all);
}

pub open spec fn poly_lanes(polys: Seq<RoundPolyTrace>) -> Seq<Seq<Lin>> {
    Seq::new(polys.len(), |i: int| lins(polys[i].coeffs@))
}

/// Every polynomial has a coefficient, and refers to wires below `n`.
pub open spec fn polys_ok(polys: Seq<RoundPolyTrace>, n: nat) -> bool {
    forall|i: int|
        0 <= i < polys.len() ==> (#[trigger] polys[i]).coeffs@.len() >= 1 && all_below(
            lins(polys[i].coeffs@),
            n,
        )
}

/// The claim after the first `n` rounds.
pub open spec fn poly_claim(
    polys: Seq<Seq<F128>>,
    claim: F128,
    challenges: Seq<F128>,
    n: nat,
) -> F128
    decreases n,
{
    if n == 0 {
        claim
    } else {
        poly_at(
            completed(polys[n - 1], poly_claim(polys, claim, challenges, (n - 1) as nat)),
            challenges[n - 1],
        )
    }
}

/// The rows and operations of the first `n` rounds, the claim after them, and
/// their challenges.
pub open spec fn polys_tape(t: Tape, polys: Seq<Seq<Lin>>, claim: Lin, n: nat) -> (
    Tape,
    Lin,
    Seq<Lin>,
)
    decreases n,
{
    if n == 0 {
        (t, claim, Seq::empty())
    } else {
        let (t1, before, challenges) = polys_tape(t, polys, claim, (n - 1) as nat);
        let t2 = Tape { rows: t1.rows, ops: t1.ops + absorbs(polys[n - 1]) };
        let r = t2.challenge();
        let t3 = t2.squeeze();
        let (rows, next) = round_poly_rows(t3.rows, polys[n - 1], before, r);
        (t3.on(rows), next, challenges.push(r))
    }
}

pub open spec fn rows_evals(s: Seq<Seq<Lin>>, z: Seq<F128>) -> Seq<Seq<F128>> {
    Seq::new(s.len(), |i: int| evals_at(s[i], z))
}

proof fn lemma_poly_claim_agrees(
    polys: Seq<Seq<F128>>,
    claim: F128,
    a: Seq<F128>,
    b: Seq<F128>,
    n: nat,
)
    requires
        n <= a.len(),
        n <= b.len(),
        forall|i: int| 0 <= i < n ==> (#[trigger] a[i]) == b[i],
    ensures
        poly_claim(polys, claim, a, n) == poly_claim(polys, claim, b, n),
    decreases n,
{
    if n > 0 {
        lemma_poly_claim_agrees(polys, claim, a, b, (n - 1) as nat);
        assert(a[n - 1] == b[n - 1]);
    }
}

pub proof fn lemma_polys_past(t: Tape, polys: Seq<Seq<Lin>>, claim: Lin, n: nat, z: Seq<F128>)
    requires
        n <= polys.len(),
        forall|i: int| 0 <= i < polys.len() ==> (#[trigger] polys[i]).len() >= 1,
    ensures
        prefix(t.rows, polys_tape(t, polys, claim, n).0.rows),
        polys_tape(t, polys, claim, n).2.len() == n,
        holds_past(polys_tape(t, polys, claim, n).0.rows, t.rows.len(), z) ==> polys_tape(
            t,
            polys,
            claim,
            n,
        ).1.eval(z) == poly_claim(
            rows_evals(polys, z),
            claim.eval(z),
            evals_at(polys_tape(t, polys, claim, n).2, z),
            n,
        ),
    decreases n,
{
    broadcast use {lemma_prefix_trans, group_lin};

    if n > 0 {
        let m = (n - 1) as nat;
        let (t1, before, challenges) = polys_tape(t, polys, claim, m);
        lemma_polys_past(t, polys, claim, m, z);
        let t2 = Tape { rows: t1.rows, ops: t1.ops + absorbs(polys[n - 1]) };
        let r = t2.challenge();
        let t3 = t2.squeeze();
        lemma_prefix_push(t1.rows, crate::circuit::free_row(t1.rows.len() as usize));
        assert(prefix(t1.rows, t3.rows));
        assert(polys[n - 1].len() >= 1);
        lemma_completed_lins(polys[n - 1], before, z);
        lemma_poly_past(t3.rows, completed_lins(polys[n - 1], before), r, z);
        let (rows, next) = round_poly_rows(t3.rows, polys[n - 1], before, r);
        assert(prefix(t3.rows, rows));
        if holds_past(rows, t.rows.len(), z) {
            lemma_past_split(rows, t3.rows, t.rows.len(), z);
            lemma_past_split(t3.rows, t1.rows, t.rows.len(), z);
            let all = challenges.push(r);
            lemma_poly_claim_agrees(
                rows_evals(polys, z),
                claim.eval(z),
                evals_at(challenges, z),
                evals_at(all, z),
                m,
            );
        }
    }
}

/// The rounds of a sumcheck: the claim after them, and their challenges.
pub fn run_polys(
    b: &mut FieldR1csBuilder,
    ch: &mut RawChannelTrace,
    polys: &Vec<RoundPolyTrace>,
    claim: LinExpr,
) -> (r: (LinExpr, Vec<LinExpr>))
    requires
        old(b)@.wf(),
        polys_ok(polys@, old(b)@.rows.len()),
        claim@.below(old(b)@.rows.len()),
    ensures
        (tape(*final(b), *final(ch)), r.0@, lins(r.1@)) == polys_tape(
            tape(*old(b), *old(ch)),
            poly_lanes(polys@),
            claim@,
            polys@.len(),
        ),
        r.1@.len() == polys@.len(),
        computed(old(b)@, final(b)@),
        r.0@.below(final(b)@.rows.len()),
        all_below(lins(r.1@), final(b)@.rows.len()),
        drew(old(b)@, *old(ch), final(b)@, *final(ch)),
{
    let ghost b0 = b@;
    let ghost ch0 = *ch;
    let ghost t0 = tape(*b, *ch);
    let ghost start = claim@;
    let mut claim = claim;
    let mut challenges: Vec<LinExpr> = Vec::new();
    let mut i: usize = 0;
    proof {
        lemma_computed_refl(b0);
        lemma_empty_below(b0.rows.len());
        lemma_drew_kept(b0, ch0, b0, ch0);
    }
    while i < polys.len()
        invariant
            i <= polys@.len(),
            polys_ok(polys@, b0.rows.len()),
            b@.wf(),
            computed(b0, b@),
            drew(b0, ch0, b@, *ch),
            claim@.below(b@.rows.len()),
            challenges@.len() == i,
            all_below(lins(challenges@), b@.rows.len()),
            (tape(*b, *ch), claim@, lins(challenges@)) == polys_tape(
                t0,
                poly_lanes(polys@),
                start,
                i as nat,
            ),
        decreases polys@.len() - i,
    {
        let ghost m = b@.rows.len();
        let ghost (c0, x0) = (b@, *ch);
        let poly = &polys[i];
        proof {
            assert(polys@[i as int].coeffs@.len() >= 1);
            assert(poly_lanes(polys@)[i as int] == lins(polys@[i as int].coeffs@));
        }
        poly.absorb_coeffs(ch);
        let ghost x1 = *ch;
        let r = ch.squeeze(b);
        let ghost c1 = b@;
        proof {
            lemma_below_grow(lins(poly.coeffs@), b0.rows.len(), b@.rows.len());
        }
        claim = poly.evaluate_reconstructed(b, &claim, &r);
        proof {
            lemma_below_push(challenges@, r, m, b@.rows.len());
            lemma_drew_step(b0, ch0, c0, x0, c0, x1, c1, *ch, b@);
        }
        challenges.push(r);
        i += 1;
    }
    (claim, challenges)
}

} // verus!
