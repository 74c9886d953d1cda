//! Wires of spine proofs.

use vstd::prelude::*;
use vstd::arithmetic::power2::pow2;
use crate::batch_eval::{
    lemma_round_values_len, round_lanes, round_values, rounds_below, rounds_wired,
    LinearEvalProofTrace, MultiBatchEvalProofTrace,
};
use crate::block_spine::BlockSpineUnifiedProofTrace;
use crate::circuit::{all_below, group_circuit, group_lin, lins, FieldR1csBuilder, Lin, LinExpr};
use crate::eval_gadgets::lemma_below_grow;
use crate::field::F128;
use crate::gadget::{computed, lemma_computed_refl, lemma_computed_trans};
use crate::multilinear::evals_at;
use crate::round_poly::{poly_lanes, polys_ok, rows_evals, RoundPolyTrace};
use crate::spine_claims::{block_lins, blocks_at, blocks_below, lemma_blocks_grow};
use crate::spine_family::{family_lins, proof_ok, FamilyLins};
use crate::spine_shift::BlockSpineShiftProofTrace;
use crate::structural_region::{
    alloc_value, allocated, lemma_allocated, lemma_allocated_computed, lemma_allocated_none,
    wires_from,
};

verus! {

broadcast use {group_circuit, lemma_computed_trans};

/// A unified proof: its rounds, and the values opened at their point.
#[derive(Debug)]
pub struct BlockSpineUnifiedProof {
    pub round_polys: Vec<Vec<F128>>,
    pub s_in_dec_at_r: F128,
    pub s_out_dec_at_r: F128,
    pub state_dec_at_r: F128,
    pub state_at_r: F128,
    pub s_out_lane_dec_at_r: [F128; 4],
    pub state_lane_dec_at_r: [F128; 4],
}

/// A shift proof: its rounds, and the columns at their point.
#[derive(Debug)]
pub struct BlockSpineShiftProof {
    pub round_polys: Vec<Vec<F128>>,
    pub s_in_at_r2: F128,
    pub s_out_at_r2: F128,
    pub state_at_r2: F128,
}

/// A proof over the spine: the two sumchecks over its rows, the sumcheck over its
/// relations, and the closing batch.
#[derive(Debug)]
pub struct SpineProof {
    pub main: BlockSpineUnifiedProof,
    pub shift: BlockSpineShiftProof,
    pub chain_rounds: Vec<[F128; 2]>,
    pub chain_final: F128,
    pub batch_rounds: Vec<[F128; 2]>,
    pub batch_finals: Vec<F128>,
}

pub open spec fn poly_views(polys: Seq<Vec<F128>>) -> Seq<Seq<F128>> {
    Seq::new(polys.len(), |i: int| polys[i]@)
}

/// The coefficients of the first `n` polynomials.
pub open spec fn poly_values(polys: Seq<Seq<F128>>, n: nat) -> Seq<F128>
    decreases n,
{
    if n == 0 {
        Seq::empty()
    } else {
        poly_values(polys, (n - 1) as nat) + polys[n - 1]
    }
}

/// How many coefficients each polynomial has.
pub open spec fn poly_lens(polys: Seq<Seq<F128>>) -> Seq<nat> {
    Seq::new(polys.len(), |i: int| polys[i].len())
}

pub open spec fn lens_sum(lens: Seq<nat>, n: nat) -> nat
    decreases n,
{
    if n == 0 {
        0
    } else {
        lens_sum(lens, (n - 1) as nat) + lens[n - 1]
    }
}

/// Consecutive wires of polynomials.
pub open spec fn poly_wires(start: int, lens: Seq<nat>) -> Seq<Seq<Lin>> {
    Seq::new(lens.len(), |i: int| wires_from(start + lens_sum(lens, i as nat), lens[i]))
}

proof fn lemma_values_len(polys: Seq<Seq<F128>>, n: nat)
    requires
        n <= polys.len(),
    ensures
        poly_values(polys, n).len() == lens_sum(poly_lens(polys), n),
    decreases n,
{
    if n > 0 {
        lemma_values_len(polys, (n - 1) as nat);
    }
}

/// Consecutive wires of rounds.
pub open spec fn round_wires(start: int, n: nat) -> Seq<(Lin, Lin)> {
    Seq::new(
        n,
        |i: int| (Lin::wire((start + 2 * i) as usize), Lin::wire((start + 2 * i + 1) as usize)),
    )
}

/// The wires of a proof over `n` variables, by the lengths of its polynomials.
pub open spec fn proof_wires(start: int, n: nat, main: Seq<nat>, shift: Seq<nat>) -> FamilyLins {
    let a = start + lens_sum(main, main.len());
    let b = a + 12 + lens_sum(shift, shift.len());
    FamilyLins {
        main: poly_wires(start, main),
        opened: wires_from(a, 12),
        shift: poly_wires(a + 12, shift),
        columns: wires_from(b, 3),
        chain: round_wires(b + 3, n),
        chain_final: Lin::wire((b + 3 + 2 * n) as usize),
        batch: round_wires(b + 3 + 2 * n + 1, n),
        finals: wires_from(b + 3 + 2 * n + 1 + 2 * n, 3),
    }
}

/// How many wires a proof takes.
pub open spec fn proof_width(n: nat, main: Seq<nat>, shift: Seq<nat>) -> nat {
    lens_sum(main, main.len()) + 12 + lens_sum(shift, shift.len()) + 3 + (2 * n + 1) + (2 * n + 3)
}

/// Every polynomial has a coefficient.
pub open spec fn polys_full(polys: Seq<Vec<F128>>) -> bool {
    forall|i: int| 0 <= i < polys.len() ==> (#[trigger] polys[i])@.len() >= 1
}

impl BlockSpineUnifiedProof {
    pub open spec fn opened(&self) -> Seq<F128> {
        seq![
            self.s_in_dec_at_r,
            self.s_out_dec_at_r,
            self.state_dec_at_r,
            self.state_at_r,
        ] + self.s_out_lane_dec_at_r@ + self.state_lane_dec_at_r@
    }

    pub open spec fn values(&self) -> Seq<F128> {
        poly_values(poly_views(self.round_polys@), self.round_polys@.len()) + self.opened()
    }
}

impl BlockSpineShiftProof {
    pub open spec fn columns(&self) -> Seq<F128> {
        seq![self.s_in_at_r2, self.s_out_at_r2, self.state_at_r2]
    }

    pub open spec fn values(&self) -> Seq<F128> {
        poly_values(poly_views(self.round_polys@), self.round_polys@.len()) + self.columns()
    }
}

impl SpineProof {
    /// The values in the order of their wires.
    pub open spec fn values(&self) -> Seq<F128> {
        self.main.values() + self.shift.values() + (round_values(
            self.chain_rounds@,
            self.chain_rounds@.len(),
        ) + seq![self.chain_final]) + (round_values(self.batch_rounds@, self.batch_rounds@.len())
            + self.batch_finals@)
    }

    /// A proof over `n` variables.
    pub open spec fn wf(&self, n: nat) -> bool {
        &&& self.main.round_polys@.len() == n
        &&& self.shift.round_polys@.len() == n
        &&& self.chain_rounds@.len() == n
        &&& self.batch_rounds@.len() == n
        &&& self.batch_finals@.len() == 3
        &&& polys_full(self.main.round_polys@)
        &&& polys_full(self.shift.round_polys@)
    }
}

/// Fresh wires evaluate to their values.
pub proof fn lemma_wires_eval(before: Seq<F128>, values: Seq<F128>, z: Seq<F128>)
    requires
        z == before + values,
        z.len() <= usize::MAX,
    ensures
        evals_at(wires_from(before.len() as int, values.len()), z) == values,
{
    broadcast use group_lin;

    assert(evals_at(wires_from(before.len() as int, values.len()), z) =~= values);
}

fn allocate_polys(b: &mut FieldR1csBuilder, polys: &Vec<Vec<F128>>) -> (r: Vec<RoundPolyTrace>)
    requires
        old(b)@.wf(),
        polys_full(polys@),
    ensures
        allocated(old(b)@, final(b)@, poly_values(poly_views(polys@), polys@.len())),
        r@.len() == polys@.len(),
        polys_ok(r@, final(b)@.rows.len()),
        rows_evals(poly_lanes(r@), final(b)@.values) == poly_views(polys@),
        poly_lanes(r@) == poly_wires(
            old(b)@.rows.len() as int,
            poly_lens(poly_views(polys@)),
        ),
{
    let ghost b0 = b@;
    let ghost views = poly_views(polys@);
    let mut r: Vec<RoundPolyTrace> = Vec::new();
    proof {
        lemma_allocated_none(b0);
    }
    while r.len() < polys.len()
        invariant
            r@.len() <= polys@.len(),
            polys_full(polys@),
            views == poly_views(polys@),
            b@.wf(),
            allocated(b0, b@, poly_values(views, r@.len())),
            polys_ok(r@, b@.rows.len()),
            forall|i: int|
                0 <= i < r@.len() ==> evals_at(lins((#[trigger] r@[i]).coeffs@), b@.values)
                    == views[i],
            forall|i: int|
                0 <= i < r@.len() ==> lins((#[trigger] r@[i]).coeffs@) == poly_wires(
                    b0.rows.len() as int,
                    poly_lens(views),
                )[i],
        decreases polys@.len() - r@.len(),
    {
        let i: usize = r.len();
        proof {
            lemma_values_len(views, r@.len());
        }
        let ghost b1 = b@;
        let ghost prior = r@;
        assert(polys@[i as int]@.len() >= 1);
        let poly = RoundPolyTrace::allocate(b, &polys[i]);
        r.push(poly);
        proof {
            lemma_allocated(b0, b1, b@, poly_values(views, i as nat), views[i as int]);
            lemma_wires_eval(b1.values, views[i as int], b@.values);
            assert forall|k: int| 0 <= k < r@.len() implies (#[trigger] r@[k]).coeffs@.len() >= 1
                && all_below(lins(r@[k].coeffs@), b@.rows.len()) by {
                if k < i {
                    assert(r@[k] == prior[k]);
                    lemma_below_grow(lins(prior[k].coeffs@), b1.rows.len(), b@.rows.len());
                } else {
                    assert(lins(poly.coeffs@).len() == poly.coeffs@.len());
                }
            }
            assert forall|k: int| 0 <= k < r@.len() implies evals_at(
                lins((#[trigger] r@[k]).coeffs@),
                b@.values,
            ) == views[k] by {
                if k < i {
                    assert(r@[k] == prior[k]);
                    let s = lins(prior[k].coeffs@);
                    lemma_evals_stable(b1, b@, s);
                }
            }
        }
    }
    assert(rows_evals(poly_lanes(r@), b@.values) =~= views);
    assert(poly_lanes(r@) =~= poly_wires(b0.rows.len() as int, poly_lens(views)));
    r
}

/// Expressions keep their values while a circuit grows.
pub proof fn lemma_evals_stable(
    before: crate::circuit::Circuit,
    after: crate::circuit::Circuit,
    s: Seq<Lin>,
)
    requires
        after.grows(before),
        all_below(s, before.rows.len()),
    ensures
        evals_at(s, after.values) == evals_at(s, before.values),
{
    assert forall|i: int| 0 <= i < s.len() implies s[i].eval(after.values) == s[i].eval(
        before.values,
    ) by {
        assert(s[i].below(before.rows.len()));
    }
    assert(evals_at(s, after.values) =~= evals_at(s, before.values));
}

fn allocate_lanes(b: &mut FieldR1csBuilder, values: &[F128; 4]) -> (r: [LinExpr; 4])
    requires
        old(b)@.wf(),
    ensures
        allocated(old(b)@, final(b)@, values@),
        lins(r@) == wires_from(old(b)@.rows.len() as int, 4),
{
    let ghost b0 = b@;
    let x0 = alloc_value(b, values[0]);
    let ghost b1 = b@;
    let x1 = alloc_value(b, values[1]);
    let ghost b2 = b@;
    let x2 = alloc_value(b, values[2]);
    let ghost b3 = b@;
    let x3 = alloc_value(b, values[3]);
    let r = [x0, x1, x2, x3];
    proof {
        let v = values@;
        lemma_allocated(b0, b1, b2, seq![v[0]], seq![v[1]]);
        lemma_allocated(b0, b2, b3, seq![v[0]] + seq![v[1]], seq![v[2]]);
        lemma_allocated(b0, b3, b@, seq![v[0]] + seq![v[1]] + seq![v[2]], seq![v[3]]);
        assert(v =~= seq![v[0]] + seq![v[1]] + seq![v[2]] + seq![v[3]]);
        assert(lins(r@) =~= wires_from(b0.rows.len() as int, 4));
    }
    r
}

pub proof fn lemma_wires_below(start: int, n: nat, below: nat)
    requires
        0 <= start,
        start + n <= below <= usize::MAX,
    ensures
        all_below(wires_from(start, n), below),
{
    broadcast use group_lin;

    let w = wires_from(start, n);
    assert forall|i: int| 0 <= i < w.len() implies (#[trigger] w[i]).below(below) by {}
}

impl BlockSpineUnifiedProofTrace {
    /// Fresh wires of a proof of `num_vars` rounds.
    pub fn allocate(b: &mut FieldR1csBuilder, native: &BlockSpineUnifiedProof, num_vars: usize) -> (r:
        BlockSpineUnifiedProofTrace)
        requires
            old(b)@.wf(),
            native.round_polys@.len() == num_vars,
            polys_full(native.round_polys@),
        ensures
            allocated(old(b)@, final(b)@, native.values()),
            r.round_polys@.len() == num_vars,
            r.below(final(b)@.rows.len()),
            rows_evals(poly_lanes(r.round_polys@), final(b)@.values) == poly_views(
                native.round_polys@,
            ),
            evals_at(r.opened(), final(b)@.values) == native.opened(),
            poly_lanes(r.round_polys@) == poly_wires(
                old(b)@.rows.len() as int,
                poly_lens(poly_views(native.round_polys@)),
            ),
            r.opened() == wires_from(
                old(b)@.rows.len() as int + lens_sum(
                    poly_lens(poly_views(native.round_polys@)),
                    num_vars as nat,
                ),
                12,
            ),
            native.values().len() == lens_sum(
                poly_lens(poly_views(native.round_polys@)),
                num_vars as nat,
            ) + 12,
    {
        let ghost b0 = b@;
        let round_polys = allocate_polys(b, &native.round_polys);
        let ghost b1 = b@;
        let s_in_dec_at_r = alloc_value(b, native.s_in_dec_at_r);
        let ghost b2 = b@;
        let s_out_dec_at_r = alloc_value(b, native.s_out_dec_at_r);
        let ghost b3 = b@;
        let state_dec_at_r = alloc_value(b, native.state_dec_at_r);
        let ghost b4 = b@;
        let state_at_r = alloc_value(b, native.state_at_r);
        let ghost b5 = b@;
        let s_out_lane_dec_at_r = allocate_lanes(b, &native.s_out_lane_dec_at_r);
        let ghost b6 = b@;
        let state_lane_dec_at_r = allocate_lanes(b, &native.state_lane_dec_at_r);
        let r = BlockSpineUnifiedProofTrace {
            round_polys,
            s_in_dec_at_r,
            s_out_dec_at_r,
            state_dec_at_r,
            state_at_r,
            s_out_lane_dec_at_r,
            state_lane_dec_at_r,
        };
        proof {
            let v = native.opened();
            lemma_values_len(poly_views(native.round_polys@), num_vars as nat);
            let polys = poly_values(poly_views(native.round_polys@), num_vars as nat);
            lemma_allocated(b1, b2, b3, seq![v[0]], seq![v[1]]);
            lemma_allocated(b1, b3, b4, seq![v[0]] + seq![v[1]], seq![v[2]]);
            let three = seq![v[0]] + seq![v[1]] + seq![v[2]];
            lemma_allocated(b1, b4, b5, three, seq![v[3]]);
            let four = three + seq![v[3]];
            assert(four =~= seq![v[0], v[1], v[2], v[3]]);
            lemma_allocated(b1, b5, b6, four, native.s_out_lane_dec_at_r@);
            lemma_allocated(
                b1,
                b6,
                b@,
                four + native.s_out_lane_dec_at_r@,
                native.state_lane_dec_at_r@,
            );
            lemma_allocated(b0, b1, b@, polys, v);
            let m = b1.rows.len();
            assert(r.opened() =~= wires_from(m as int, 12)) by {
                assert(lins(s_out_lane_dec_at_r@) == wires_from(m as int + 4, 4));
                assert(lins(state_lane_dec_at_r@) == wires_from(m as int + 8, 4));
                assert(forall|i: int|
                    0 <= i < 4 ==> (#[trigger] lins(s_out_lane_dec_at_r@)[i]) == Lin::wire(
                        (m + 4 + i) as usize,
                    ));
                assert(forall|i: int|
                    0 <= i < 4 ==> (#[trigger] lins(state_lane_dec_at_r@)[i]) == Lin::wire(
                        (m + 8 + i) as usize,
                    ));
            }
            lemma_wires_eval(b1.values, v, b@.values);
            lemma_wires_below(m as int, 12, b@.rows.len());
            lemma_polys_keep(r.round_polys@, b1, b@);
        }
        r
    }
}

proof fn lemma_polys_keep(
    polys: Seq<RoundPolyTrace>,
    before: crate::circuit::Circuit,
    after: crate::circuit::Circuit,
)
    requires
        polys_ok(polys, before.rows.len()),
        after.grows(before),
    ensures
        polys_ok(polys, after.rows.len()),
        rows_evals(poly_lanes(polys), after.values) == rows_evals(
            poly_lanes(polys),
            before.values,
        ),
{
    crate::block_spine::lemma_polys_grow(polys, before.rows.len(), after.rows.len());
    let lanes = poly_lanes(polys);
    assert forall|i: int| 0 <= i < lanes.len() implies evals_at(lanes[i], after.values)
        == evals_at(lanes[i], before.values) by {
        assert(polys[i].coeffs@.len() >= 1);
        lemma_evals_stable(before, after, lanes[i]);
    }
    assert(rows_evals(lanes, after.values) =~= rows_evals(lanes, before.values));
}

impl BlockSpineShiftProofTrace {
    /// Fresh wires of a proof of `num_vars` rounds.
    pub fn allocate(b: &mut FieldR1csBuilder, native: &BlockSpineShiftProof, num_vars: usize) -> (r:
        BlockSpineShiftProofTrace)
        requires
            old(b)@.wf(),
            native.round_polys@.len() == num_vars,
            polys_full(native.round_polys@),
        ensures
            allocated(old(b)@, final(b)@, native.values()),
            r.round_polys@.len() == num_vars,
            r.below(final(b)@.rows.len()),
            rows_evals(poly_lanes(r.round_polys@), final(b)@.values) == poly_views(
                native.round_polys@,
            ),
            evals_at(r.columns(), final(b)@.values) == native.columns(),
            poly_lanes(r.round_polys@) == poly_wires(
                old(b)@.rows.len() as int,
                poly_lens(poly_views(native.round_polys@)),
            ),
            r.columns() == wires_from(
                old(b)@.rows.len() as int + lens_sum(
                    poly_lens(poly_views(native.round_polys@)),
                    num_vars as nat,
                ),
                3,
            ),
            native.values().len() == lens_sum(
                poly_lens(poly_views(native.round_polys@)),
                num_vars as nat,
            ) + 3,
    {
        let ghost b0 = b@;
        let round_polys = allocate_polys(b, &native.round_polys);
        let ghost b1 = b@;
        let s_in_at_r2 = alloc_value(b, native.s_in_at_r2);
        let ghost b2 = b@;
        let s_out_at_r2 = alloc_value(b, native.s_out_at_r2);
        let ghost b3 = b@;
        let state_at_r2 = alloc_value(b, native.state_at_r2);
        let r = BlockSpineShiftProofTrace { round_polys, s_in_at_r2, s_out_at_r2, state_at_r2 };
        proof {
            let v = native.columns();
            lemma_values_len(poly_views(native.round_polys@), num_vars as nat);
            let polys = poly_values(poly_views(native.round_polys@), num_vars as nat);
            lemma_allocated(b1, b2, b3, seq![v[0]], seq![v[1]]);
            lemma_allocated(b1, b3, b@, seq![v[0]] + seq![v[1]], seq![v[2]]);
            assert(v =~= seq![v[0]] + seq![v[1]] + seq![v[2]]);
            lemma_allocated(b0, b1, b@, polys, v);
            let m = b1.rows.len();
            assert(r.columns() =~= wires_from(m as int, 3));
            lemma_wires_eval(b1.values, v, b@.values);
            lemma_wires_below(m as int, 3, b@.rows.len());
            let w = wires_from(m as int, 3);
            assert(w[0].below(b@.rows.len()) && w[1].below(b@.rows.len()) && w[2].below(
                b@.rows.len(),
            ));
            lemma_polys_keep(r.round_polys@, b1, b@);
        }
        r
    }
}

/// The wires of a proof over the spine.
pub struct SpineProofTrace {
    pub main: BlockSpineUnifiedProofTrace,
    pub shift: BlockSpineShiftProofTrace,
    pub chain: LinearEvalProofTrace,
    pub batch: MultiBatchEvalProofTrace,
}

proof fn lemma_wired_below(rounds: Seq<crate::batch_eval::BatchEvalRoundTrace>, start: int, below: nat)
    requires
        rounds_wired(rounds, start),
        0 <= start,
        start + 2 * rounds.len() <= below <= usize::MAX,
    ensures
        rounds_below(rounds, below),
{
    broadcast use group_lin;

    assert forall|i: int| 0 <= i < rounds.len() implies (#[trigger] rounds[i]).below(below) by {
        assert(rounds[i].lanes() == (
            Lin::wire((start + 2 * i) as usize),
            Lin::wire((start + 2 * i + 1) as usize),
        ));
    }
}

impl SpineProofTrace {
    /// Fresh wires of a proof over `num_vars` variables.
    #[verifier::rlimit(40)]
    pub fn allocate(b: &mut FieldR1csBuilder, native: &SpineProof, num_vars: usize) -> (r:
        SpineProofTrace)
        requires
            old(b)@.wf(),
            9 <= num_vars < usize::BITS,
            pow2((num_vars - 9) as nat) <= usize::MAX,
            native.wf(num_vars as nat),
        ensures
            allocated(old(b)@, final(b)@, native.values()),
            proof_ok(
                &r.main,
                &r.shift,
                &r.chain,
                &r.batch,
                num_vars as nat,
                final(b)@.rows.len(),
            ),
            evals_at(r.main.opened(), final(b)@.values) == native.main.opened(),
            evals_at(r.shift.columns(), final(b)@.values) == native.shift.columns(),
            family_lins(&r.main, &r.shift, &r.chain, &r.batch) == proof_wires(
                old(b)@.rows.len() as int,
                num_vars as nat,
                poly_lens(poly_views(native.main.round_polys@)),
                poly_lens(poly_views(native.shift.round_polys@)),
            ),
            native.values().len() == proof_width(
                num_vars as nat,
                poly_lens(poly_views(native.main.round_polys@)),
                poly_lens(poly_views(native.shift.round_polys@)),
            ),
    {
        let ghost b0 = b@;
        let main = BlockSpineUnifiedProofTrace::allocate(b, &native.main, num_vars);
        let ghost b1 = b@;
        let shift = BlockSpineShiftProofTrace::allocate(b, &native.shift, num_vars);
        let ghost b2 = b@;
        let chain = LinearEvalProofTrace::allocate(
            b,
            &native.chain_rounds,
            native.chain_final,
            num_vars,
        );
        let ghost b3 = b@;
        let batch = MultiBatchEvalProofTrace::allocate(
            b,
            &native.batch_rounds,
            &native.batch_finals,
            num_vars,
            3,
        );
        proof {
            let n = num_vars as nat;
            let high = b@.rows.len();
            let v3 = round_values(native.chain_rounds@, n) + seq![native.chain_final];
            let v4 = round_values(native.batch_rounds@, n) + native.batch_finals@;
            lemma_round_values_len(native.chain_rounds@, n);
            lemma_round_values_len(native.batch_rounds@, n);
            lemma_allocated(b0, b1, b2, native.main.values(), native.shift.values());
            lemma_allocated(b0, b2, b3, native.main.values() + native.shift.values(), v3);
            lemma_allocated(b0, b3, b@, native.main.values() + native.shift.values() + v3, v4);
            lemma_polys_keep(main.round_polys@, b1, b@);
            lemma_polys_keep(shift.round_polys@, b2, b@);
            lemma_below_grow(main.opened(), b1.rows.len(), high);
            lemma_evals_stable(b1, b@, main.opened());
            let cols = shift.columns();
            assert(all_below(cols, b2.rows.len()));
            lemma_evals_stable(b2, b@, cols);
            assert(round_lanes(chain.rounds@) =~= round_wires(b2.rows.len() as int, n));
            assert(round_lanes(batch.rounds@) =~= round_wires(b3.rows.len() as int, n));
            lemma_wired_below(chain.rounds@, b2.rows.len() as int, high);
            lemma_wired_below(batch.rounds@, b3.rows.len() as int, high);
            lemma_wires_below(b2.rows.len() as int + 2 * n, 1, high);
            assert(wires_from(b2.rows.len() as int + 2 * n, 1)[0].below(high));
            lemma_wires_below(b3.rows.len() as int + 2 * n, 3, high);
            assert(lins(batch.b_finals@).len() == batch.b_finals@.len());
            assert(cols[0].below(high) && cols[1].below(high) && cols[2].below(high)) by {
                lemma_below_grow(cols, b2.rows.len(), high);
            }
        }
        SpineProofTrace { main, shift, chain, batch }
    }
}

/// Consecutive wires of pairs.
pub open spec fn pair_wires(start: int, n: nat) -> Seq<Seq<Lin>> {
    Seq::new(n, |i: int| wires_from(start + 2 * i, 2))
}

/// Fresh wires of pairs.
pub fn allocate_pairs(b: &mut FieldR1csBuilder, pairs: &Vec<[F128; 2]>) -> (r: Vec<[LinExpr; 2]>)
    requires
        old(b)@.wf(),
    ensures
        allocated(old(b)@, final(b)@, round_values(pairs@, pairs@.len())),
        computed(old(b)@, final(b)@),
        final(b)@.rows.len() == old(b)@.rows.len() + 2 * pairs@.len(),
        r@.len() == pairs@.len(),
        block_lins(r@) == pair_wires(old(b)@.rows.len() as int, pairs@.len()),
        blocks_below(r@, final(b)@.rows.len()),
        blocks_at(block_lins(r@), final(b)@.values) == pair_views(pairs@),
{
    let ghost b0 = b@;
    let mut r: Vec<[LinExpr; 2]> = Vec::new();
    proof {
        lemma_computed_refl(b0);
        lemma_allocated_none(b0);
    }
    while r.len() < pairs.len()
        invariant
            r@.len() <= pairs@.len(),
            b@.wf(),
            computed(b0, b@),
            allocated(b0, b@, round_values(pairs@, r@.len())),
            b@.rows.len() == b0.rows.len() + 2 * r@.len(),
            forall|i: int|
                0 <= i < r@.len() ==> lins((#[trigger] r@[i])@) == wires_from(
                    b0.rows.len() + 2 * i,
                    2,
                ),
            blocks_below(r@, b@.rows.len()),
            forall|i: int|
                0 <= i < r@.len() ==> evals_at(lins((#[trigger] r@[i])@), b@.values)
                    == pairs@[i]@,
        decreases pairs@.len() - r@.len(),
    {
        let ghost c = b@;
        let ghost prior = r@;
        let i: usize = r.len();
        let x = alloc_value(b, pairs[i][0]);
        let ghost c1 = b@;
        let y = alloc_value(b, pairs[i][1]);
        let pair = [x, y];
        r.push(pair);
        proof {
            let v = pairs@[i as int]@;
            lemma_allocated(c, c1, b@, seq![v[0]], seq![v[1]]);
            assert(seq![v[0]] + seq![v[1]] =~= v);
            lemma_allocated(b0, c, b@, round_values(pairs@, i as nat), v);
            assert(round_values(pairs@, i as nat) + v =~= round_values(pairs@, (i + 1) as nat));
            lemma_allocated_computed(c, b@, v);
            assert(lins(pair@) =~= wires_from(c.rows.len() as int, 2));
            lemma_wires_eval(c.values, v, b@.values);
            lemma_wires_below(c.rows.len() as int, 2, b@.rows.len());
            lemma_blocks_grow(prior, c.rows.len(), b@.rows.len());
            assert forall|k: int| 0 <= k < r@.len() implies all_below(
                lins((#[trigger] r@[k])@),
                b@.rows.len(),
            ) && evals_at(lins(r@[k]@), b@.values) == pairs@[k]@ && lins(r@[k]@) == wires_from(
                b0.rows.len() + 2 * k,
                2,
            ) by {
                if k < i {
                    assert(r@[k] == prior[k]);
                    assert(all_below(lins(prior[k]@), c.rows.len()));
                    lemma_evals_stable(c, b@, lins(prior[k]@));
                }
            }
        }
    }
    proof {
        assert(blocks_at(block_lins(r@), b@.values) =~= pair_views(pairs@));
        assert(block_lins(r@) =~= pair_wires(b0.rows.len() as int, pairs@.len()));
    }
    r
}

pub open spec fn pair_views(pairs: Seq<[F128; 2]>) -> Seq<Seq<F128>> {
    Seq::new(pairs.len(), |i: int| pairs[i]@)
}

/// Pairs keep their values while a circuit grows.
pub proof fn lemma_pairs_stable(
    before: crate::circuit::Circuit,
    after: crate::circuit::Circuit,
    pairs: Seq<[LinExpr; 2]>,
)
    requires
        after.grows(before),
        blocks_below(pairs, before.rows.len()),
    ensures
        blocks_below(pairs, after.rows.len()),
        blocks_at(block_lins(pairs), after.values) == blocks_at(
            block_lins(pairs),
            before.values,
        ),
{
    lemma_blocks_grow(pairs, before.rows.len(), after.rows.len());
    let bl = block_lins(pairs);
    assert forall|i: int| 0 <= i < bl.len() implies evals_at(bl[i], after.values) == evals_at(
        bl[i],
        before.values,
    ) by {
        assert(all_below(lins(pairs[i]@), before.rows.len()));
        lemma_evals_stable(before, after, bl[i]);
    }
    assert(blocks_at(bl, after.values) =~= blocks_at(bl, before.values));
}

} // verus!
