//! What the spine verifiers share: a run that opens the spine, binds linear
//! relations over its states, and closes on one point of each column.

use vstd::prelude::*;
use vstd::arithmetic::power2::pow2;
use crate::batch_eval::{
    claim_points, claim_values, claims_ok, column_points, column_values, columns_at, columns_ok,
    dup_all, lemma_linear_past, lemma_linear_sound, lemma_multi_past, lemma_multi_sound,
    linear_checks, linear_ok, linear_run, linear_terms, linear_values, multi_checks, multi_run,
    pair_evals, relations_at, reversed, round_lanes, rounds_below, rows_at, terms_below,
    verify_linear_eval_prebound_trace, verify_multi_batch_eval_trace, BatchEvalReductionTrace,
    EvalClaimTrace, LinearEvalClaimTrace, LinearEvalProofTrace, MultiBatchEvalProofTrace, MultiRun,
    Run,
};
use crate::block_spine::{
    lemma_polys_grow, lemma_unified_past, lemma_unified_sound, unified_checked, unified_run,
    verify_block_spine_unified_trace, BlockSpineUnifiedProofTrace, BlockSpineUnifiedReductionTrace,
    UnifiedRun,
};
use crate::channel::{drew, lemma_drew_trans, tape, RawChannelTrace, Tape};
use crate::circuit::{
    all_below, group_circuit, lemma_prefix_trans, lemma_sat_prefix, lins, prefix, sat, Circuit,
    FieldR1csBuilder, Lin, LinExpr, Row,
};
use crate::eval_gadgets::lemma_below_grow;
use crate::field::F128;
use crate::gadget::{
    all_zero, computed, extended, holds_past, lemma_computed_refl, lemma_computed_trans,
    lemma_extended_trans, lemma_past_split, lemma_pinned_computed, lemma_pinned_trans,
    lemma_zero_stable, pinned,
};
use crate::multilinear::evals_at;
use crate::poseidon::{Permutation, PoseidonTables};
use crate::round_poly::poly_lanes;
use crate::spine_shift::{
    lemma_shift_past, lemma_shift_sound, shift_checked, shift_run, verify_block_spine_shift_trace,
    BlockSpineShiftProofTrace, BlockSpineShiftReductionTrace, ShiftRun,
};

verus! {

broadcast use {group_circuit, lemma_computed_trans};

/// The expressions of a proof.
pub struct FamilyLins {
    pub main: Seq<Seq<Lin>>,
    pub opened: Seq<Lin>,
    pub shift: Seq<Seq<Lin>>,
    pub columns: Seq<Lin>,
    pub chain: Seq<(Lin, Lin)>,
    pub chain_final: Lin,
    pub batch: Seq<(Lin, Lin)>,
    pub finals: Seq<Lin>,
}

/// The tags that a run absorbs: of linear relations, of the relation at hand,
/// and of the closing batch.
#[derive(Clone, Copy, Debug)]
pub struct SpineTags {
    pub linear: u128,
    pub relation: u128,
    pub batch: u128,
}

pub open spec fn family_lins(
    main: &BlockSpineUnifiedProofTrace,
    shift: &BlockSpineShiftProofTrace,
    chain: &LinearEvalProofTrace,
    batch: &MultiBatchEvalProofTrace,
) -> FamilyLins {
    FamilyLins {
        main: poly_lanes(main.round_polys@),
        opened: main.opened(),
        shift: poly_lanes(shift.round_polys@),
        columns: shift.columns(),
        chain: round_lanes(chain.rounds@),
        chain_final: chain.b_final@,
        batch: round_lanes(batch.rounds@),
        finals: lins(batch.b_finals@),
    }
}

/// A proof over `n` variables.
pub open spec fn family_ok(f: FamilyLins, n: nat) -> bool {
    &&& n >= 9
    &&& f.main.len() == n
    &&& f.shift.len() == n
    &&& f.chain.len() == n
    &&& f.batch.len() == n
    &&& f.opened.len() == 12
    &&& f.columns.len() == 3
    &&& f.finals.len() == 3
    &&& forall|i: int| 0 <= i < n ==> (#[trigger] f.main[i]).len() >= 1
    &&& forall|i: int| 0 <= i < n ==> (#[trigger] f.shift[i]).len() >= 1
}

/// The points of the state claims, then of the S-box claims.
pub open spec fn family_points<A>(rp: A, r2: A, chain: A) -> Seq<Seq<A>> {
    seq![seq![rp, r2, chain], seq![r2], seq![r2]]
}

/// The values of the state claims, then of the S-box claims.
pub open spec fn family_values<A>(state: A, columns: Seq<A>, chain: A) -> Seq<Seq<A>> {
    seq![seq![state, columns[2], chain], seq![columns[0]], seq![columns[1]]]
}

/// The four parts of a run.
pub struct FamilyRun {
    pub unified: UnifiedRun,
    pub shift: ShiftRun,
    pub linear: Run,
    pub multi: MultiRun,
    pub pins: Seq<Lin>,
}

/// The run of a spine verifier. The relations stand in rows that follow those of
/// the shift sumcheck, up to `mid`.
pub open spec fn family_run(
    t: Tape,
    p: Permutation,
    live: nat,
    f: FamilyLins,
    mid: Seq<Row>,
    terms: Seq<Seq<(nat, Lin)>>,
    values: Seq<Lin>,
    tags: SpineTags,
) -> FamilyRun {
    let unified = unified_run(t, p, f.main, f.opened, live);
    let rp = reversed(unified.challenges);
    let shift = shift_run(unified.tape, f.shift, f.opened, rp, f.columns);
    let linear = linear_run(
        shift.tape.on(mid),
        f.chain,
        f.chain_final,
        terms,
        values,
        tags.linear as nat,
        tags.relation as nat,
    );
    let multi = multi_run(
        linear.tape,
        f.batch,
        f.finals,
        family_points(rp, reversed(shift.challenges), reversed(linear.challenges)),
        family_values(f.opened[3], f.columns, f.chain_final),
        tags.batch as nat,
    );
    FamilyRun {
        unified,
        shift,
        linear,
        multi,
        pins: unified.pins + shift.pins + (linear.pins + multi.pins),
    }
}

/// The tape before the relations' rows.
pub open spec fn opening_tape(t: Tape, p: Permutation, live: nat, f: FamilyLins) -> Tape {
    let unified = unified_run(t, p, f.main, f.opened, live);
    shift_run(
        unified.tape,
        f.shift,
        f.opened,
        reversed(unified.challenges),
        f.columns,
    ).tape
}

/// The relations' sumcheck under given values.
pub open spec fn linear_checked(
    run: Run,
    rounds: Seq<(Lin, Lin)>,
    b_final: Lin,
    terms: Seq<Seq<(nat, Lin)>>,
    values: Seq<Lin>,
    z: Seq<F128>,
) -> bool {
    linear_checks(
        pair_evals(rounds, z),
        b_final.eval(z),
        relations_at(terms, z),
        evals_at(values, z),
        evals_at(run.levels, z),
        evals_at(run.challenges, z),
    )
}

/// The closing sumcheck under given values.
pub open spec fn multi_checked(
    run: MultiRun,
    rounds: Seq<(Lin, Lin)>,
    finals: Seq<Lin>,
    points: Seq<Seq<Seq<Lin>>>,
    values: Seq<Seq<Lin>>,
    z: Seq<F128>,
) -> bool {
    multi_checks(
        pair_evals(rounds, z),
        evals_at(finals, z),
        columns_at(points, z),
        rows_at(values, z),
        rows_at(run.levels, z),
        evals_at(run.challenges, z),
    )
}

/// The four sumchecks under given values.
pub open spec fn family_checked(
    run: FamilyRun,
    p: Permutation,
    live: nat,
    f: FamilyLins,
    terms: Seq<Seq<(nat, Lin)>>,
    values: Seq<Lin>,
    z: Seq<F128>,
) -> bool {
    let rp = reversed(run.unified.challenges);
    &&& unified_checked(run.unified, p, f.main, f.opened, live, z)
    &&& shift_checked(run.shift, f.shift, f.opened, rp, f.columns, z)
    &&& linear_checked(run.linear, f.chain, f.chain_final, terms, values, z)
    &&& multi_checked(
        run.multi,
        f.batch,
        f.finals,
        family_points(rp, reversed(run.shift.challenges), reversed(run.linear.challenges)),
        family_values(f.opened[3], f.columns, f.chain_final),
        z,
    )
}

proof fn lemma_family_columns(rp: Seq<Lin>, r2: Seq<Lin>, rc: Seq<Lin>, s: Lin, g: Seq<Lin>, c: Lin, n: nat)
    requires
        rp.len() == n,
        r2.len() == n,
        rc.len() == n,
    ensures
        columns_ok(family_points(rp, r2, rc), family_values(s, g, c), n),
{
    let points = family_points(rp, r2, rc);
    let values = family_values(s, g, c);
    assert forall|i: int| 0 <= i < points.len() implies (#[trigger] points[i]).len()
        == values[i].len() by {
        if i == 0 {
        } else if i == 1 {
        } else {
        }
    }
    assert forall|i: int, j: int|
        0 <= i < points.len() && 0 <= j < points[i].len() implies (#[trigger] points[i][j]).len()
        == n by {
        if i == 0 {
            assert(points[0] == seq![rp, r2, rc]);
            if j == 0 {
            } else if j == 1 {
            } else {
            }
        } else if i == 1 {
            assert(points[1] == seq![r2]);
        } else {
            assert(points[2] == seq![r2]);
        }
    }
}

proof fn lemma_zero_concat(a: Seq<Lin>, b: Seq<Lin>, z: Seq<F128>)
    ensures
        all_zero(a + b, z) <==> all_zero(a, z) && all_zero(b, z),
{
    let all = a + b;
    if all_zero(all, z) {
        assert forall|i: int| 0 <= i < a.len() implies (#[trigger] a[i]).eval(z)
            == F128::zero() by {
            assert(all[i] == a[i]);
        }
        assert forall|i: int| 0 <= i < b.len() implies (#[trigger] b[i]).eval(z)
            == F128::zero() by {
            assert(all[a.len() + i] == b[i]);
        }
    }
    if all_zero(a, z) && all_zero(b, z) {
        assert forall|i: int| 0 <= i < all.len() implies (#[trigger] all[i]).eval(z)
            == F128::zero() by {
            if i < a.len() {
                assert(all[i] == a[i]);
            } else {
                assert(all[i] == b[i - a.len()]);
            }
        }
    }
}

/// The pinned expressions are zero exactly where the four sumchecks check.
#[verifier::rlimit(40)]
pub proof fn lemma_family_past(
    t: Tape,
    p: Permutation,
    live: nat,
    f: FamilyLins,
    n: nat,
    mid: Seq<Row>,
    terms: Seq<Seq<(nat, Lin)>>,
    values: Seq<Lin>,
    tags: SpineTags,
    z: Seq<F128>,
)
    requires
        family_ok(f, n),
        p.rounds() < 128,
        live <= pow2((n - 9) as nat),
        prefix(opening_tape(t, p, live, f).rows, mid),
        terms.len() == values.len(),
    ensures
        prefix(t.rows, family_run(t, p, live, f, mid, terms, values, tags).multi.tape.rows),
        prefix(mid, family_run(t, p, live, f, mid, terms, values, tags).multi.tape.rows),
        holds_past(
            family_run(t, p, live, f, mid, terms, values, tags).multi.tape.rows,
            t.rows.len(),
            z,
        ) ==> (all_zero(family_run(t, p, live, f, mid, terms, values, tags).pins, z)
            <==> family_checked(
            family_run(t, p, live, f, mid, terms, values, tags),
            p,
            live,
            f,
            terms,
            values,
            z,
        )),
{
    broadcast use lemma_prefix_trans;

    let run = family_run(t, p, live, f, mid, terms, values, tags);
    let rp = reversed(run.unified.challenges);
    let r2 = reversed(run.shift.challenges);
    let rc = reversed(run.linear.challenges);
    lemma_unified_past(t, p, f.main, f.opened, live, z);
    lemma_shift_past(run.unified.tape, f.shift, f.opened, rp, f.columns, z);
    lemma_linear_past(
        run.shift.tape.on(mid),
        f.chain,
        f.chain_final,
        terms,
        values,
        tags.linear as nat,
        tags.relation as nat,
        z,
    );
    let points = family_points(rp, r2, rc);
    let vals = family_values(f.opened[3], f.columns, f.chain_final);
    lemma_family_columns(rp, r2, rc, f.opened[3], f.columns, f.chain_final, n);
    lemma_multi_past(run.linear.tape, f.batch, f.finals, points, vals, tags.batch as nat, z);
    let (c1, c2) = (run.unified.tape.rows, run.shift.tape.rows);
    let (c4, c5) = (run.linear.tape.rows, run.multi.tape.rows);
    assert(prefix(t.rows, c1) && prefix(c1, c2) && prefix(c2, mid) && prefix(mid, c4));
    assert(prefix(t.rows, c2));
    assert(prefix(t.rows, mid));
    assert(prefix(t.rows, c4));
    assert(prefix(mid, c5));
    if holds_past(c5, t.rows.len(), z) {
        lemma_past_split(c5, c4, t.rows.len(), z);
        lemma_past_split(c4, mid, t.rows.len(), z);
        lemma_past_split(mid, c2, t.rows.len(), z);
        lemma_past_split(c2, c1, t.rows.len(), z);
        lemma_zero_concat(run.unified.pins, run.shift.pins, z);
        lemma_zero_concat(run.linear.pins, run.multi.pins, z);
        lemma_zero_concat(
            run.unified.pins + run.shift.pins,
            run.linear.pins + run.multi.pins,
            z,
        );
    }
}

/// The points of a run have as many coordinates as there are variables.
proof fn lemma_family_points(
    t: Tape,
    p: Permutation,
    live: nat,
    f: FamilyLins,
    n: nat,
    mid: Seq<Row>,
    terms: Seq<Seq<(nat, Lin)>>,
    values: Seq<Lin>,
    tags: SpineTags,
)
    requires
        family_ok(f, n),
        p.rounds() < 128,
        live <= pow2((n - 9) as nat),
        terms.len() == values.len(),
    ensures
        ({
            let run = family_run(t, p, live, f, mid, terms, values, tags);
            &&& run.unified.challenges.len() == n
            &&& run.shift.challenges.len() == n
            &&& run.linear.challenges.len() == n
        }),
{
    let z = Seq::<F128>::empty();
    let run = family_run(t, p, live, f, mid, terms, values, tags);
    let rp = reversed(run.unified.challenges);
    lemma_unified_past(t, p, f.main, f.opened, live, z);
    lemma_shift_past(run.unified.tape, f.shift, f.opened, rp, f.columns, z);
    lemma_linear_past(
        run.shift.tape.on(mid),
        f.chain,
        f.chain_final,
        terms,
        values,
        tags.linear as nat,
        tags.relation as nat,
        z,
    );
}

proof fn lemma_opening_sound(t: Tape, p: Permutation, live: nat, f: FamilyLins, n: nat, z: Seq<F128>)
    requires
        family_ok(f, n),
        p.rounds() < 128,
        live <= pow2((n - 9) as nat),
        sat(opening_tape(t, p, live, f).rows, z),
    ensures
        sat(t.rows, z),
        ({
            let unified = unified_run(t, p, f.main, f.opened, live);
            let rp = reversed(unified.challenges);
            let shift = shift_run(unified.tape, f.shift, f.opened, rp, f.columns);
            &&& unified_checked(unified, p, f.main, f.opened, live, z)
            &&& shift_checked(shift, f.shift, f.opened, rp, f.columns, z)
        }),
{
    let unified = unified_run(t, p, f.main, f.opened, live);
    let rp = reversed(unified.challenges);
    lemma_unified_past(t, p, f.main, f.opened, live, z);
    lemma_shift_sound(unified.tape, f.shift, f.opened, rp, f.columns, z);
    lemma_unified_sound(t, p, f.main, f.opened, live, z);
}

proof fn lemma_closing_sound(
    t: Tape,
    f: FamilyLins,
    n: nat,
    rp: Seq<Lin>,
    r2: Seq<Lin>,
    terms: Seq<Seq<(nat, Lin)>>,
    values: Seq<Lin>,
    tags: SpineTags,
    z: Seq<F128>,
)
    requires
        family_ok(f, n),
        rp.len() == n,
        r2.len() == n,
        terms.len() == values.len(),
        ({
            let linear = linear_run(
                t,
                f.chain,
                f.chain_final,
                terms,
                values,
                tags.linear as nat,
                tags.relation as nat,
            );
            let multi = multi_run(
                linear.tape,
                f.batch,
                f.finals,
                family_points(rp, r2, reversed(linear.challenges)),
                family_values(f.opened[3], f.columns, f.chain_final),
                tags.batch as nat,
            );
            sat(multi.tape.rows, z)
        }),
    ensures
        sat(t.rows, z),
        ({
            let linear = linear_run(
                t,
                f.chain,
                f.chain_final,
                terms,
                values,
                tags.linear as nat,
                tags.relation as nat,
            );
            let points = family_points(rp, r2, reversed(linear.challenges));
            let vals = family_values(f.opened[3], f.columns, f.chain_final);
            let multi = multi_run(
                linear.tape,
                f.batch,
                f.finals,
                points,
                vals,
                tags.batch as nat,
            );
            &&& linear_checked(linear, f.chain, f.chain_final, terms, values, z)
            &&& multi_checked(multi, f.batch, f.finals, points, vals, z)
        }),
{
    let (tl, tr, tb) = (tags.linear as nat, tags.relation as nat, tags.batch as nat);
    let linear = linear_run(t, f.chain, f.chain_final, terms, values, tl, tr);
    lemma_linear_past(t, f.chain, f.chain_final, terms, values, tl, tr, z);
    let rc = reversed(linear.challenges);
    let points = family_points(rp, r2, rc);
    let vals = family_values(f.opened[3], f.columns, f.chain_final);
    lemma_family_columns(rp, r2, rc, f.opened[3], f.columns, f.chain_final, n);
    lemma_multi_sound(linear.tape, f.batch, f.finals, points, vals, tb, z);
    lemma_linear_sound(t, f.chain, f.chain_final, terms, values, tl, tr, z);
}

/// Soundness: a run whose rows hold, pins and all, has made its four sumchecks.
pub proof fn lemma_family_sound(
    t: Tape,
    p: Permutation,
    live: nat,
    f: FamilyLins,
    n: nat,
    mid: Seq<Row>,
    terms: Seq<Seq<(nat, Lin)>>,
    values: Seq<Lin>,
    tags: SpineTags,
    z: Seq<F128>,
)
    requires
        family_ok(f, n),
        p.rounds() < 128,
        live <= pow2((n - 9) as nat),
        prefix(opening_tape(t, p, live, f).rows, mid),
        terms.len() == values.len(),
        sat(family_run(t, p, live, f, mid, terms, values, tags).multi.tape.rows, z),
    ensures
        sat(t.rows, z),
        sat(mid, z),
        family_checked(
            family_run(t, p, live, f, mid, terms, values, tags),
            p,
            live,
            f,
            terms,
            values,
            z,
        ),
{
    let run = family_run(t, p, live, f, mid, terms, values, tags);
    let rp = reversed(run.unified.challenges);
    let r2 = reversed(run.shift.challenges);
    lemma_family_points(t, p, live, f, n, mid, terms, values, tags);
    lemma_closing_sound(run.shift.tape.on(mid), f, n, rp, r2, terms, values, tags, z);
    lemma_sat_prefix(run.shift.tape.rows, mid, z);
    lemma_opening_sound(t, p, live, f, n, z);
}

// ---------------------------------------------------------------------------
// In the trace
// ---------------------------------------------------------------------------

fn claim(point: &Vec<LinExpr>, value: &LinExpr) -> (r: EvalClaimTrace)
    ensures
        lins(r.point@) == lins(point@),
        r.point@.len() == point@.len(),
        r.value@ == value@,
{
    EvalClaimTrace { point: dup_all(point), value: value.dup() }
}

/// Closes on one point: the state claimed at three points, the S-box columns
/// at one. Gives the state, then the S-box inputs and outputs.
pub fn close_spine_family_batch(
    b: &mut FieldR1csBuilder,
    ch: &mut RawChannelTrace,
    main_red: &BlockSpineUnifiedReductionTrace,
    shift_red: &BlockSpineShiftReductionTrace,
    chain_red: &BatchEvalReductionTrace,
    batch: &MultiBatchEvalProofTrace,
    num_vars: usize,
    tag: u128,
) -> (r: [BatchEvalReductionTrace; 3])
    requires
        old(b)@.wf(),
        batch.rounds@.len() == num_vars,
        batch.b_finals@.len() == 3,
        main_red.r_prime@.len() == num_vars,
        shift_red.r_double_prime@.len() == num_vars,
        chain_red.fits(num_vars as nat, old(b)@.rows.len()),
        main_red.below(old(b)@.rows.len()),
        shift_red.below(old(b)@.rows.len()),
        rounds_below(batch.rounds@, old(b)@.rows.len()),
        all_below(lins(batch.b_finals@), old(b)@.rows.len()),
    ensures
        ({
            let points = family_points(
                lins(main_red.r_prime@),
                lins(shift_red.r_double_prime@),
                lins(chain_red.point@),
            );
            let values = family_values(
                main_red.state_at_r@,
                shift_red.columns(),
                chain_red.value@,
            );
            let run = multi_run(
                tape(*old(b), *old(ch)),
                round_lanes(batch.rounds@),
                lins(batch.b_finals@),
                points,
                values,
                tag as nat,
            );
            &&& tape(*final(b), *final(ch)) == run.tape
            &&& pinned(old(b)@, final(b)@, run.pins)
            &&& final(b)@.honest() <==> old(b)@.honest() && multi_checked(
                run,
                round_lanes(batch.rounds@),
                lins(batch.b_finals@),
                points,
                values,
                final(b)@.values,
            )
            &&& forall|i: int|
                0 <= i < 3 ==> lins((#[trigger] r[i]).point@) == reversed(run.challenges)
                    && r[i].value@ == batch.b_finals@[i]@
        }),
        final(b)@.grows(old(b)@),
        forall|i: int|
            0 <= i < 3 ==> (#[trigger] r[i]).fits(num_vars as nat, final(b)@.rows.len()),
        drew(old(b)@, *old(ch), final(b)@, *final(ch)),
{
    let ghost m = b@.rows.len();
    let mut state: Vec<EvalClaimTrace> = Vec::new();
    state.push(claim(&main_red.r_prime, &main_red.state_at_r));
    state.push(claim(&shift_red.r_double_prime, &shift_red.state_at_r2));
    state.push(claim(&chain_red.point, &chain_red.value));
    let mut sin: Vec<EvalClaimTrace> = Vec::new();
    sin.push(claim(&shift_red.r_double_prime, &shift_red.s_in_at_r2));
    let mut sout: Vec<EvalClaimTrace> = Vec::new();
    sout.push(claim(&shift_red.r_double_prime, &shift_red.s_out_at_r2));
    proof {
        assert(main_red.opened()[3].below(m));
        assert(claims_ok(state@, num_vars as nat, m));
        assert(claims_ok(sin@, num_vars as nat, m));
        assert(claims_ok(sout@, num_vars as nat, m));
    }
    let mut columns: Vec<Vec<EvalClaimTrace>> = Vec::new();
    columns.push(state);
    columns.push(sin);
    columns.push(sout);
    proof {
        let points = family_points(
            lins(main_red.r_prime@),
            lins(shift_red.r_double_prime@),
            lins(chain_red.point@),
        );
        let values = family_values(main_red.state_at_r@, shift_red.columns(), chain_red.value@);
        assert(claim_points(state@) =~= points[0]);
        assert(claim_points(sin@) =~= points[1]);
        assert(claim_points(sout@) =~= points[2]);
        assert(column_points(columns@) =~= points);
        assert(claim_values(state@) =~= values[0]);
        assert(claim_values(sin@) =~= values[1]);
        assert(claim_values(sout@) =~= values[2]);
        assert(column_values(columns@) =~= values);
    }
    let mut r = verify_multi_batch_eval_trace(b, ch, batch, &columns, num_vars, tag);
    let ghost all = r@;
    let third = r.pop().unwrap();
    let second = r.pop().unwrap();
    let first = r.pop().unwrap();
    assert(first == all[0] && second == all[1] && third == all[2]);
    [first, second, third]
}

/// Opens the spine: both sumchecks over its rows.
pub fn open_spine_family(
    b: &mut FieldR1csBuilder,
    ch: &mut RawChannelTrace,
    tables: &PoseidonTables,
    main: &BlockSpineUnifiedProofTrace,
    shift: &BlockSpineShiftProofTrace,
    num_vars: usize,
    live_slots: usize,
) -> (r: (BlockSpineUnifiedReductionTrace, BlockSpineShiftReductionTrace))
    requires
        old(b)@.wf(),
        tables@.rounds() < 128,
        num_vars >= 9,
        main.round_polys@.len() == num_vars,
        shift.round_polys@.len() == num_vars,
        pow2((num_vars - 9) as nat) <= usize::MAX,
        live_slots <= pow2((num_vars - 9) as nat),
        main.below(old(b)@.rows.len()),
        shift.below(old(b)@.rows.len()),
    ensures
        ({
            let unified = unified_run(
                tape(*old(b), *old(ch)),
                tables@,
                poly_lanes(main.round_polys@),
                main.opened(),
                live_slots as nat,
            );
            let shifted = shift_run(
                unified.tape,
                poly_lanes(shift.round_polys@),
                main.opened(),
                reversed(unified.challenges),
                shift.columns(),
            );
            &&& tape(*final(b), *final(ch)) == shifted.tape
            &&& pinned(old(b)@, final(b)@, unified.pins + shifted.pins)
            &&& lins(r.0.r_prime@) == reversed(unified.challenges)
            &&& lins(r.1.r_double_prime@) == reversed(shifted.challenges)
        }),
        final(b)@.grows(old(b)@),
        r.0.r_prime@.len() == num_vars,
        r.0.state_at_r@ == main.state_at_r@,
        r.0.below(final(b)@.rows.len()),
        r.1.r_double_prime@.len() == num_vars,
        r.1.columns() == shift.columns(),
        r.1.below(final(b)@.rows.len()),
        drew(old(b)@, *old(ch), final(b)@, *final(ch)),
{
    let ghost (b0, ch0) = (b@, *ch);
    let ghost t0 = tape(*b, *ch);
    let main_red = verify_block_spine_unified_trace(b, ch, tables, main, num_vars, live_slots);
    let ghost (b1, ch1) = (b@, *ch);
    proof {
        lemma_polys_grow(shift.round_polys@, b0.rows.len(), b1.rows.len());
    }
    let shift_red = verify_block_spine_shift_trace(b, ch, shift, &main_red, num_vars);
    proof {
        let unified = unified_run(
            t0,
            tables@,
            poly_lanes(main.round_polys@),
            main.opened(),
            live_slots as nat,
        );
        let shifted = shift_run(
            unified.tape,
            poly_lanes(shift.round_polys@),
            main.opened(),
            reversed(unified.challenges),
            shift.columns(),
        );
        lemma_pinned_trans(b0, b1, b@, unified.pins, shifted.pins);
        lemma_drew_trans(b0, ch0, b1, ch1, b@, *ch);
        lemma_below_grow(lins(main_red.r_prime@), b1.rows.len(), b@.rows.len());
        lemma_below_grow(main_red.opened(), b1.rows.len(), b@.rows.len());
    }
    (main_red, shift_red)
}

/// Closes the spine: the linear relations over its states, then one point for
/// each column.
pub fn close_spine_family(
    b: &mut FieldR1csBuilder,
    ch: &mut RawChannelTrace,
    main_red: &BlockSpineUnifiedReductionTrace,
    shift_red: &BlockSpineShiftReductionTrace,
    chain: &LinearEvalProofTrace,
    batch: &MultiBatchEvalProofTrace,
    claims: &Vec<LinearEvalClaimTrace>,
    num_vars: usize,
    tags: SpineTags,
) -> (r: [BatchEvalReductionTrace; 3])
    requires
        old(b)@.wf(),
        num_vars < usize::BITS,
        claims@.len() > 0,
        linear_ok(claims@, old(b)@.rows.len()),
        chain.rounds@.len() == num_vars,
        batch.rounds@.len() == num_vars,
        batch.b_finals@.len() == 3,
        main_red.r_prime@.len() == num_vars,
        shift_red.r_double_prime@.len() == num_vars,
        main_red.below(old(b)@.rows.len()),
        shift_red.below(old(b)@.rows.len()),
        rounds_below(chain.rounds@, old(b)@.rows.len()),
        chain.b_final@.below(old(b)@.rows.len()),
        rounds_below(batch.rounds@, old(b)@.rows.len()),
        all_below(lins(batch.b_finals@), old(b)@.rows.len()),
    ensures
        ({
            let linear = linear_run(
                tape(*old(b), *old(ch)),
                round_lanes(chain.rounds@),
                chain.b_final@,
                linear_terms(claims@),
                linear_values(claims@),
                tags.linear as nat,
                tags.relation as nat,
            );
            let multi = multi_run(
                linear.tape,
                round_lanes(batch.rounds@),
                lins(batch.b_finals@),
                family_points(
                    lins(main_red.r_prime@),
                    lins(shift_red.r_double_prime@),
                    reversed(linear.challenges),
                ),
                family_values(main_red.state_at_r@, shift_red.columns(), chain.b_final@),
                tags.batch as nat,
            );
            &&& tape(*final(b), *final(ch)) == multi.tape
            &&& pinned(old(b)@, final(b)@, linear.pins + multi.pins)
            &&& forall|i: int|
                0 <= i < 3 ==> lins((#[trigger] r[i]).point@) == reversed(multi.challenges)
                    && r[i].value@ == batch.b_finals@[i]@
        }),
        final(b)@.grows(old(b)@),
        forall|i: int|
            0 <= i < 3 ==> (#[trigger] r[i]).fits(num_vars as nat, final(b)@.rows.len()),
        drew(old(b)@, *old(ch), final(b)@, *final(ch)),
{
    let ghost (b0, ch0) = (b@, *ch);
    let ghost t0 = tape(*b, *ch);
    let red = verify_linear_eval_prebound_trace(
        b,
        ch,
        chain,
        claims,
        num_vars,
        tags.linear,
        tags.relation,
    );
    let ghost (b1, ch1) = (b@, *ch);
    let ghost linear = linear_run(
        t0,
        round_lanes(chain.rounds@),
        chain.b_final@,
        linear_terms(claims@),
        linear_values(claims@),
        tags.linear as nat,
        tags.relation as nat,
    );
    proof {
        let (m, n) = (b0.rows.len(), b1.rows.len());
        lemma_below_grow(lins(main_red.r_prime@), m, n);
        lemma_below_grow(main_red.opened(), m, n);
        lemma_below_grow(lins(shift_red.r_double_prime@), m, n);
        lemma_below_grow(lins(batch.b_finals@), m, n);
        assert forall|i: int| 0 <= i < batch.rounds@.len() implies (
        #[trigger] batch.rounds@[i]).below(n) by {
            assert(batch.rounds@[i].below(m));
        }
    }
    let r = close_spine_family_batch(
        b,
        ch,
        main_red,
        shift_red,
        &red,
        batch,
        num_vars,
        tags.batch,
    );
    proof {
        let multi = multi_run(
            linear.tape,
            round_lanes(batch.rounds@),
            lins(batch.b_finals@),
            family_points(
                lins(main_red.r_prime@),
                lins(shift_red.r_double_prime@),
                reversed(linear.challenges),
            ),
            family_values(main_red.state_at_r@, shift_red.columns(), chain.b_final@),
            tags.batch as nat,
        );
        lemma_pinned_trans(b0, b1, b@, linear.pins, multi.pins);
        lemma_drew_trans(b0, ch0, b1, ch1, b@, *ch);
    }
    r
}

/// The outcome of a spine verifier: its rows and operations, and that its values
/// satisfy them exactly where the four sumchecks check.
pub open spec fn family_verified(
    before: Circuit,
    after: Circuit,
    t: Tape,
    p: Permutation,
    live: nat,
    f: FamilyLins,
    mid: Seq<Row>,
    terms: Seq<Seq<(nat, Lin)>>,
    values: Seq<Lin>,
    tags: SpineTags,
) -> bool {
    let run = family_run(t, p, live, f, mid, terms, values, tags);
    &&& after.rows == run.multi.tape.rows
    &&& pinned(before, after, run.pins)
    &&& after.honest() <==> before.honest() && family_checked(
        run,
        p,
        live,
        f,
        terms,
        values,
        after.values,
    )
}

/// Opening, relations and closing make a verified run.
pub proof fn lemma_family_verified(
    before: Circuit,
    opened: Circuit,
    related: Circuit,
    after: Circuit,
    t: Tape,
    p: Permutation,
    live: nat,
    f: FamilyLins,
    n: nat,
    terms: Seq<Seq<(nat, Lin)>>,
    values: Seq<Lin>,
    tags: SpineTags,
)
    requires
        family_ok(f, n),
        p.rounds() < 128,
        live <= pow2((n - 9) as nat),
        terms.len() == values.len(),
        t.rows == before.rows,
        opened.rows == opening_tape(t, p, live, f).rows,
        computed(opened, related),
        ({
            let run = family_run(t, p, live, f, related.rows, terms, values, tags);
            &&& after.rows == run.multi.tape.rows
            &&& pinned(before, opened, run.unified.pins + run.shift.pins)
            &&& pinned(related, after, run.linear.pins + run.multi.pins)
        }),
    ensures
        family_verified(before, after, t, p, live, f, related.rows, terms, values, tags),
{
    let run = family_run(t, p, live, f, related.rows, terms, values, tags);
    let first = run.unified.pins + run.shift.pins;
    let second = run.linear.pins + run.multi.pins;
    lemma_pinned_computed(before, opened, related, first);
    lemma_pinned_trans(before, related, after, first, second);
    lemma_family_past(t, p, live, f, n, related.rows, terms, values, tags, after.values);
}

/// What the sumchecks say of a run does not change with the rows that follow it.
pub proof fn lemma_family_keeps(
    before: Circuit,
    verified: Circuit,
    after: Circuit,
    t: Tape,
    p: Permutation,
    live: nat,
    f: FamilyLins,
    n: nat,
    mid: Seq<Row>,
    terms: Seq<Seq<(nat, Lin)>>,
    values: Seq<Lin>,
    tags: SpineTags,
)
    requires
        family_ok(f, n),
        p.rounds() < 128,
        live <= pow2((n - 9) as nat),
        prefix(opening_tape(t, p, live, f).rows, mid),
        terms.len() == values.len(),
        t.rows == before.rows,
        extended(verified, after),
        ({
            let run = family_run(t, p, live, f, mid, terms, values, tags);
            &&& verified.rows == run.multi.tape.rows
            &&& pinned(before, verified, run.pins)
        }),
    ensures
        ({
            let run = family_run(t, p, live, f, mid, terms, values, tags);
            family_checked(run, p, live, f, terms, values, after.values) == family_checked(
                run,
                p,
                live,
                f,
                terms,
                values,
                verified.values,
            )
        }),
{
    let run = family_run(t, p, live, f, mid, terms, values, tags);
    lemma_family_past(t, p, live, f, n, mid, terms, values, tags, verified.values);
    lemma_family_past(t, p, live, f, n, mid, terms, values, tags, after.values);
    lemma_extended_trans(before, verified, after);
    lemma_past_split(after.rows, verified.rows, before.rows.len(), after.values);
    lemma_zero_stable(verified, after, run.pins);
}

/// The parts of a proof over `n` variables, on wires below a bound.
pub open spec fn proof_ok(
    main: &BlockSpineUnifiedProofTrace,
    shift: &BlockSpineShiftProofTrace,
    chain: &LinearEvalProofTrace,
    batch: &MultiBatchEvalProofTrace,
    n: nat,
    below: nat,
) -> bool {
    &&& 9 <= n < usize::BITS
    &&& pow2((n - 9) as nat) <= usize::MAX
    &&& main.round_polys@.len() == n
    &&& shift.round_polys@.len() == n
    &&& chain.rounds@.len() == n
    &&& batch.rounds@.len() == n
    &&& batch.b_finals@.len() == 3
    &&& main.below(below)
    &&& shift.below(below)
    &&& rounds_below(chain.rounds@, below)
    &&& chain.b_final@.below(below)
    &&& rounds_below(batch.rounds@, below)
    &&& all_below(lins(batch.b_finals@), below)
}

pub proof fn lemma_proof_family(
    main: &BlockSpineUnifiedProofTrace,
    shift: &BlockSpineShiftProofTrace,
    chain: &LinearEvalProofTrace,
    batch: &MultiBatchEvalProofTrace,
    n: nat,
    below: nat,
)
    requires
        proof_ok(main, shift, chain, batch, n, below),
    ensures
        family_ok(family_lins(main, shift, chain, batch), n),
{
    lemma_polys_grow(main.round_polys@, below, below);
    lemma_polys_grow(shift.round_polys@, below, below);
}

pub proof fn lemma_proof_grow(
    main: &BlockSpineUnifiedProofTrace,
    shift: &BlockSpineShiftProofTrace,
    chain: &LinearEvalProofTrace,
    batch: &MultiBatchEvalProofTrace,
    n: nat,
    low: nat,
    high: nat,
)
    requires
        proof_ok(main, shift, chain, batch, n, low),
        low <= high,
    ensures
        proof_ok(main, shift, chain, batch, n, high),
{
    lemma_polys_grow(main.round_polys@, low, high);
    lemma_polys_grow(shift.round_polys@, low, high);
    lemma_below_grow(main.opened(), low, high);
    lemma_below_grow(lins(batch.b_finals@), low, high);
    assert forall|i: int| 0 <= i < batch.rounds@.len() implies (#[trigger] batch.rounds@[i]).below(
        high,
    ) by {
        assert(batch.rounds@[i].below(low));
    }
    assert forall|i: int| 0 <= i < chain.rounds@.len() implies (#[trigger] chain.rounds@[i]).below(
        high,
    ) by {
        assert(chain.rounds@[i].below(low));
    }
}

pub proof fn lemma_reductions_grow(
    main_red: &BlockSpineUnifiedReductionTrace,
    shift_red: &BlockSpineShiftReductionTrace,
    low: nat,
    high: nat,
)
    requires
        main_red.below(low),
        shift_red.below(low),
        low <= high,
    ensures
        main_red.below(high),
        shift_red.below(high),
{
    lemma_below_grow(lins(main_red.r_prime@), low, high);
    lemma_below_grow(main_red.opened(), low, high);
    lemma_below_grow(lins(shift_red.r_double_prime@), low, high);
}

pub proof fn lemma_linear_grow(claims: Seq<LinearEvalClaimTrace>, m: nat, n: nat)
    requires
        linear_ok(claims, m),
        m <= n,
    ensures
        linear_ok(claims, n),
{
    assert forall|i: int| 0 <= i < claims.len() implies terms_below((#[trigger] claims[i]).terms@, n)
        && claims[i].value@.below(n) by {
        assert(terms_below(claims[i].terms@, m));
        assert forall|j: int| 0 <= j < claims[i].terms@.len() implies (
        #[trigger] claims[i].terms@[j]).coeff@.below(n) by {
            assert(claims[i].terms@[j].coeff@.below(m));
        }
    }
}

/// Verifies relations that take no rows of their own.
#[verifier::rlimit(40)]
pub fn verify_spine_relations(
    b: &mut FieldR1csBuilder,
    ch: &mut RawChannelTrace,
    t: &PoseidonTables,
    main: &BlockSpineUnifiedProofTrace,
    shift: &BlockSpineShiftProofTrace,
    chain: &LinearEvalProofTrace,
    batch: &MultiBatchEvalProofTrace,
    claims: &Vec<LinearEvalClaimTrace>,
    num_vars: usize,
    live_slots: usize,
    tags: SpineTags,
) -> (r: [BatchEvalReductionTrace; 3])
    requires
        old(b)@.wf(),
        t@.rounds() < 128,
        proof_ok(main, shift, chain, batch, num_vars as nat, old(b)@.rows.len()),
        live_slots <= pow2((num_vars - 9) as nat),
        claims@.len() > 0,
        linear_ok(claims@, old(b)@.rows.len()),
    ensures
        ({
            let f = family_lins(main, shift, chain, batch);
            let start = tape(*old(b), *old(ch));
            let live = live_slots as nat;
            let mid = opening_tape(start, t@, live, f).rows;
            let (terms, values) = (linear_terms(claims@), linear_values(claims@));
            let run = family_run(start, t@, live, f, mid, terms, values, tags);
            &&& tape(*final(b), *final(ch)) == run.multi.tape
            &&& family_verified(
                old(b)@,
                final(b)@,
                start,
                t@,
                live,
                f,
                mid,
                terms,
                values,
                tags,
            )
            &&& forall|i: int|
                0 <= i < 3 ==> lins((#[trigger] r[i]).point@) == reversed(run.multi.challenges)
                    && r[i].value@ == batch.b_finals@[i]@
        }),
        final(b)@.grows(old(b)@),
        forall|i: int|
            0 <= i < 3 ==> (#[trigger] r[i]).fits(num_vars as nat, final(b)@.rows.len()),
        drew(old(b)@, *old(ch), final(b)@, *final(ch)),
{
    let ghost (b0, ch0) = (b@, *ch);
    let ghost m = b0.rows.len();
    let ghost f = family_lins(main, shift, chain, batch);
    let ghost start = tape(*b, *ch);
    let (main_red, shift_red) = open_spine_family(b, ch, t, main, shift, num_vars, live_slots);
    let ghost (b1, ch1) = (b@, *ch);
    let ghost opened = opening_tape(start, t@, live_slots as nat, f);
    proof {
        assert(tape(*b, *ch) == opened);
        lemma_proof_grow(main, shift, chain, batch, num_vars as nat, m, b1.rows.len());
        lemma_linear_grow(claims@, m, b1.rows.len());
        lemma_computed_refl(b1);
    }
    let r = close_spine_family(
        b,
        ch,
        &main_red,
        &shift_red,
        chain,
        batch,
        claims,
        num_vars,
        tags,
    );
    proof {
        lemma_proof_family(main, shift, chain, batch, num_vars as nat, m);
        assert(opened.on(b1.rows) == opened);
        lemma_drew_trans(b0, ch0, b1, ch1, b@, *ch);
        lemma_family_verified(
            b0,
            b1,
            b1,
            b@,
            start,
            t@,
            live_slots as nat,
            f,
            num_vars as nat,
            linear_terms(claims@),
            linear_values(claims@),
            tags,
        );
    }
    r
}

} // verus!
