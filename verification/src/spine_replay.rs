//! Replays: the columns of a spine, evaluated from the inputs of its slots.

use vstd::prelude::*;
use vstd::arithmetic::power2::pow2;
use crate::batch_eval::BatchEvalReductionTrace;
use crate::block_spine::{tensors_of, Tensors};
use crate::circuit::{
    all_below, group_circuit, group_lin, lins, pin_rows, prefix, Circuit, FieldR1csBuilder, Lin,
    LinExpr, Row,
};
use crate::eval_gadgets::lemma_below_grow;
use crate::field::{group_field_units, lemma_plus_is_zero, F128};
use crate::gadget::{
    all_zero, binds, computed, enforces, holds_past, lemma_binds_grow, lemma_binds_none,
    lemma_binds_pin, lemma_computed_refl, lemma_computed_trans, lemma_enforces, lemma_past_split,
    lemma_pinned_computed, lemma_pinned_none, pin_after, pinned,
};
use crate::multilinear::evals_at;
use crate::permutation_network::row_eval;
use crate::poseidon::{permuted, state_lins, Permutation, PoseidonTables};
use crate::spine_claims::{
    absorbed, block_lins, blocks_at, blocks_below, lemma_blocks_grow, sponge_state,
};
use crate::spine_columns::{
    lemma_point_tensors, lemma_push_past, point_tensors, push_rows, sin_sum, sout_sum, state_sum,
    ColumnAccumulator, ColumnSums, PointTensors,
};

verus! {

broadcast use {group_circuit, lemma_computed_trans};

/// The three columns at a point.
pub struct Columns {
    pub state: F128,
    pub sin: F128,
    pub sout: F128,
}

/// The columns of the first `n` slots, each with its own weight.
pub open spec fn columns_of(p: Permutation, t: Tensors, raws: Seq<Seq<F128>>, n: nat) -> Columns
    decreases n,
{
    if n == 0 {
        Columns { state: F128::zero(), sin: F128::zero(), sout: F128::zero() }
    } else {
        let c = columns_of(p, t, raws, (n - 1) as nat);
        let (w, raw) = (t.slots[n - 1], raws[n - 1]);
        Columns {
            state: c.state.plus(
                w.times(state_sum(p, t.elem, t.rounds, raw, p.rounds() + 1)),
            ),
            sin: c.sin.plus(w.times(sin_sum(p, t.elem, t.rounds, raw, p.rounds()))),
            sout: c.sout.plus(w.times(sout_sum(p, t.elem, t.rounds, raw, p.rounds()))),
        }
    }
}

pub open spec fn raws_at(raws: Seq<Seq<Lin>>, z: Seq<F128>) -> Seq<Seq<F128>> {
    Seq::new(raws.len(), |i: int| row_eval(raws[i], z))
}

/// The columns of slots given by the states that they start from.
pub open spec fn columns_at(
    p: Permutation,
    point: Seq<Lin>,
    raws: Seq<Seq<Lin>>,
    z: Seq<F128>,
) -> Columns {
    columns_of(p, tensors_of(evals_at(point, z)), raws_at(raws, z), raws.len())
}

/// What an accumulator holds, under values that satisfy the rows since `n`.
pub open spec fn accumulates(
    acc: &ColumnAccumulator,
    p: Permutation,
    point: Seq<Lin>,
    raws: Seq<Seq<Lin>>,
    z: Seq<F128>,
) -> bool {
    let t = tensors_of(evals_at(point, z));
    let c = columns_at(p, point, raws, z);
    &&& evals_at(lins(acc.eq_elem@), z) == t.elem
    &&& evals_at(lins(acc.eq_round@), z) == t.rounds
    &&& evals_at(lins(acc.eq_slot@), z) == t.slots
    &&& acc.sums().state.eval(z) == c.state
    &&& acc.sums().sin.eval(z) == c.sin
    &&& acc.sums().sout.eval(z) == c.sout
}

/// An accumulator in the course of a replay that began at row `n`.
pub open spec fn replaying(
    acc: &ColumnAccumulator,
    p: Permutation,
    point: Seq<Lin>,
    raws: Seq<Seq<Lin>>,
    rows: Seq<Row>,
    n: nat,
) -> bool {
    &&& acc.wf(rows.len())
    &&& acc.next_slot == raws.len()
    &&& n <= rows.len()
    &&& forall|z: Seq<F128>| #[trigger] holds_past(rows, n, z) ==> accumulates(acc, p, point, raws, z)
}

/// A replay goes on over rows that follow.
pub proof fn lemma_replay_grow(
    acc: &ColumnAccumulator,
    p: Permutation,
    point: Seq<Lin>,
    raws: Seq<Seq<Lin>>,
    rows: Seq<Row>,
    more: Seq<Row>,
    n: nat,
)
    requires
        replaying(acc, p, point, raws, rows, n),
        prefix(rows, more),
    ensures
        replaying(acc, p, point, raws, more, n),
{
    crate::circuit::lemma_prefix_len(rows, more);
    lemma_below_grow(lins(acc.eq_elem@), rows.len(), more.len());
    lemma_below_grow(lins(acc.eq_round@), rows.len(), more.len());
    lemma_below_grow(lins(acc.eq_slot@), rows.len(), more.len());
    assert forall|z: Seq<F128>| #[trigger] holds_past(more, n, z) implies accumulates(
        acc,
        p,
        point,
        raws,
        z,
    ) by {
        lemma_past_split(more, rows, n, z);
    }
}

proof fn lemma_columns_stable(
    p: Permutation,
    t: Tensors,
    a: Seq<Seq<F128>>,
    b: Seq<Seq<F128>>,
    n: nat,
)
    requires
        n <= a.len(),
        n <= b.len(),
        forall|i: int| 0 <= i < n ==> (#[trigger] a[i]) == b[i],
    ensures
        columns_of(p, t, a, n) == columns_of(p, t, b, n),
    decreases n,
{
    if n > 0 {
        lemma_columns_stable(p, t, a, b, (n - 1) as nat);
        assert(a[n - 1] == b[n - 1]);
    }
}

/// An accumulator over given tensors.
pub open spec fn at_tensors(acc: &ColumnAccumulator, t: PointTensors) -> bool {
    &&& lins(acc.eq_elem@) == t.elem
    &&& lins(acc.eq_round@) == t.rounds
    &&& lins(acc.eq_slot@) == t.slots
}

pub open spec fn no_sums() -> ColumnSums {
    ColumnSums { state: Lin::zero(), sin: Lin::zero(), sout: Lin::zero() }
}

/// One slot replayed over given tensors: its rows, the sums and its output.
#[verifier::opaque]
pub open spec fn replay_rows(
    c: Seq<Row>,
    p: Permutation,
    t: PointTensors,
    slot: int,
    sums: ColumnSums,
    raw: Seq<Lin>,
) -> (Seq<Row>, ColumnSums, Seq<Lin>) {
    push_rows(c, p, t.elem, t.rounds, t.slots[slot], sums, raw)
}

/// The rows that end a replay.
pub open spec fn closing_rows(c: Seq<Row>, sums: ColumnSums, values: Seq<Lin>) -> Seq<Row> {
    pin_rows(
        pin_rows(pin_rows(c, sums.state.plus(values[0])), sums.sin.plus(values[1])),
        sums.sout.plus(values[2]),
    )
}

pub open spec fn reduction_values(reductions: [BatchEvalReductionTrace; 3]) -> Seq<Lin> {
    seq![reductions[0].value@, reductions[1].value@, reductions[2].value@]
}

/// A replay of `n_slots` slots at a point.
pub(crate) fn start_replay(
    b: &mut FieldR1csBuilder,
    point: &Vec<LinExpr>,
    n_slots: usize,
    Ghost(p): Ghost<Permutation>,
) -> (r: ColumnAccumulator)
    requires
        old(b)@.wf(),
        point@.len() >= 9,
        0 < n_slots <= pow2((point@.len() - 9) as nat),
        pow2((point@.len() - 9) as nat) <= usize::MAX,
        all_below(lins(point@), old(b)@.rows.len()),
    ensures
        computed(old(b)@, final(b)@),
        r.n_slots == n_slots,
        replaying(
            &r,
            p,
            lins(point@),
            Seq::empty(),
            final(b)@.rows,
            old(b)@.rows.len(),
        ),
        at_tensors(&r, point_tensors(old(b)@.rows, lins(point@))),
        final(b)@.rows == point_tensors(old(b)@.rows, lins(point@)).rows,
        r.sums() == no_sums(),
{
    broadcast use group_lin;

    let r = ColumnAccumulator::new(b, point, n_slots);
    proof {
        let n = old(b)@.rows.len();
        assert forall|z: Seq<F128>| #[trigger] holds_past(b@.rows, n, z) implies accumulates(
            &r,
            p,
            lins(point@),
            Seq::empty(),
            z,
        ) by {
            lemma_point_tensors(old(b)@.rows, lins(point@), z);
        }
    }
    r
}

/// Replays one slot.
#[verifier::rlimit(40)]
pub(crate) fn replay_slot(
    b: &mut FieldR1csBuilder,
    acc: &mut ColumnAccumulator,
    t: &PoseidonTables,
    state_in: &[LinExpr; 4],
    Ghost(point): Ghost<Seq<Lin>>,
    Ghost(raws): Ghost<Seq<Seq<Lin>>>,
    Ghost(n): Ghost<nat>,
) -> (r: [LinExpr; 4])
    requires
        old(b)@.wf(),
        t@.rounds() < 128,
        old(acc).next_slot < old(acc).n_slots,
        replaying(old(acc), t@, point, raws, old(b)@.rows, n),
        all_below(state_lins(*state_in), old(b)@.rows.len()),
    ensures
        computed(old(b)@, final(b)@),
        final(acc).n_slots == old(acc).n_slots,
        replaying(
            final(acc),
            t@,
            point,
            raws.push(state_lins(*state_in)),
            final(b)@.rows,
            n,
        ),
        forall|z: Seq<F128>| #[trigger]
            holds_past(final(b)@.rows, n, z) ==> row_eval(state_lins(r), z) == permuted(
                t@,
                row_eval(state_lins(*state_in), z),
            ),
        all_below(state_lins(r), final(b)@.rows.len()),
        final(acc).same_point(old(acc)),
        forall|ts: PointTensors| #[trigger]
            at_tensors(old(acc), ts) ==> at_tensors(final(acc), ts) && (
                final(b)@.rows,
                final(acc).sums(),
                state_lins(r),
            ) == replay_rows(
                old(b)@.rows,
                t@,
                ts,
                old(acc).next_slot as int,
                old(acc).sums(),
                state_lins(*state_in),
            ),
{
    proof {
        reveal(replay_rows);
    }
    let ghost c = b@.rows;
    let ghost before = *acc;
    let r = acc.push_slot(b, t, state_in);
    proof {
        let p = t@;
        let raw = state_lins(*state_in);
        let all = raws.push(raw);
        let rows = b@.rows;
        let (el, rl) = (lins(before.eq_elem@), lins(before.eq_round@));
        let w = lins(before.eq_slot@)[before.next_slot as int];
        assert(prefix(c, rows));
        assert forall|z: Seq<F128>| #[trigger] holds_past(rows, n, z) implies accumulates(
            acc,
            p,
            point,
            all,
            z,
        ) && row_eval(state_lins(r), z) == permuted(p, row_eval(raw, z)) by {
            lemma_past_split(rows, c, n, z);
            assert(accumulates(&before, p, point, raws, z));
            lemma_push_past(c, p, el, rl, w, before.sums(), raw, z);
            let tv = tensors_of(evals_at(point, z));
            let k = raws.len();
            assert(w.eval(z) == evals_at(lins(before.eq_slot@), z)[k as int]);
            assert(raws_at(all, z)[k as int] == row_eval(raw, z));
            assert forall|i: int| 0 <= i < k implies (#[trigger] raws_at(raws, z)[i]) == raws_at(
                all,
                z,
            )[i] by {
                assert(all[i] == raws[i]);
            }
            lemma_columns_stable(p, tv, raws_at(raws, z), raws_at(all, z), k);
        }
    }
    r
}

// ---------------------------------------------------------------------------
// Columns against reductions
// ---------------------------------------------------------------------------

/// The columns are given values.
pub open spec fn columns_equal(c: Columns, values: Seq<Lin>, z: Seq<F128>) -> bool {
    &&& c.state == values[0].eval(z)
    &&& c.sin == values[1].eval(z)
    &&& c.sout == values[2].eval(z)
}

/// The columns are the reductions' values.
pub open spec fn columns_match(c: Columns, reductions: [BatchEvalReductionTrace; 3], z: Seq<F128>) -> bool {
    columns_equal(c, reduction_values(reductions), z)
}

pub open spec fn closed_pins(
    pins: Seq<Lin>,
    acc: &ColumnAccumulator,
    reductions: [BatchEvalReductionTrace; 3],
) -> Seq<Lin> {
    pins.push(acc.sums().state.plus(reductions[0].value@)).push(
        acc.sums().sin.plus(reductions[1].value@),
    ).push(acc.sums().sout.plus(reductions[2].value@))
}

proof fn lemma_zero_push(pins: Seq<Lin>, e: Lin, z: Seq<F128>)
    ensures
        all_zero(pins.push(e), z) <==> all_zero(pins, z) && e.eval(z) == F128::zero(),
{
    let now = pins.push(e);
    if all_zero(now, z) {
        assert(now[pins.len() as int] == e);
        assert forall|i: int| 0 <= i < pins.len() implies (#[trigger] pins[i]).eval(z)
            == F128::zero() by {
            assert(now[i] == pins[i]);
        }
    }
    if all_zero(pins, z) && e.eval(z) == F128::zero() {
        assert forall|i: int| 0 <= i < now.len() implies (#[trigger] now[i]).eval(z)
            == F128::zero() by {
            if i < pins.len() {
                assert(now[i] == pins[i]);
            }
        }
    }
}

/// Two expressions are equal exactly where their sum is zero.
pub proof fn lemma_equal_push(pins: Seq<Lin>, x: Lin, y: Lin, z: Seq<F128>)
    ensures
        all_zero(pins.push(x.plus(y)), z) <==> all_zero(pins, z) && x.eval(z) == y.eval(z),
{
    broadcast use {group_lin, lemma_plus_is_zero};

    lemma_zero_push(pins, x.plus(y), z);
}

pub proof fn lemma_closed_pins(
    pins: Seq<Lin>,
    acc: &ColumnAccumulator,
    reductions: [BatchEvalReductionTrace; 3],
    p: Permutation,
    point: Seq<Lin>,
    raws: Seq<Seq<Lin>>,
    z: Seq<F128>,
)
    requires
        accumulates(acc, p, point, raws, z),
    ensures
        all_zero(closed_pins(pins, acc, reductions), z) <==> all_zero(pins, z) && columns_match(
            columns_at(p, point, raws, z),
            reductions,
            z,
        ),
{
    let s = acc.sums();
    let p1 = pins.push(s.state.plus(reductions[0].value@));
    let p2 = p1.push(s.sin.plus(reductions[1].value@));
    lemma_equal_push(pins, s.state, reductions[0].value@, z);
    lemma_equal_push(p1, s.sin, reductions[1].value@, z);
    lemma_equal_push(p2, s.sout, reductions[2].value@, z);
}

/// Binds two expressions to be equal.
pub(crate) fn pin_equal(
    b: &mut FieldR1csBuilder,
    x: &LinExpr,
    y: &LinExpr,
    Ghost(start): Ghost<Circuit>,
    Ghost(pins): Ghost<Seq<Lin>>,
)
    requires
        old(b)@.wf(),
        x@.below(old(b)@.rows.len()),
        y@.below(old(b)@.rows.len()),
        pinned(start, old(b)@, pins),
        binds(old(b)@.rows, pins),
    ensures
        final(b)@.rows == pin_rows(old(b)@.rows, x@.plus(y@)),
        final(b)@.grows(old(b)@),
        pinned(start, final(b)@, pins.push(x@.plus(y@))),
        binds(final(b)@.rows, pins.push(x@.plus(y@))),
{
    let e = x.add(y);
    proof {
        lemma_binds_pin(b@.rows, e@, pins);
    }
    pin_after(b, &e, Ghost(start), Ghost(pins));
}

/// Ends a replay: the three columns are the reductions' values.
pub(crate) fn close_replay(
    b: &mut FieldR1csBuilder,
    acc: &ColumnAccumulator,
    reductions: &[BatchEvalReductionTrace; 3],
    Ghost(start): Ghost<Circuit>,
    Ghost(pins): Ghost<Seq<Lin>>,
)
    requires
        old(b)@.wf(),
        acc.next_slot == acc.n_slots,
        acc.wf(old(b)@.rows.len()),
        forall|i: int| 0 <= i < 3 ==> (#[trigger] reductions[i]).value@.below(old(b)@.rows.len()),
        pinned(start, old(b)@, pins),
        binds(old(b)@.rows, pins),
    ensures
        final(b)@.rows == closing_rows(
            old(b)@.rows,
            acc.sums(),
            reduction_values(*reductions),
        ),
        final(b)@.grows(old(b)@),
        pinned(start, final(b)@, closed_pins(pins, acc, *reductions)),
        binds(final(b)@.rows, closed_pins(pins, acc, *reductions)),
{
    assert(reductions[0].value@.below(b@.rows.len()));
    assert(reductions[1].value@.below(b@.rows.len()));
    assert(reductions[2].value@.below(b@.rows.len()));
    let ghost p1 = pins.push(acc.sums().state.plus(reductions[0].value@));
    let ghost p2 = p1.push(acc.sums().sin.plus(reductions[1].value@));
    pin_equal(b, &acc.state_acc, &reductions[0].value, Ghost(start), Ghost(pins));
    pin_equal(b, &acc.sin_acc, &reductions[1].value, Ghost(start), Ghost(p1));
    pin_equal(b, &acc.sout_acc, &reductions[2].value, Ghost(start), Ghost(p2));
}

// ---------------------------------------------------------------------------
// Columns of given slots
// ---------------------------------------------------------------------------

pub open spec fn state_views(states: Seq<[LinExpr; 4]>) -> Seq<Seq<Lin>> {
    Seq::new(states.len(), |i: int| state_lins(states[i]))
}

/// The rows and sums of the first `n` slots over given tensors.
pub open spec fn slots_rows(
    c: Seq<Row>,
    p: Permutation,
    t: PointTensors,
    raws: Seq<Seq<Lin>>,
    n: nat,
) -> (Seq<Row>, ColumnSums)
    decreases n,
{
    if n == 0 {
        (c, no_sums())
    } else {
        let (c1, sums) = slots_rows(c, p, t, raws, (n - 1) as nat);
        let (c2, now, out) = replay_rows(c1, p, t, n - 1, sums, raws[n - 1]);
        (c2, now)
    }
}

/// The three columns of slots at a point: states, S-box inputs and outputs.
pub fn evaluate_block_spine_columns_trace(
    b: &mut FieldR1csBuilder,
    t: &PoseidonTables,
    slot_state_ins: &Vec<[LinExpr; 4]>,
    point: &Vec<LinExpr>,
) -> (r: (LinExpr, LinExpr, LinExpr))
    requires
        old(b)@.wf(),
        t@.rounds() < 128,
        point@.len() >= 9,
        0 < slot_state_ins@.len() <= pow2((point@.len() - 9) as nat),
        pow2((point@.len() - 9) as nat) <= usize::MAX,
        all_below(lins(point@), old(b)@.rows.len()),
        forall|i: int|
            0 <= i < slot_state_ins@.len() ==> all_below(
                state_lins(#[trigger] slot_state_ins@[i]),
                old(b)@.rows.len(),
            ),
    ensures
        computed(old(b)@, final(b)@),
        ({
            let t0 = point_tensors(old(b)@.rows, lins(point@));
            (final(b)@.rows, ColumnSums { state: r.0@, sin: r.1@, sout: r.2@ }) == slots_rows(
                t0.rows,
                t@,
                t0,
                state_views(slot_state_ins@),
                slot_state_ins@.len(),
            )
        }),
        forall|z: Seq<F128>| #[trigger]
            holds_past(final(b)@.rows, old(b)@.rows.len(), z) ==> {
                let c = columns_at(t@, lins(point@), state_views(slot_state_ins@), z);
                r.0@.eval(z) == c.state && r.1@.eval(z) == c.sin && r.2@.eval(z) == c.sout
            },
{
    let ghost n = b@.rows.len();
    let ghost b0 = b@;
    let ghost p = t@;
    let ghost pl = lins(point@);
    let ghost views = state_views(slot_state_ins@);
    let count: usize = slot_state_ins.len();
    let mut acc = start_replay(b, point, count, Ghost(p));
    let ghost ts = point_tensors(b0.rows, pl);
    let mut i: usize = 0;
    assert(views.take(0) =~= Seq::empty());
    while i < count
        invariant
            i <= count,
            count == slot_state_ins@.len(),
            n == b0.rows.len(),
            p == t@,
            p.rounds() < 128,
            views == state_views(slot_state_ins@),
            b@.wf(),
            computed(b0, b@),
            acc.n_slots == count,
            replaying(&acc, p, pl, views.take(i as int), b@.rows, n),
            at_tensors(&acc, ts),
            (b@.rows, acc.sums()) == slots_rows(ts.rows, p, ts, views, i as nat),
            forall|k: int|
                0 <= k < slot_state_ins@.len() ==> all_below(
                    state_lins(#[trigger] slot_state_ins@[k]),
                    n,
                ),
        decreases count - i,
    {
        proof {
            lemma_below_grow(state_lins(slot_state_ins@[i as int]), n, b@.rows.len());
        }
        let out = replay_slot(
            b,
            &mut acc,
            t,
            &slot_state_ins[i],
            Ghost(pl),
            Ghost(views.take(i as int)),
            Ghost(n),
        );
        assert(views.take(i as int).push(views[i as int]) =~= views.take(i + 1));
        i += 1;
    }
    assert(views.take(count as int) =~= views);
    proof {
        assert forall|z: Seq<F128>| #[trigger] holds_past(b@.rows, n, z) implies {
            let c = columns_at(p, pl, views, z);
            let s = acc.sums();
            s.state.eval(z) == c.state && s.sin.eval(z) == c.sin && s.sout.eval(z) == c.sout
        } by {
            assert(accumulates(&acc, p, pl, views, z));
        }
    }
    acc.finish()
}

// ---------------------------------------------------------------------------
// Sponge chains
// ---------------------------------------------------------------------------

/// A sponge chain: its blocks, its capacity and the first lanes that it ends on.
#[derive(Debug)]
pub struct SpongeChainTrace {
    pub blocks: Vec<[LinExpr; 2]>,
    pub iv: [F128; 2],
    pub expected: [LinExpr; 2],
}

impl SpongeChainTrace {
    pub open spec fn below(&self, n: nat) -> bool {
        blocks_below(self.blocks@, n) && all_below(lins(self.expected@), n)
    }

    /// The values of the blocks.
    pub open spec fn blocks_at(&self, z: Seq<F128>) -> Seq<Seq<F128>> {
        blocks_at(block_lins(self.blocks@), z)
    }

    /// The chain ends on what is expected.
    pub open spec fn digest_matches(&self, p: Permutation, z: Seq<F128>) -> bool {
        let s = sponge_state(p, self.iv@, self.blocks_at(z), self.blocks@.len());
        s[0] == self.expected[0]@.eval(z) && s[1] == self.expected[1]@.eval(z)
    }
}

/// What the slots of a chain start from, for its first `n` blocks.
pub open spec fn chain_inputs(p: Permutation, iv: Seq<F128>, blocks: Seq<Seq<F128>>, n: nat) -> Seq<
    Seq<F128>,
>
    decreases n,
{
    if n == 0 {
        Seq::empty()
    } else {
        chain_inputs(p, iv, blocks, (n - 1) as nat).push(
            absorbed(sponge_state(p, iv, blocks, (n - 1) as nat), blocks[n - 1]),
        )
    }
}

/// What the slots of the first `n` chains start from.
pub open spec fn chains_inputs(
    p: Permutation,
    chains: Seq<SpongeChainTrace>,
    n: nat,
    z: Seq<F128>,
) -> Seq<Seq<F128>>
    decreases n,
{
    if n == 0 {
        Seq::empty()
    } else {
        let c = chains[n - 1];
        chains_inputs(p, chains, (n - 1) as nat, z) + chain_inputs(
            p,
            c.iv@,
            c.blocks_at(z),
            c.blocks@.len(),
        )
    }
}

pub open spec fn chain_slots(chains: Seq<SpongeChainTrace>, n: nat) -> nat
    decreases n,
{
    if n == 0 {
        0
    } else {
        chain_slots(chains, (n - 1) as nat) + chains[n - 1].blocks@.len()
    }
}

/// Every chain's digest matches, and the columns of all their slots are the
/// reductions' values.
pub open spec fn chains_discharged(
    p: Permutation,
    chains: Seq<SpongeChainTrace>,
    reductions: [BatchEvalReductionTrace; 3],
    z: Seq<F128>,
) -> bool {
    &&& forall|i: int| 0 <= i < chains.len() ==> (#[trigger] chains[i]).digest_matches(p, z)
    &&& columns_match(
        columns_of(
            p,
            tensors_of(evals_at(lins(reductions[0].point@), z)),
            chains_inputs(p, chains, chains.len(), z),
            chain_slots(chains, chains.len()),
        ),
        reductions,
        z,
    )
}

/// A replay under way: its rows, the sums, and the state that the next slot
/// continues.
pub struct Replay {
    pub rows: Seq<Row>,
    pub sums: ColumnSums,
    pub state: Seq<Lin>,
}

/// The rows of a chain's first `n` slots.
pub open spec fn chain_rows(
    c: Seq<Row>,
    p: Permutation,
    t: PointTensors,
    slot: int,
    sums: ColumnSums,
    iv: Seq<F128>,
    blocks: Seq<Seq<Lin>>,
    n: nat,
) -> Replay
    decreases n,
{
    if n == 0 {
        Replay {
            rows: c,
            sums,
            state: seq![Lin::zero(), Lin::zero(), Lin::constant(iv[0]), Lin::constant(iv[1])],
        }
    } else {
        let r = chain_rows(c, p, t, slot, sums, iv, blocks, (n - 1) as nat);
        let block = blocks[n - 1];
        let raw = seq![
            r.state[0].plus(block[0]),
            r.state[1].plus(block[1]),
            r.state[2],
            r.state[3],
        ];
        let (rows, now, state) = replay_rows(r.rows, p, t, slot + n - 1, r.sums, raw);
        Replay { rows, sums: now, state }
    }
}

/// The rows of the first `n` chains, each with its digest bound.
pub open spec fn chains_rows(
    c: Seq<Row>,
    p: Permutation,
    t: PointTensors,
    chains: Seq<SpongeChainTrace>,
    n: nat,
) -> (Seq<Row>, ColumnSums)
    decreases n,
{
    if n == 0 {
        (c, no_sums())
    } else {
        let m = (n - 1) as nat;
        let (c1, sums) = chains_rows(c, p, t, chains, m);
        let chain = chains[n - 1];
        let r = chain_rows(
            c1,
            p,
            t,
            chain_slots(chains, m) as int,
            sums,
            chain.iv@,
            block_lins(chain.blocks@),
            chain.blocks@.len(),
        );
        let e = lins(chain.expected@);
        (pin_rows(pin_rows(r.rows, r.state[0].plus(e[0])), r.state[1].plus(e[1])), r.sums)
    }
}

/// The rows of a discharge: they depend on wires and capacities alone.
pub open spec fn chains_discharge_rows(
    c: Seq<Row>,
    p: Permutation,
    chains: Seq<SpongeChainTrace>,
    point: Seq<Lin>,
    values: Seq<Lin>,
) -> Seq<Row> {
    let t = point_tensors(c, point);
    let (rows, sums) = chains_rows(t.rows, p, t, chains, chains.len());
    closing_rows(rows, sums, values)
}

/// Replays the slots of a chain.
#[verifier::rlimit(60)]
pub(crate) fn replay_chain(
    b: &mut FieldR1csBuilder,
    acc: &mut ColumnAccumulator,
    t: &PoseidonTables,
    blocks: &Vec<[LinExpr; 2]>,
    iv: &[F128; 2],
    Ghost(point): Ghost<Seq<Lin>>,
    Ghost(raws): Ghost<Seq<Seq<Lin>>>,
    Ghost(n): Ghost<nat>,
) -> (r: ([LinExpr; 4], Ghost<Seq<Seq<Lin>>>))
    requires
        old(b)@.wf(),
        t@.rounds() < 128,
        old(acc).next_slot + blocks@.len() <= old(acc).n_slots,
        replaying(old(acc), t@, point, raws, old(b)@.rows, n),
        blocks_below(blocks@, old(b)@.rows.len()),
    ensures
        computed(old(b)@, final(b)@),
        final(acc).n_slots == old(acc).n_slots,
        replaying(final(acc), t@, point, r.1@, final(b)@.rows, n),
        r.1@.len() == raws.len() + blocks@.len(),
        all_below(state_lins(r.0), final(b)@.rows.len()),
        forall|ts: PointTensors| #[trigger]
            at_tensors(old(acc), ts) ==> at_tensors(final(acc), ts) && (Replay {
                rows: final(b)@.rows,
                sums: final(acc).sums(),
                state: state_lins(r.0),
            }) == chain_rows(
                old(b)@.rows,
                t@,
                ts,
                old(acc).next_slot as int,
                old(acc).sums(),
                iv@,
                block_lins(blocks@),
                blocks@.len(),
            ),
        forall|z: Seq<F128>| #[trigger]
            holds_past(final(b)@.rows, n, z) ==> {
                let v = blocks_at(block_lins(blocks@), z);
                &&& raws_at(r.1@, z) == raws_at(raws, z) + chain_inputs(
                    t@,
                    iv@,
                    v,
                    blocks@.len(),
                )
                &&& row_eval(state_lins(r.0), z) == sponge_state(t@, iv@, v, blocks@.len())
            },
{
    broadcast use {group_lin, group_field_units};

    let ghost p = t@;
    let ghost b0 = b@;
    let ghost m = b0.rows.len();
    let ghost bl = block_lins(blocks@);
    let count: usize = blocks.len();
    let slots: usize = acc.n_slots;
    let ghost base: nat = acc.next_slot as nat;
    let mut state = [
        LinExpr::zero(),
        LinExpr::zero(),
        LinExpr::constant(iv[0]),
        LinExpr::constant(iv[1]),
    ];
    let ghost mut now = raws;
    let ghost acc0 = *acc;
    let mut j: usize = 0;
    proof {
        lemma_computed_refl(b0);
        assert(state_lins(state) =~= seq![
            Lin::zero(),
            Lin::zero(),
            Lin::constant(iv[0]),
            Lin::constant(iv[1]),
        ]);
        assert forall|z: Seq<F128>| #[trigger] holds_past(b@.rows, n, z) implies {
            let v = blocks_at(bl, z);
            &&& raws_at(now, z) == raws_at(raws, z) + chain_inputs(p, iv@, v, 0)
            &&& row_eval(state_lins(state), z) == sponge_state(p, iv@, v, 0)
        } by {
            let v = blocks_at(bl, z);
            assert(raws_at(now, z) =~= raws_at(raws, z) + chain_inputs(p, iv@, v, 0));
            assert(row_eval(state_lins(state), z) =~= sponge_state(p, iv@, v, 0));
        }
    }
    while j < count
        invariant
            j <= count,
            count == blocks@.len(),
            p == t@,
            p.rounds() < 128,
            bl == block_lins(blocks@),
            m == b0.rows.len(),
            blocks_below(blocks@, m),
            b@.wf(),
            computed(b0, b@),
            acc.n_slots == slots,
            base + count <= slots,
            base == raws.len(),
            now.len() == base + j,
            replaying(acc, p, point, now, b@.rows, n),
            all_below(state_lins(state), b@.rows.len()),
            base == acc0.next_slot,
            acc.next_slot == base + j,
            forall|ts: PointTensors| #[trigger]
                at_tensors(&acc0, ts) ==> at_tensors(acc, ts) && (Replay {
                    rows: b@.rows,
                    sums: acc.sums(),
                    state: state_lins(state),
                }) == chain_rows(
                    b0.rows,
                    p,
                    ts,
                    base as int,
                    acc0.sums(),
                    iv@,
                    bl,
                    j as nat,
                ),
            forall|z: Seq<F128>| #[trigger]
                holds_past(b@.rows, n, z) ==> {
                    let v = blocks_at(bl, z);
                    &&& raws_at(now, z) == raws_at(raws, z) + chain_inputs(p, iv@, v, j as nat)
                    &&& row_eval(state_lins(state), z) == sponge_state(p, iv@, v, j as nat)
                },
        decreases count - j,
    {
        let block = &blocks[j];
        let ghost before = state_lins(state);
        let ghost k = b@.rows.len();
        let ghost c = b@.rows;
        proof {
            assert(all_below(lins(blocks@[j as int]@), m));
            assert(lins(block@)[0].below(m) && lins(block@)[1].below(m));
            assert(before[0].below(k) && before[1].below(k) && before[2].below(k)
                && before[3].below(k));
        }
        let input = [
            state[0].add(&block[0]),
            state[1].add(&block[1]),
            state[2].dup(),
            state[3].dup(),
        ];
        let ghost raw = state_lins(input);
        let ghost prior = now;
        let ghost acc1 = *acc;
        state = replay_slot(b, acc, t, &input, Ghost(point), Ghost(now), Ghost(n));
        proof {
            assert(bl[j as int] == lins(block@));
            assert(raw =~= seq![
                before[0].plus(bl[j as int][0]),
                before[1].plus(bl[j as int][1]),
                before[2],
                before[3],
            ]);
            assert forall|ts: PointTensors| #[trigger] at_tensors(&acc0, ts) implies at_tensors(
                acc,
                ts,
            ) && (Replay {
                rows: b@.rows,
                sums: acc.sums(),
                state: state_lins(state),
            }) == chain_rows(
                b0.rows,
                p,
                ts,
                base as int,
                acc0.sums(),
                iv@,
                bl,
                (j + 1) as nat,
            ) by {
                assert(at_tensors(&acc1, ts));
            }
            now = now.push(raw);
            let rows = b@.rows;
            assert forall|z: Seq<F128>| #[trigger] holds_past(rows, n, z) implies {
                let v = blocks_at(bl, z);
                &&& raws_at(now, z) == raws_at(raws, z) + chain_inputs(p, iv@, v, (j + 1) as nat)
                &&& row_eval(state_lins(state), z) == sponge_state(p, iv@, v, (j + 1) as nat)
            } by {
                lemma_past_split(rows, c, n, z);
                let v = blocks_at(bl, z);
                let s = sponge_state(p, iv@, v, j as nat);
                assert(row_eval(before, z) == s);
                assert(v[j as int] =~= evals_at(lins(block@), z));
                assert(s[0] == before[0].eval(z) && s[1] == before[1].eval(z) && s[2]
                    == before[2].eval(z) && s[3] == before[3].eval(z));
                assert(row_eval(raw, z) =~= absorbed(s, v[j as int]));
                assert(raws_at(now, z) =~= raws_at(prior, z).push(row_eval(raw, z)));
                assert(raws_at(now, z) =~= raws_at(raws, z) + chain_inputs(
                    p,
                    iv@,
                    v,
                    (j + 1) as nat,
                ));
            }
        }
        j += 1;
    }
    (state, Ghost(now))
}

proof fn lemma_slots_grow(chains: Seq<SpongeChainTrace>, m: nat, n: nat)
    requires
        m <= n,
    ensures
        chain_slots(chains, m) <= chain_slots(chains, n),
    decreases n,
{
    if m < n {
        lemma_slots_grow(chains, m, (n - 1) as nat);
    }
}

fn count_slots(chains: &Vec<SpongeChainTrace>) -> (r: usize)
    requires
        chain_slots(chains@, chains@.len()) <= usize::MAX,
    ensures
        r == chain_slots(chains@, chains@.len()),
{
    let mut r: usize = 0;
    let mut i: usize = 0;
    while i < chains.len()
        invariant
            i <= chains@.len(),
            r == chain_slots(chains@, i as nat),
            chain_slots(chains@, chains@.len()) <= usize::MAX,
        decreases chains@.len() - i,
    {
        proof {
            lemma_slots_grow(chains@, (i + 1) as nat, chains@.len());
        }
        r = r + chains[i].blocks.len();
        i += 1;
    }
    r
}

/// Replays every chain and binds its digest, then binds the columns of all the
/// slots to the reductions.
#[verifier::rlimit(60)]
pub fn discharge_sponge_chains_trace(
    b: &mut FieldR1csBuilder,
    t: &PoseidonTables,
    chains: &Vec<SpongeChainTrace>,
    reductions: &[BatchEvalReductionTrace; 3],
)
    requires
        old(b)@.wf(),
        t@.rounds() < 128,
        reductions[0].point@.len() >= 9,
        0 < chain_slots(chains@, chains@.len()) <= pow2((reductions[0].point@.len() - 9) as nat),
        pow2((reductions[0].point@.len() - 9) as nat) <= usize::MAX,
        all_below(lins(reductions[0].point@), old(b)@.rows.len()),
        forall|i: int| 0 <= i < 3 ==> (#[trigger] reductions[i]).value@.below(old(b)@.rows.len()),
        forall|i: int|
            0 <= i < chains@.len() ==> (#[trigger] chains@[i]).below(old(b)@.rows.len()),
    ensures
        enforces(
            old(b)@,
            final(b)@,
            |z: Seq<F128>| chains_discharged(t@, chains@, *reductions, z),
        ),
        final(b)@.rows == chains_discharge_rows(
            old(b)@.rows,
            t@,
            chains@,
            lins(reductions[0].point@),
            reduction_values(*reductions),
        ),
{
    let ghost p = t@;
    let ghost b0 = b@;
    let ghost n = b0.rows.len();
    let ghost pl = lins(reductions[0].point@);
    let ghost cs = chains@;
    let live_slots: usize = count_slots(chains);
    let mut acc = start_replay(b, &reductions[0].point, live_slots, Ghost(p));
    let ghost ts = point_tensors(b0.rows, pl);
    let ghost mut raws: Seq<Seq<Lin>> = Seq::empty();
    let ghost mut pins: Seq<Lin> = Seq::empty();
    let mut i: usize = 0;
    proof {
        lemma_pinned_none(b0, b@);
        lemma_binds_none(b@.rows);
        assert forall|z: Seq<F128>| #[trigger] holds_past(b@.rows, n, z) implies raws_at(raws, z)
            == chains_inputs(p, cs, 0, z) by {
            assert(raws_at(raws, z) =~= chains_inputs(p, cs, 0, z));
        }
    }
    while i < chains.len()
        invariant
            i <= chains@.len(),
            cs == chains@,
            p == t@,
            p.rounds() < 128,
            n == b0.rows.len(),
            live_slots == chain_slots(cs, cs.len()),
            forall|k: int| 0 <= k < cs.len() ==> (#[trigger] cs[k]).below(n),
            b@.wf(),
            b@.grows(b0),
            acc.n_slots == live_slots,
            replaying(&acc, p, pl, raws, b@.rows, n),
            at_tensors(&acc, ts),
            (b@.rows, acc.sums()) == chains_rows(ts.rows, p, ts, cs, i as nat),
            raws.len() == chain_slots(cs, i as nat),
            pinned(b0, b@, pins),
            binds(b@.rows, pins),
            forall|z: Seq<F128>| #[trigger]
                holds_past(b@.rows, n, z) ==> raws_at(raws, z) == chains_inputs(
                    p,
                    cs,
                    i as nat,
                    z,
                ),
            forall|z: Seq<F128>| #[trigger]
                holds_past(b@.rows, n, z) ==> (all_zero(pins, z) <==> forall|k: int|
                    0 <= k < i ==> (#[trigger] cs[k]).digest_matches(p, z)),
        decreases chains@.len() - i,
    {
        let chain = &chains[i];
        let ghost b1 = b@;
        let ghost before = raws;
        proof {
            assert(cs[i as int].below(n));
            lemma_slots_grow(cs, (i + 1) as nat, cs.len());
            lemma_blocks_grow(chain.blocks@, n, b1.rows.len());
        }
        let (state, now) = replay_chain(
            b,
            &mut acc,
            t,
            &chain.blocks,
            &chain.iv,
            Ghost(pl),
            Ghost(raws),
            Ghost(n),
        );
        let ghost b2 = b@;
        let ghost sl = state_lins(state);
        let ghost el = lins(chain.expected@);
        let ghost p1 = pins.push(sl[0].plus(el[0]));
        let ghost p2 = p1.push(sl[1].plus(el[1]));
        proof {
            lemma_pinned_computed(b0, b1, b2, pins);
            lemma_binds_grow(b1.rows, b2.rows, pins);
            assert(sl[0].below(b2.rows.len()) && sl[1].below(b2.rows.len()));
            assert(el[0].below(n) && el[1].below(n));
        }
        pin_equal(b, &state[0], &chain.expected[0], Ghost(b0), Ghost(pins));
        pin_equal(b, &state[1], &chain.expected[1], Ghost(b0), Ghost(p1));
        proof {
            lemma_replay_grow(&acc, p, pl, now@, b2.rows, b@.rows, n);
            let rows = b@.rows;
            assert forall|z: Seq<F128>| #[trigger] holds_past(rows, n, z) implies raws_at(now@, z)
                == chains_inputs(p, cs, (i + 1) as nat, z) && (all_zero(p2, z) <==> forall|k: int|
                0 <= k < i + 1 ==> (#[trigger] cs[k]).digest_matches(p, z)) by {
                lemma_past_split(rows, b2.rows, n, z);
                lemma_past_split(b2.rows, b1.rows, n, z);
                lemma_equal_push(pins, sl[0], el[0], z);
                lemma_equal_push(p1, sl[1], el[1], z);
                let c = cs[i as int];
                let s = sponge_state(p, c.iv@, c.blocks_at(z), c.blocks@.len());
                assert(row_eval(sl, z) == s);
                assert(s[0] == sl[0].eval(z) && s[1] == sl[1].eval(z));
                assert((forall|k: int| 0 <= k < i + 1 ==> (#[trigger] cs[k]).digest_matches(p, z))
                    <==> (forall|k: int| 0 <= k < i ==> (#[trigger] cs[k]).digest_matches(p, z))
                    && c.digest_matches(p, z));
            }
            raws = now@;
            pins = p2;
        }
        i += 1;
    }
    let ghost b3 = b@;
    close_replay(b, &acc, reductions, Ghost(b0), Ghost(pins));
    proof {
        let all = closed_pins(pins, &acc, *reductions);
        let f = |z: Seq<F128>| chains_discharged(p, cs, *reductions, z);
        assert forall|z: Seq<F128>| #[trigger] holds_past(b@.rows, n, z) implies (all_zero(all, z)
            <==> f(z)) by {
            lemma_past_split(b@.rows, b3.rows, n, z);
            assert(accumulates(&acc, p, pl, raws, z));
            lemma_closed_pins(pins, &acc, *reductions, p, pl, raws, z);
        }
        lemma_enforces(b0, b@, all, f);
    }
}

} // verus!
