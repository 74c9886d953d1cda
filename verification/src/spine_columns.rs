//! Column evaluations of replayed permutations.
//!
//! A slot is one permutation. Its rows are the states before every round and
//! after the last, and the inputs and outputs of the S-boxes; the three columns
//! that they form over slots, rounds and lanes are evaluated at one point.

use vstd::prelude::*;
use vstd::arithmetic::power2::pow2;
use crate::circuit::{
    all_below, group_circuit, group_lin, lemma_prefix_trans, lins, mul_rows, prefix,
    FieldR1csBuilder, Lin, LinExpr, Row,
};
use crate::eval_gadgets::{
    eq_ind_partial_eval_trace, inner, inner_rows, lemma_below_at, lemma_below_grow,
    lemma_inner_past, lemma_tensor_past, tensor, tensor_rows,
};
use crate::field::F128;
use crate::gadget::{
    computed, holds_past, lemma_computed_refl, lemma_computed_trans, lemma_mul_past,
    lemma_past_split, times,
};
use crate::multilinear::evals_at;
use crate::permutation_network::row_eval;
use crate::poseidon::{
    lemma_lin_mds, lemma_lin_mds_below, lemma_sbox_past, lin_mds, mds_exprs, permuted, pow7_expr,
    rounds_of, sbox_rows, sboxes, state_lins, Permutation, PoseidonTables,
};

verus! {

broadcast use {group_circuit, lemma_computed_trans};

/// Coordinates of a lane.
pub const ELEM_BITS: usize = 2;

/// Coordinates of a round.
pub const ROUND_BITS: usize = 7;

/// Rounds that a point can tell apart.
pub const ROUND_LIMIT: usize = 128;

// ---------------------------------------------------------------------------
// Rows of a permutation
// ---------------------------------------------------------------------------

/// The inputs of a round's S-boxes, zero where there is none.
pub open spec fn sin_of(p: Permutation, round: int, s: Seq<F128>) -> Seq<F128> {
    if p.is_partial(round) {
        seq![s[0].plus(p.rc[round][0]), F128::zero(), F128::zero(), F128::zero()]
    } else {
        seq![
            s[0].plus(p.rc[round][0]),
            s[1].plus(p.rc[round][1]),
            s[2].plus(p.rc[round][2]),
            s[3].plus(p.rc[round][3]),
        ]
    }
}

/// The outputs of a round's S-boxes, zero where there is none.
pub open spec fn sout_of(p: Permutation, round: int, s: Seq<F128>) -> Seq<F128> {
    if p.is_partial(round) {
        seq![sboxes(p, round, s)[0], F128::zero(), F128::zero(), F128::zero()]
    } else {
        sboxes(p, round, s)
    }
}

/// The states before every round and after the last, over a slot.
pub open spec fn state_sum(
    p: Permutation,
    elem: Seq<F128>,
    rounds: Seq<F128>,
    raw: Seq<F128>,
    n: nat,
) -> F128
    decreases n,
{
    if n == 0 {
        F128::zero()
    } else {
        let k = (n - 1) as nat;
        state_sum(p, elem, rounds, raw, k).plus(
            rounds[k as int].times(inner(elem, rounds_of(p, raw, k), 4)),
        )
    }
}

/// The inputs of the S-boxes of every round, over a slot.
pub open spec fn sin_sum(
    p: Permutation,
    elem: Seq<F128>,
    rounds: Seq<F128>,
    raw: Seq<F128>,
    n: nat,
) -> F128
    decreases n,
{
    if n == 0 {
        F128::zero()
    } else {
        let k = (n - 1) as nat;
        sin_sum(p, elem, rounds, raw, k).plus(
            rounds[k as int].times(
                inner(elem, sin_of(p, k as int, rounds_of(p, raw, k)), 4),
            ),
        )
    }
}

/// The outputs of the S-boxes of every round, over a slot.
pub open spec fn sout_sum(
    p: Permutation,
    elem: Seq<F128>,
    rounds: Seq<F128>,
    raw: Seq<F128>,
    n: nat,
) -> F128
    decreases n,
{
    if n == 0 {
        F128::zero()
    } else {
        let k = (n - 1) as nat;
        sout_sum(p, elem, rounds, raw, k).plus(
            rounds[k as int].times(
                inner(elem, sout_of(p, k as int, rounds_of(p, raw, k)), 4),
            ),
        )
    }
}

// ---------------------------------------------------------------------------
// In the trace
// ---------------------------------------------------------------------------

/// A weighted row added to a sum.
pub open spec fn row_rows(c: Seq<Row>, sum: Lin, row: Seq<Lin>, weight: Lin, elem: Seq<Lin>) -> (
    Seq<Row>,
    Lin,
) {
    let (c1, i) = inner_rows(c, elem, row, 4);
    let (c2, m) = mul_rows(c1, weight, i);
    (c2, sum.plus(m))
}

proof fn lemma_row_past(
    c: Seq<Row>,
    sum: Lin,
    row: Seq<Lin>,
    weight: Lin,
    elem: Seq<Lin>,
    z: Seq<F128>,
)
    requires
        row.len() == 4,
        elem.len() == 4,
    ensures
        prefix(c, row_rows(c, sum, row, weight, elem).0),
        holds_past(row_rows(c, sum, row, weight, elem).0, c.len(), z) ==> row_rows(
            c,
            sum,
            row,
            weight,
            elem,
        ).1.eval(z) == sum.eval(z).plus(
            weight.eval(z).times(inner(evals_at(elem, z), row_eval(row, z), 4)),
        ),
{
    broadcast use {lemma_prefix_trans, group_lin};

    let (c1, i) = inner_rows(c, elem, row, 4);
    lemma_inner_past(c, elem, row, 4, z);
    let (c2, m) = mul_rows(c1, weight, i);
    lemma_mul_past(c1, weight, i, z);
    if holds_past(c2, c.len(), z) {
        lemma_past_split(c2, c1, c.len(), z);
        assert(row_eval(row, z) =~= evals_at(row, z));
    }
}

/// The inputs of a round's S-boxes in the trace.
pub open spec fn sin_lins(p: Permutation, round: int, s: Seq<Lin>) -> Seq<Lin> {
    if p.is_partial(round) {
        seq![s[0].plus_const(p.rc[round][0]), Lin::zero(), Lin::zero(), Lin::zero()]
    } else {
        seq![
            s[0].plus_const(p.rc[round][0]),
            s[1].plus_const(p.rc[round][1]),
            s[2].plus_const(p.rc[round][2]),
            s[3].plus_const(p.rc[round][3]),
        ]
    }
}

/// The outputs of a round's S-boxes in the trace.
pub open spec fn sout_lins(p: Permutation, round: int, t: Seq<Lin>) -> Seq<Lin> {
    if p.is_partial(round) {
        seq![t[0], Lin::zero(), Lin::zero(), Lin::zero()]
    } else {
        t
    }
}

/// A slot under replay.
pub struct SlotRun {
    pub rows: Seq<Row>,
    pub current: Seq<Lin>,
    pub state: Lin,
    pub sin: Lin,
    pub sout: Lin,
}

/// The first `n` rounds of a slot.
pub open spec fn slot_rounds(
    c: Seq<Row>,
    p: Permutation,
    elem: Seq<Lin>,
    rounds: Seq<Lin>,
    raw: Seq<Lin>,
    n: nat,
) -> SlotRun
    decreases n,
{
    if n == 0 {
        SlotRun {
            rows: c,
            current: lin_mds(p.full, raw),
            state: Lin::zero(),
            sin: Lin::zero(),
            sout: Lin::zero(),
        }
    } else {
        let round = n - 1;
        let s = slot_rounds(c, p, elem, rounds, raw, round as nat);
        let (c1, state) = row_rows(s.rows, s.state, s.current, rounds[round], elem);
        let (c2, t) = sbox_rows(c1, p, round, s.current);
        let (c3, sin) = row_rows(c2, s.sin, sin_lins(p, round, s.current), rounds[round], elem);
        let (c4, sout) = row_rows(c3, s.sout, sout_lins(p, round, t), rounds[round], elem);
        SlotRun {
            rows: c4,
            current: lin_mds(
                if p.is_partial(round) {
                    p.partial
                } else {
                    p.full
                },
                t,
            ),
            state,
            sin,
            sout,
        }
    }
}

proof fn lemma_slot_len(
    c: Seq<Row>,
    p: Permutation,
    elem: Seq<Lin>,
    rounds: Seq<Lin>,
    raw: Seq<Lin>,
    n: nat,
)
    ensures
        slot_rounds(c, p, elem, rounds, raw, n).current.len() == 4,
{
}

proof fn lemma_sin_lins(p: Permutation, round: int, s: Seq<Lin>, z: Seq<F128>)
    requires
        s.len() == 4,
    ensures
        sin_lins(p, round, s).len() == 4,
        row_eval(sin_lins(p, round, s), z) == sin_of(p, round, row_eval(s, z)),
{
    assert(row_eval(sin_lins(p, round, s), z) =~= sin_of(p, round, row_eval(s, z)));
}

/// A replayed slot evaluates to the rows of its permutation.
proof fn lemma_slot_past(
    c: Seq<Row>,
    p: Permutation,
    elem: Seq<Lin>,
    rounds: Seq<Lin>,
    raw: Seq<Lin>,
    n: nat,
    z: Seq<F128>,
)
    requires
        raw.len() == 4,
        elem.len() == 4,
        n <= rounds.len(),
    ensures
        prefix(c, slot_rounds(c, p, elem, rounds, raw, n).rows),
        holds_past(slot_rounds(c, p, elem, rounds, raw, n).rows, c.len(), z) ==> {
            let s = slot_rounds(c, p, elem, rounds, raw, n);
            let (e, r, w) = (evals_at(elem, z), evals_at(rounds, z), row_eval(raw, z));
            &&& row_eval(s.current, z) == rounds_of(p, w, n)
            &&& s.state.eval(z) == state_sum(p, e, r, w, n)
            &&& s.sin.eval(z) == sin_sum(p, e, r, w, n)
            &&& s.sout.eval(z) == sout_sum(p, e, r, w, n)
        },
    decreases n,
{
    broadcast use {lemma_prefix_trans, group_lin};

    if n == 0 {
        lemma_lin_mds(p.full, raw, z);
    } else {
        let round = n - 1;
        let s = slot_rounds(c, p, elem, rounds, raw, round as nat);
        lemma_slot_past(c, p, elem, rounds, raw, round as nat, z);
        lemma_slot_len(c, p, elem, rounds, raw, round as nat);
        let w = rounds[round];
        let (c1, state) = row_rows(s.rows, s.state, s.current, w, elem);
        lemma_row_past(s.rows, s.state, s.current, w, elem, z);
        let (c2, t) = sbox_rows(c1, p, round, s.current);
        lemma_sbox_past(c1, p, round, s.current, z);
        let sl = sin_lins(p, round, s.current);
        lemma_sin_lins(p, round, s.current, z);
        let (c3, sin) = row_rows(c2, s.sin, sl, w, elem);
        lemma_row_past(c2, s.sin, sl, w, elem, z);
        let ol = sout_lins(p, round, t);
        let (c4, sout) = row_rows(c3, s.sout, ol, w, elem);
        lemma_row_past(c3, s.sout, ol, w, elem, z);
        assert(prefix(c, c1) && prefix(c, c2) && prefix(c, c3));
        if holds_past(c4, c.len(), z) {
            lemma_past_split(c4, c3, c.len(), z);
            lemma_past_split(c3, c2, c.len(), z);
            lemma_past_split(c2, c1, c.len(), z);
            lemma_past_split(c1, s.rows, c.len(), z);
            let before = rounds_of(p, row_eval(raw, z), round as nat);
            assert(row_eval(ol, z) =~= sout_of(p, round, before));
            lemma_lin_mds(
                if p.is_partial(round) {
                    p.partial
                } else {
                    p.full
                },
                t,
                z,
            );
        }
    }
}

/// The sums over slots, in the trace.
pub struct ColumnSums {
    pub state: Lin,
    pub sin: Lin,
    pub sout: Lin,
}

/// One slot pushed: its rows, the sums and its output.
pub open spec fn push_rows(
    c: Seq<Row>,
    p: Permutation,
    elem: Seq<Lin>,
    rounds: Seq<Lin>,
    weight: Lin,
    sums: ColumnSums,
    raw: Seq<Lin>,
) -> (Seq<Row>, ColumnSums, Seq<Lin>) {
    let s = slot_rounds(c, p, elem, rounds, raw, p.rounds());
    let (c1, state) = row_rows(s.rows, s.state, s.current, rounds[p.rounds() as int], elem);
    let (c2, a) = mul_rows(c1, weight, state);
    let (c3, i) = mul_rows(c2, weight, s.sin);
    let (c4, o) = mul_rows(c3, weight, s.sout);
    (
        c4,
        ColumnSums { state: sums.state.plus(a), sin: sums.sin.plus(i), sout: sums.sout.plus(o) },
        s.current,
    )
}

/// A pushed slot adds the weighted rows of its permutation, and yields the
/// permuted state.
pub proof fn lemma_push_past(
    c: Seq<Row>,
    p: Permutation,
    elem: Seq<Lin>,
    rounds: Seq<Lin>,
    weight: Lin,
    sums: ColumnSums,
    raw: Seq<Lin>,
    z: Seq<F128>,
)
    requires
        raw.len() == 4,
        elem.len() == 4,
        p.rounds() < rounds.len(),
    ensures
        prefix(c, push_rows(c, p, elem, rounds, weight, sums, raw).0),
        push_rows(c, p, elem, rounds, weight, sums, raw).2.len() == 4,
        holds_past(push_rows(c, p, elem, rounds, weight, sums, raw).0, c.len(), z) ==> {
            let (rows, now, out) = push_rows(c, p, elem, rounds, weight, sums, raw);
            let (e, r, w) = (evals_at(elem, z), evals_at(rounds, z), row_eval(raw, z));
            let k = weight.eval(z);
            &&& row_eval(out, z) == permuted(p, w)
            &&& now.state.eval(z) == sums.state.eval(z).plus(
                k.times(state_sum(p, e, r, w, p.rounds() + 1)),
            )
            &&& now.sin.eval(z) == sums.sin.eval(z).plus(k.times(sin_sum(p, e, r, w, p.rounds())))
            &&& now.sout.eval(z) == sums.sout.eval(z).plus(
                k.times(sout_sum(p, e, r, w, p.rounds())),
            )
        },
{
    broadcast use {lemma_prefix_trans, group_lin};

    let n = p.rounds();
    let s = slot_rounds(c, p, elem, rounds, raw, n);
    lemma_slot_past(c, p, elem, rounds, raw, n, z);
    lemma_slot_len(c, p, elem, rounds, raw, n);
    let (c1, state) = row_rows(s.rows, s.state, s.current, rounds[n as int], elem);
    lemma_row_past(s.rows, s.state, s.current, rounds[n as int], elem, z);
    let (c2, a) = mul_rows(c1, weight, state);
    lemma_mul_past(c1, weight, state, z);
    let (c3, i) = mul_rows(c2, weight, s.sin);
    lemma_mul_past(c2, weight, s.sin, z);
    let (c4, o) = mul_rows(c3, weight, s.sout);
    lemma_mul_past(c3, weight, s.sout, z);
    assert(prefix(c, c1) && prefix(c, c2) && prefix(c, c3));
    if holds_past(c4, c.len(), z) {
        lemma_past_split(c4, c3, c.len(), z);
        lemma_past_split(c3, c2, c.len(), z);
        lemma_past_split(c2, c1, c.len(), z);
        lemma_past_split(c1, s.rows, c.len(), z);
    }
}

/// A range of expressions.
pub(crate) fn slice_exprs(v: &Vec<LinExpr>, from: usize, to: usize, Ghost(n): Ghost<nat>) -> (r: Vec<
    LinExpr,
>)
    requires
        from <= to <= v@.len(),
        all_below(lins(v@), n),
    ensures
        lins(r@) == lins(v@).subrange(from as int, to as int),
        r@.len() == to - from,
        all_below(lins(r@), n),
{
    let mut r: Vec<LinExpr> = Vec::new();
    let mut i: usize = from;
    while i < to
        invariant
            from <= i <= to <= v@.len(),
            r@.len() == i - from,
            forall|j: int| 0 <= j < r@.len() ==> (#[trigger] r@[j])@ == v@[from + j]@,
        decreases to - i,
    {
        r.push(v[i].dup());
        i += 1;
    }
    proof {
        let w = lins(v@).subrange(from as int, to as int);
        assert(lins(r@) =~= w);
        assert forall|j: int| 0 <= j < r@.len() implies (#[trigger] lins(r@)[j]).below(n) by {
            assert(lins(v@)[from + j].below(n));
        }
    }
    r
}

/// Three columns under evaluation at one point.
pub struct ColumnAccumulator {
    pub eq_elem: Vec<LinExpr>,
    pub eq_round: Vec<LinExpr>,
    pub eq_slot: Vec<LinExpr>,
    pub state_acc: LinExpr,
    pub sin_acc: LinExpr,
    pub sout_acc: LinExpr,
    pub next_slot: usize,
    pub n_slots: usize,
}

/// The tensors of a point: lanes, rounds, slots.
pub struct PointTensors {
    pub rows: Seq<Row>,
    pub elem: Seq<Lin>,
    pub rounds: Seq<Lin>,
    pub slots: Seq<Lin>,
}

pub open spec fn point_tensors(c: Seq<Row>, point: Seq<Lin>) -> PointTensors {
    let n = point.len() as int;
    let (c1, elem) = tensor_rows(c, point.subrange(0, 2), 2);
    let (c2, rounds) = tensor_rows(c1, point.subrange(2, 9), 7);
    let (c3, slots) = tensor_rows(c2, point.subrange(9, n), (n - 9) as nat);
    PointTensors { rows: c3, elem, rounds, slots }
}

/// The tensors of a point evaluate to those of its parts.
pub proof fn lemma_point_tensors(c: Seq<Row>, point: Seq<Lin>, z: Seq<F128>)
    requires
        point.len() >= 9,
    ensures
        prefix(c, point_tensors(c, point).rows),
        point_tensors(c, point).elem.len() == 4,
        point_tensors(c, point).rounds.len() == 128,
        point_tensors(c, point).slots.len() == pow2((point.len() - 9) as nat),
        holds_past(point_tensors(c, point).rows, c.len(), z) ==> {
            let t = point_tensors(c, point);
            let v = evals_at(point, z);
            &&& evals_at(t.elem, z) == tensor(v.subrange(0, 2), 2)
            &&& evals_at(t.rounds, z) == tensor(v.subrange(2, 9), 7)
            &&& evals_at(t.slots, z) == tensor(
                v.subrange(9, v.len() as int),
                (v.len() - 9) as nat,
            )
        },
{
    broadcast use lemma_prefix_trans;

    vstd::arithmetic::power2::lemma2_to64();
    let n = point.len() as int;
    let (p1, p2, p3) = (point.subrange(0, 2), point.subrange(2, 9), point.subrange(9, n));
    let (c1, elem) = tensor_rows(c, p1, 2);
    lemma_tensor_past(c, p1, 2, z);
    let (c2, rounds) = tensor_rows(c1, p2, 7);
    lemma_tensor_past(c1, p2, 7, z);
    let (c3, slots) = tensor_rows(c2, p3, (n - 9) as nat);
    lemma_tensor_past(c2, p3, (n - 9) as nat, z);
    if holds_past(c3, c.len(), z) {
        lemma_past_split(c3, c2, c.len(), z);
        lemma_past_split(c2, c1, c.len(), z);
        let v = evals_at(point, z);
        assert(evals_at(p1, z) =~= v.subrange(0, 2));
        assert(evals_at(p2, z) =~= v.subrange(2, 9));
        assert(evals_at(p3, z) =~= v.subrange(9, n));
    }
}

impl ColumnAccumulator {
    pub open spec fn sums(&self) -> ColumnSums {
        ColumnSums { state: self.state_acc@, sin: self.sin_acc@, sout: self.sout_acc@ }
    }

    /// The parts are in shape and refer to wires below `n`.
    pub open spec fn wf(&self, n: nat) -> bool {
        &&& self.eq_elem@.len() == 4
        &&& self.eq_round@.len() == 128
        &&& self.n_slots <= self.eq_slot@.len()
        &&& self.next_slot <= self.n_slots
        &&& all_below(lins(self.eq_elem@), n)
        &&& all_below(lins(self.eq_round@), n)
        &&& all_below(lins(self.eq_slot@), n)
        &&& self.state_acc@.below(n)
        &&& self.sin_acc@.below(n)
        &&& self.sout_acc@.below(n)
    }

    /// Everything but the sums and the count is that of another.
    pub open spec fn same_point(&self, other: &ColumnAccumulator) -> bool {
        &&& lins(self.eq_elem@) == lins(other.eq_elem@)
        &&& lins(self.eq_round@) == lins(other.eq_round@)
        &&& lins(self.eq_slot@) == lins(other.eq_slot@)
        &&& self.n_slots == other.n_slots
    }

    /// Columns of `n_slots` slots at a point: two lane coordinates, seven round
    /// coordinates, then slot coordinates.
    pub fn new(b: &mut FieldR1csBuilder, point: &Vec<LinExpr>, n_slots: usize) -> (r:
        ColumnAccumulator)
        requires
            old(b)@.wf(),
            point@.len() >= 9,
            0 < n_slots <= pow2((point@.len() - 9) as nat),
            pow2((point@.len() - 9) as nat) <= usize::MAX,
            all_below(lins(point@), old(b)@.rows.len()),
        ensures
            computed(old(b)@, final(b)@),
            r.wf(final(b)@.rows.len()),
            ({
                let t = point_tensors(old(b)@.rows, lins(point@));
                &&& final(b)@.rows == t.rows
                &&& lins(r.eq_elem@) == t.elem
                &&& lins(r.eq_round@) == t.rounds
                &&& lins(r.eq_slot@) == t.slots
            }),
            r.sums() == (ColumnSums { state: Lin::zero(), sin: Lin::zero(), sout: Lin::zero() }),
            r.next_slot == 0,
            r.n_slots == n_slots,
    {
        let ghost n0 = b@.rows.len();
        proof {
            vstd::arithmetic::power2::lemma2_to64();
        }
        let r_elem = slice_exprs(point, 0, 2, Ghost(n0));
        let r_round = slice_exprs(point, 2, 9, Ghost(n0));
        let r_slot = slice_exprs(point, 9, point.len(), Ghost(n0));
        let eq_elem = eq_ind_partial_eval_trace(b, &r_elem);
        let ghost n1 = b@.rows.len();
        proof {
            lemma_below_grow(lins(r_round@), n0, n1);
            lemma_below_grow(lins(r_slot@), n0, n1);
        }
        let eq_round = eq_ind_partial_eval_trace(b, &r_round);
        let ghost n2 = b@.rows.len();
        proof {
            lemma_below_grow(lins(r_slot@), n1, n2);
        }
        let eq_slot = eq_ind_partial_eval_trace(b, &r_slot);
        proof {
            lemma_below_grow(lins(eq_elem@), n1, b@.rows.len());
            lemma_below_grow(lins(eq_round@), n2, b@.rows.len());
        }
        ColumnAccumulator {
            eq_elem,
            eq_round,
            eq_slot,
            state_acc: LinExpr::zero(),
            sin_acc: LinExpr::zero(),
            sout_acc: LinExpr::zero(),
            next_slot: 0,
            n_slots,
        }
    }

    /// Replays a slot, adds its rows to the columns, and gives its output.
    #[verifier::rlimit(60)]
    pub fn push_slot(
        &mut self,
        b: &mut FieldR1csBuilder,
        t: &PoseidonTables,
        state_in: &[LinExpr; 4],
    ) -> (r: [LinExpr; 4])
        requires
            old(b)@.wf(),
            old(self).wf(old(b)@.rows.len()),
            old(self).next_slot < old(self).n_slots,
            t@.rounds() < 128,
            all_below(state_lins(*state_in), old(b)@.rows.len()),
        ensures
            computed(old(b)@, final(b)@),
            final(self).wf(final(b)@.rows.len()),
            final(self).same_point(old(self)),
            final(self).next_slot == old(self).next_slot + 1,
            (final(b)@.rows, final(self).sums(), state_lins(r)) == push_rows(
                old(b)@.rows,
                t@,
                lins(old(self).eq_elem@),
                lins(old(self).eq_round@),
                lins(old(self).eq_slot@)[old(self).next_slot as int],
                old(self).sums(),
                state_lins(*state_in),
            ),
            all_below(state_lins(r), final(b)@.rows.len()),
    {
        let ghost b0 = b@;
        let ghost p = t@;
        let ghost raw = state_lins(*state_in);
        let ghost (el, rl) = (lins(self.eq_elem@), lins(self.eq_round@));
        let ghost n0 = b0.rows.len();
        let slot: usize = self.next_slot;
        let mut current = mds_exprs(&t.mds_full, state_in);
        let mut state = LinExpr::zero();
        let mut sin = LinExpr::zero();
        let mut sout = LinExpr::zero();
        let mut round: usize = 0;
        proof {
            lemma_computed_refl(b0);
            lemma_lin_mds_below(p.full, raw, n0);
            lemma_below_at(self.eq_slot@, n0, slot as int);
        }
        while round < t.rc.len()
            invariant
                round <= t.rc@.len(),
                t@.rounds() == t.rc@.len(),
                t.rc@.len() < 128,
                p == t@,
                raw == state_lins(*state_in),
                n0 == b0.rows.len(),
                el == lins(self.eq_elem@),
                rl == lins(self.eq_round@),
                self.eq_elem@.len() == 4,
                self.eq_round@.len() == 128,
                all_below(el, n0),
                all_below(rl, n0),
                b@.wf(),
                computed(b0, b@),
                all_below(state_lins(current), b@.rows.len()),
                state@.below(b@.rows.len()),
                sin@.below(b@.rows.len()),
                sout@.below(b@.rows.len()),
                (SlotRun {
                    rows: b@.rows,
                    current: state_lins(current),
                    state: state@,
                    sin: sin@,
                    sout: sout@,
                }) == slot_rounds(b0.rows, p, el, rl, raw, round as nat),
            decreases t.rc@.len() - round,
        {
            let rc = &t.rc[round];
            let ghost cl = state_lins(current);
            let ghost m0 = b@.rows.len();
            proof {
                lemma_below_at(self.eq_round@, n0, round as int);
                assert(rc@ == p.rc[round as int]);
                assert(cl[0].below(m0) && cl[1].below(m0) && cl[2].below(m0) && cl[3].below(m0));
            }
            state = accumulate_row_trace(
                b,
                state,
                &current,
                &self.eq_round[round],
                &self.eq_elem,
                Ghost(n0),
            );
            let ghost m1 = b@.rows.len();
            let x0 = current[0].add_const(rc[0]);
            let s0 = pow7_expr(b, &x0);
            if t.is_partial(round) {
                let sin_row = [x0, LinExpr::zero(), LinExpr::zero(), LinExpr::zero()];
                let sout_row = [s0.dup(), LinExpr::zero(), LinExpr::zero(), LinExpr::zero()];
                let next = [s0, current[1].dup(), current[2].dup(), current[3].dup()];
                proof {
                    assert(state_lins(sin_row) =~= sin_lins(p, round as int, cl));
                }
                sin = accumulate_row_trace(
                    b,
                    sin,
                    &sin_row,
                    &self.eq_round[round],
                    &self.eq_elem,
                    Ghost(n0),
                );
                sout = accumulate_row_trace(
                    b,
                    sout,
                    &sout_row,
                    &self.eq_round[round],
                    &self.eq_elem,
                    Ghost(n0),
                );
                proof {
                    assert(state_lins(sout_row) =~= sout_lins(
                        p,
                        round as int,
                        state_lins(next),
                    ));
                    assert(state_lins(next) =~= seq![s0@, cl[1], cl[2], cl[3]]);
                    lemma_lin_mds_below(p.partial, state_lins(next), b@.rows.len());
                }
                current = mds_exprs(&t.mds_partial, &next);
            } else {
                let x1 = current[1].add_const(rc[1]);
                let x2 = current[2].add_const(rc[2]);
                let x3 = current[3].add_const(rc[3]);
                let s1 = pow7_expr(b, &x1);
                let s2 = pow7_expr(b, &x2);
                let s3 = pow7_expr(b, &x3);
                let sin_row = [x0, x1, x2, x3];
                let next = [s0, s1, s2, s3];
                proof {
                    assert(state_lins(sin_row) =~= sin_lins(p, round as int, cl));
                    assert(state_lins(next) =~= seq![s0@, s1@, s2@, s3@]);
                }
                sin = accumulate_row_trace(
                    b,
                    sin,
                    &sin_row,
                    &self.eq_round[round],
                    &self.eq_elem,
                    Ghost(n0),
                );
                sout = accumulate_row_trace(
                    b,
                    sout,
                    &next,
                    &self.eq_round[round],
                    &self.eq_elem,
                    Ghost(n0),
                );
                proof {
                    lemma_lin_mds_below(p.full, state_lins(next), b@.rows.len());
                }
                current = mds_exprs(&t.mds_full, &next);
            }
            round += 1;
        }
        proof {
            lemma_below_at(self.eq_round@, n0, round as int);
        }
        state = accumulate_row_trace(
            b,
            state,
            &current,
            &self.eq_round[round],
            &self.eq_elem,
            Ghost(n0),
        );
        let ghost m5 = b@.rows.len();
        let a = times(b, &self.eq_slot[slot], &state);
        let i = times(b, &self.eq_slot[slot], &sin);
        let o = times(b, &self.eq_slot[slot], &sout);
        self.state_acc = self.state_acc.add(&a);
        self.sin_acc = self.sin_acc.add(&i);
        self.sout_acc = self.sout_acc.add(&o);
        self.next_slot = slot + 1;
        proof {
            let n = b@.rows.len();
            lemma_below_grow(lins(self.eq_elem@), n0, n);
            lemma_below_grow(lins(self.eq_round@), n0, n);
            lemma_below_grow(lins(self.eq_slot@), n0, n);
            lemma_below_grow(state_lins(current), m5, n);
        }
        current
    }

    /// The three evaluations, once every slot has been pushed.
    pub fn finish(self) -> (r: (LinExpr, LinExpr, LinExpr))
        requires
            self.next_slot == self.n_slots,
        ensures
            r.0@ == self.sums().state,
            r.1@ == self.sums().sin,
            r.2@ == self.sums().sout,
    {
        (self.state_acc, self.sin_acc, self.sout_acc)
    }
}

/// Adds a weighted row to a sum.
fn accumulate_row_trace(
    b: &mut FieldR1csBuilder,
    sum: LinExpr,
    row: &[LinExpr; 4],
    weight: &LinExpr,
    elem: &Vec<LinExpr>,
    Ghost(n): Ghost<nat>,
) -> (r: LinExpr)
    requires
        old(b)@.wf(),
        n <= old(b)@.rows.len(),
        elem@.len() == 4,
        all_below(lins(elem@), n),
        weight@.below(n),
        sum@.below(old(b)@.rows.len()),
        all_below(state_lins(*row), old(b)@.rows.len()),
    ensures
        (final(b)@.rows, r@) == row_rows(
            old(b)@.rows,
            sum@,
            state_lins(*row),
            weight@,
            lins(elem@),
        ),
        computed(old(b)@, final(b)@),
        r@.below(final(b)@.rows.len()),
{
    let ghost b0 = b@;
    let ghost (el, rl) = (lins(elem@), state_lins(*row));
    let mut total = LinExpr::zero();
    let mut lane: usize = 0;
    proof {
        lemma_computed_refl(b0);
    }
    while lane < 4
        invariant
            lane <= 4,
            elem@.len() == 4,
            el == lins(elem@),
            rl == state_lins(*row),
            n <= b0.rows.len(),
            all_below(el, n),
            all_below(rl, b0.rows.len()),
            b@.wf(),
            computed(b0, b@),
            (b@.rows, total@) == inner_rows(b0.rows, el, rl, lane as nat),
            total@.below(b@.rows.len()),
        decreases 4 - lane,
    {
        proof {
            lemma_below_at(elem@, n, lane as int);
            assert(rl[lane as int].below(b0.rows.len()));
            assert(rl[lane as int] == row@[lane as int]@);
        }
        let p = times(b, &elem[lane], &row[lane]);
        total = total.add(&p);
        lane += 1;
    }
    let m = times(b, weight, &total);
    sum.add(&m)
}

} // verus!
