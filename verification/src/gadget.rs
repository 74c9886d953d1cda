//! Rows that compute: what holds of a circuit past a given row.

use vstd::prelude::*;
use crate::circuit::{
    alloc_block, free_row, group_circuit, group_lin, lemma_eval_is_const, lemma_prefix_index,
    lemma_prefix_push, mul_rows, pin_row, pin_rows, prefix, sat, Circuit, FieldR1csBuilder, Lin,
    LinExpr, Row,
};
use crate::field::F128;

verus! {

broadcast use group_circuit;

/// A row that binds an expression to zero.
pub open spec fn is_pin(r: Row, index: int) -> bool {
    exists|e: Lin| r == #[trigger] pin_row(index as usize, e)
}

/// The rows from the `n`-th on, other than pins, hold under `z`.
#[verifier::opaque]
pub open spec fn holds_past(rows: Seq<Row>, n: nat, z: Seq<F128>) -> bool {
    &&& rows.len() <= usize::MAX
    &&& rows.len() <= z.len()
    &&& forall|i: int|
        n <= i < rows.len() ==> (#[trigger] rows[i]).holds(i, z) || is_pin(rows[i], i)
}

/// A circuit extended by rows that its values satisfy, but for pins.
pub open spec fn extended(before: Circuit, after: Circuit) -> bool {
    after.grows(before) && holds_past(after.rows, before.rows.len(), after.values)
}

/// A circuit extended by rows that its values satisfy.
pub open spec fn computed(before: Circuit, after: Circuit) -> bool {
    extended(before, after) && (after.honest() <==> before.honest())
}

/// Every expression is zero.
pub open spec fn all_zero(pins: Seq<Lin>, z: Seq<F128>) -> bool {
    forall|i: int| 0 <= i < pins.len() ==> (#[trigger] pins[i]).eval(z) == F128::zero()
}

/// A circuit extended by rows that its values satisfy exactly where the pinned
/// expressions are zero.
pub open spec fn pinned(before: Circuit, after: Circuit, pins: Seq<Lin>) -> bool {
    &&& extended(before, after)
    &&& crate::circuit::all_below(pins, after.rows.len())
    &&& after.honest() <==> before.honest() && all_zero(pins, after.values)
}

/// Rows that hold split where a prefix ends.
pub proof fn lemma_past_split(rows: Seq<Row>, mid: Seq<Row>, n: nat, z: Seq<F128>)
    requires
        prefix(mid, rows),
        n <= mid.len(),
        holds_past(rows, n, z),
    ensures
        holds_past(mid, n, z),
        holds_past(rows, mid.len(), z),
{
    reveal(holds_past);
    lemma_prefix_index(mid, rows);
    assert forall|i: int| n <= i < mid.len() implies (#[trigger] mid[i]).holds(i, z) || is_pin(
        mid[i],
        i,
    ) by {
        assert(mid[i] == rows[i]);
    }
}

/// A circuit that is satisfied is satisfied past any row.
pub proof fn lemma_sat_past(rows: Seq<Row>, n: nat, z: Seq<F128>)
    requires
        sat(rows, z),
    ensures
        holds_past(rows, n, z),
{
    reveal(sat);
    reveal(holds_past);
}

/// A pin of a satisfied circuit is zero.
pub proof fn lemma_sat_pin(rows: Seq<Row>, c: Seq<Row>, e: Lin, z: Seq<F128>)
    requires
        prefix(pin_rows(c, e), rows),
        sat(rows, z),
    ensures
        e.eval(z) == F128::zero(),
{
    crate::circuit::lemma_sat_prefix(pin_rows(c, e), rows, z);
    crate::circuit::lemma_pin_sound(c, e, z);
}

pub broadcast proof fn lemma_extended_trans(a: Circuit, b: Circuit, c: Circuit)
    requires
        #[trigger] extended(a, b),
        #[trigger] extended(b, c),
    ensures
        extended(a, c),
{
    reveal(holds_past);
    lemma_prefix_index(b.rows, c.rows);
    lemma_prefix_index(b.values, c.values);
    assert forall|i: int| a.rows.len() <= i < c.rows.len() implies (#[trigger] c.rows[i]).holds(
        i,
        c.values,
    ) || is_pin(c.rows[i], i) by {
        if i < b.rows.len() {
            assert(b.rows[i].holds(i, b.values) || is_pin(b.rows[i], i));
            reveal(crate::circuit::rows_wf);
            assert(b.rows[i].below((i + 1) as nat));
            assert(b.rows[i].a.eval(c.values) == b.rows[i].a.eval(b.values));
            assert(b.rows[i].b.eval(c.values) == b.rows[i].b.eval(b.values));
        }
    }
}

pub broadcast proof fn lemma_computed_trans(a: Circuit, b: Circuit, c: Circuit)
    requires
        #[trigger] computed(a, b),
        #[trigger] computed(b, c),
    ensures
        computed(a, c),
{
    lemma_extended_trans(a, b, c);
}

pub proof fn lemma_computed_refl(a: Circuit)
    requires
        a.wf(),
    ensures
        computed(a, a),
{
    reveal(holds_past);
}

/// Pinned expressions keep their values while a circuit grows.
pub proof fn lemma_zero_stable(before: Circuit, after: Circuit, pins: Seq<Lin>)
    requires
        after.grows(before),
        crate::circuit::all_below(pins, before.rows.len()),
    ensures
        crate::circuit::all_below(pins, after.rows.len()),
        all_zero(pins, after.values) <==> all_zero(pins, before.values),
{
    assert forall|i: int| 0 <= i < pins.len() implies (#[trigger] pins[i]).below(
        after.rows.len(),
    ) && pins[i].eval(after.values) == pins[i].eval(before.values) by {
        assert(pins[i].below(before.rows.len()));
    }
}

/// Rows that compute keep what is pinned.
pub proof fn lemma_pinned_computed(a: Circuit, b: Circuit, c: Circuit, pins: Seq<Lin>)
    requires
        pinned(a, b, pins),
        computed(b, c),
    ensures
        pinned(a, c, pins),
{
    lemma_extended_trans(a, b, c);
    lemma_zero_stable(b, c, pins);
}

/// What is pinned first and what is pinned then are pinned together.
pub proof fn lemma_pinned_trans(
    a: Circuit,
    b: Circuit,
    c: Circuit,
    first: Seq<Lin>,
    second: Seq<Lin>,
)
    requires
        pinned(a, b, first),
        pinned(b, c, second),
    ensures
        pinned(a, c, first + second),
{
    lemma_extended_trans(a, b, c);
    lemma_zero_stable(b, c, first);
    let all = first + second;
    assert forall|i: int| 0 <= i < all.len() implies (#[trigger] all[i]).below(
        c.rows.len(),
    ) by {
        if i < first.len() {
            assert(all[i] == first[i]);
            assert(first[i].below(c.rows.len()));
        } else {
            assert(all[i] == second[i - first.len()]);
            assert(second[i - first.len()].below(c.rows.len()));
        }
    }
    if all_zero(all, c.values) {
        assert forall|i: int| 0 <= i < first.len() implies (#[trigger] first[i]).eval(c.values)
            == F128::zero() by {
            assert(all[i] == first[i]);
        }
        assert forall|i: int| 0 <= i < second.len() implies (#[trigger] second[i]).eval(c.values)
            == F128::zero() by {
            assert(all[first.len() + i] == second[i]);
        }
    }
    if all_zero(first, c.values) && all_zero(second, c.values) {
        assert forall|i: int| 0 <= i < all.len() implies (#[trigger] all[i]).eval(c.values)
            == F128::zero() by {
            if i < first.len() {
                assert(all[i] == first[i]);
            } else {
                assert(all[i] == second[i - first.len()]);
            }
        }
    }
}

/// Nothing pinned yet.
pub proof fn lemma_pinned_none(a: Circuit, b: Circuit)
    requires
        computed(a, b),
    ensures
        pinned(a, b, Seq::empty()),
{
}

// ---------------------------------------------------------------------------
// Products, pins and fresh wires
// ---------------------------------------------------------------------------

/// A product computes.
pub proof fn lemma_mul_past(c: Seq<Row>, x: Lin, y: Lin, z: Seq<F128>)
    ensures
        prefix(c, mul_rows(c, x, y).0),
        holds_past(mul_rows(c, x, y).0, c.len(), z) ==> mul_rows(c, x, y).1.eval(z) == x.eval(
            z,
        ).times(y.eval(z)),
{
    broadcast use {group_lin, lemma_prefix_push};

    reveal(holds_past);
    if x.is_const() {
        lemma_eval_is_const(x, z);
        crate::field::lemma_times_comm(x.constant, y.eval(z));
    } else if y.is_const() {
        lemma_eval_is_const(y, z);
    } else if holds_past(mul_rows(c, x, y).0, c.len(), z) {
        let rows = mul_rows(c, x, y).0;
        assert(rows[c.len() as int].holds(c.len() as int, z));
    }
}

/// A pin takes no row away.
pub proof fn lemma_pin_prefix(c: Seq<Row>, e: Lin)
    ensures
        prefix(c, pin_rows(c, e)),
{
    lemma_prefix_push(c, pin_row(c.len() as usize, e));
}

/// The product of two expressions.
pub fn times(b: &mut FieldR1csBuilder, x: &LinExpr, y: &LinExpr) -> (r: LinExpr)
    requires
        old(b)@.wf(),
        x@.below(old(b)@.rows.len()),
        y@.below(old(b)@.rows.len()),
    ensures
        (final(b)@.rows, r@) == mul_rows(old(b)@.rows, x@, y@),
        computed(old(b)@, final(b)@),
        r@.below(final(b)@.rows.len()),
{
    let r = crate::circuit::mul(b, x, y);
    proof {
        reveal(holds_past);
        let n = old(b)@.rows.len();
        if b@.rows.len() > n {
            let z = b@.values;
            assert(x@.eval(z) == x@.eval(old(b)@.values));
            assert(y@.eval(z) == y@.eval(old(b)@.values));
            assert(b@.rows[n as int].holds(n as int, z));
        }
    }
    r
}

/// A fresh wire that no row binds.
pub fn free_wire(b: &mut FieldR1csBuilder, value: F128) -> (r: LinExpr)
    requires
        old(b)@.wf(),
    ensures
        final(b)@.rows == old(b)@.rows.push(free_row(old(b)@.rows.len() as usize)),
        r@ == Lin::wire(old(b)@.rows.len() as usize),
        r@.eval(final(b)@.values) == value,
        computed(old(b)@, final(b)@),
        r@.below(final(b)@.rows.len()),
{
    let r = alloc_block(b, value);
    proof {
        reveal(holds_past);
        let n = old(b)@.rows.len();
        assert(b@.rows[n as int].holds(n as int, b@.values));
    }
    r
}

/// Binds an expression to zero.
pub(crate) fn pin_after(
    b: &mut FieldR1csBuilder,
    e: &LinExpr,
    Ghost(start): Ghost<Circuit>,
    Ghost(pins): Ghost<Seq<Lin>>,
)
    requires
        old(b)@.wf(),
        e@.below(old(b)@.rows.len()),
        pinned(start, old(b)@, pins),
    ensures
        final(b)@.rows == pin_rows(old(b)@.rows, e@),
        final(b)@.grows(old(b)@),
        pinned(start, final(b)@, pins.push(e@)),
{
    let ghost before = b@;
    crate::circuit::pin_zero(b, e);
    proof {
        assert(extended(before, b@)) by {
            reveal(holds_past);
            let n = before.rows.len() as int;
            assert(b@.rows[n] == pin_row(n as usize, e@));
        }
        lemma_extended_trans(start, before, b@);
        lemma_zero_stable(before, b@, pins);
        let now = pins.push(e@);
        assert forall|i: int| 0 <= i < now.len() implies (#[trigger] now[i]).below(
            b@.rows.len(),
        ) by {
            if i < pins.len() {
                assert(now[i] == pins[i]);
                assert(pins[i].below(b@.rows.len()));
            }
        }
        if all_zero(now, b@.values) {
            assert(now[pins.len() as int].eval(b@.values) == F128::zero());
            assert forall|i: int| 0 <= i < pins.len() implies (#[trigger] pins[i]).eval(b@.values)
                == F128::zero() by {
                assert(now[i] == pins[i]);
            }
        }
        if all_zero(pins, b@.values) && e@.eval(b@.values) == F128::zero() {
            assert forall|i: int| 0 <= i < now.len() implies (#[trigger] now[i]).eval(b@.values)
                == F128::zero() by {
                if i < pins.len() {
                    assert(now[i] == pins[i]);
                }
            }
        }
    }
}

// ---------------------------------------------------------------------------
// What rows enforce
// ---------------------------------------------------------------------------

/// Whoever satisfies the rows makes the expressions zero.
pub open spec fn binds(rows: Seq<Row>, pins: Seq<Lin>) -> bool {
    forall|z: Seq<F128>| #[trigger] sat(rows, z) ==> all_zero(pins, z)
}

/// A circuit extended by rows that enforce a condition: whoever satisfies them
/// meets it, and the circuit's own values satisfy them exactly where they meet
/// it.
pub open spec fn enforces(
    before: Circuit,
    after: Circuit,
    f: spec_fn(Seq<F128>) -> bool,
) -> bool {
    &&& extended(before, after)
    &&& after.honest() <==> before.honest() && f(after.values)
    &&& forall|z: Seq<F128>| #[trigger] sat(after.rows, z) ==> sat(before.rows, z) && f(z)
}

/// Conditions that are enforced one after the other.
pub proof fn lemma_enforces_trans(
    a: Circuit,
    b: Circuit,
    c: Circuit,
    f: spec_fn(Seq<F128>) -> bool,
    g: spec_fn(Seq<F128>) -> bool,
    h: spec_fn(Seq<F128>) -> bool,
)
    requires
        enforces(a, b, f),
        enforces(b, c, g),
        f(c.values) == f(b.values),
        forall|z: Seq<F128>| #[trigger] h(z) == (f(z) && g(z)),
    ensures
        enforces(a, c, h),
{
    lemma_extended_trans(a, b, c);
    assert(h(c.values) == (f(c.values) && g(c.values)));
    assert forall|z: Seq<F128>| #[trigger] sat(c.rows, z) implies sat(a.rows, z) && h(z) by {
        assert(sat(b.rows, z) && g(z));
    }
}

/// A condition that is enforced after rows that the values satisfy.
pub proof fn lemma_enforces_after(
    a: Circuit,
    b: Circuit,
    c: Circuit,
    f: spec_fn(Seq<F128>) -> bool,
)
    requires
        computed(a, b),
        enforces(b, c, f),
    ensures
        enforces(a, c, f),
{
    lemma_extended_trans(a, b, c);
    assert forall|z: Seq<F128>| #[trigger] sat(c.rows, z) implies sat(a.rows, z) && f(z) by {
        crate::circuit::lemma_sat_prefix(a.rows, b.rows, z);
    }
}

pub proof fn lemma_binds_none(rows: Seq<Row>)
    ensures
        binds(rows, Seq::empty()),
{
}

pub proof fn lemma_binds_grow(rows: Seq<Row>, more: Seq<Row>, pins: Seq<Lin>)
    requires
        binds(rows, pins),
        prefix(rows, more),
    ensures
        binds(more, pins),
{
    assert forall|z: Seq<F128>| #[trigger] sat(more, z) implies all_zero(pins, z) by {
        crate::circuit::lemma_sat_prefix(rows, more, z);
    }
}

pub proof fn lemma_binds_pin(rows: Seq<Row>, e: Lin, pins: Seq<Lin>)
    requires
        binds(rows, pins),
    ensures
        binds(pin_rows(rows, e), pins.push(e)),
{
    let more = pin_rows(rows, e);
    lemma_pin_prefix(rows, e);
    assert forall|z: Seq<F128>| #[trigger] sat(more, z) implies all_zero(pins.push(e), z) by {
        crate::circuit::lemma_sat_prefix(rows, more, z);
        crate::circuit::lemma_pin_sound(rows, e, z);
        let now = pins.push(e);
        assert forall|i: int| 0 <= i < now.len() implies (#[trigger] now[i]).eval(z)
            == F128::zero() by {
            if i < pins.len() {
                assert(now[i] == pins[i]);
            }
        }
    }
}

/// Pinned expressions that are zero exactly where a condition is met enforce it.
pub proof fn lemma_enforces(
    before: Circuit,
    after: Circuit,
    pins: Seq<Lin>,
    f: spec_fn(Seq<F128>) -> bool,
)
    requires
        pinned(before, after, pins),
        binds(after.rows, pins),
        forall|z: Seq<F128>| #[trigger]
            holds_past(after.rows, before.rows.len(), z) ==> (all_zero(pins, z) <==> f(z)),
    ensures
        enforces(before, after, f),
{
    assert forall|z: Seq<F128>| #[trigger] sat(after.rows, z) implies sat(before.rows, z) && f(
        z,
    ) by {
        crate::circuit::lemma_sat_prefix(before.rows, after.rows, z);
        lemma_sat_past(after.rows, before.rows.len(), z);
    }
}

/// A fresh wire that is zero or one.
pub fn bit_wire(b: &mut FieldR1csBuilder, value: bool) -> (r: LinExpr)
    requires
        old(b)@.wf(),
    ensures
        final(b)@.rows == old(b)@.rows.push(
            crate::circuit::bool_row(old(b)@.rows.len() as usize),
        ),
        r@ == Lin::wire(old(b)@.rows.len() as usize),
        r@.eval(final(b)@.values) == F128::of_bool(value),
        computed(old(b)@, final(b)@),
        r@.below(final(b)@.rows.len()),
        forall|z: Seq<F128>| #[trigger] sat(final(b)@.rows, z) ==> r@.eval(z).is_bit(),
{
    let r = crate::circuit::alloc_bit(b, value);
    proof {
        broadcast use group_lin;

        let n = old(b)@.rows.len() as int;
        assert(b@.values[n] == F128::of_bool(value));
        assert(b@.rows[n].holds(n, b@.values)) by {
            crate::field::lemma_square_fixed(F128::of_bool(value));
        }
        reveal(holds_past);
        assert forall|z: Seq<F128>| #[trigger] sat(b@.rows, z) implies r@.eval(z).is_bit() by {
            crate::circuit::lemma_bool_sound(old(b)@.rows, z);
        }
    }
    r
}

} // verus!
