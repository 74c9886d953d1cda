//! Rank-one constraint systems over the field, and the builder that grows one
//! together with an assignment of its wires.
//!
//! Every wire owns one row. Row `i` of a system states
//! `z[i] == a_i(z) * b_i(z)` for an assignment `z`, where `a_i` and `b_i` are
//! affine expressions over the wires up to and including `i`. Wire zero is
//! the constant one.

use vstd::prelude::*;
use crate::field::{
    group_field_units, lemma_plus_assoc, lemma_plus_comm, lemma_plus_is_zero, lemma_plus_swap,
    lemma_square_fixed, lemma_times_assoc, lemma_times_comm, lemma_times_is_zero, lemma_times_plus,
    F128,
};

verus! {

/// An affine expression: `constant + sum of coefficient * wire`.
pub struct Lin {
    pub terms: Seq<(usize, F128)>,
    pub constant: F128,
}

/// The value of `sum of coefficient * wire` under `z`.
pub open spec fn terms_value(terms: Seq<(usize, F128)>, z: Seq<F128>) -> F128
    decreases terms.len(),
{
    if terms.len() == 0 {
        F128::zero()
    } else {
        terms_value(terms.drop_last(), z).plus(terms.last().1.times(z[terms.last().0 as int]))
    }
}

impl Lin {
    pub open spec fn zero() -> Lin {
        Lin { terms: Seq::empty(), constant: F128::zero() }
    }

    pub open spec fn constant(k: F128) -> Lin {
        Lin { terms: Seq::empty(), constant: k }
    }

    pub open spec fn wire(index: usize) -> Lin {
        Lin { terms: seq![(index, F128::one())], constant: F128::zero() }
    }

    pub open spec fn plus(self, other: Lin) -> Lin {
        Lin { terms: self.terms + other.terms, constant: self.constant.plus(other.constant) }
    }

    pub open spec fn plus_const(self, k: F128) -> Lin {
        Lin { terms: self.terms, constant: self.constant.plus(k) }
    }

    /// Every coefficient multiplied by `k`; the zero expression for zero.
    pub open spec fn scale(self, k: F128) -> Lin {
        if k == F128::zero() {
            Lin::zero()
        } else {
            Lin {
                terms: self.terms.map_values(|t: (usize, F128)| (t.0, t.1.times(k))),
                constant: self.constant.times(k),
            }
        }
    }

    pub open spec fn is_const(self) -> bool {
        self.terms.len() == 0
    }

    /// The value of the expression under an assignment of the wires.
    #[verifier::opaque]
    pub open spec fn eval(self, z: Seq<F128>) -> F128 {
        self.constant.plus(terms_value(self.terms, z))
    }

    /// Only wires below `n` occur.
    #[verifier::opaque]
    pub open spec fn below(self, n: nat) -> bool {
        forall|i: int| 0 <= i < self.terms.len() ==> (#[trigger] self.terms[i]).0 < n
    }
}

/// One row of a system: `wire == a * b`.
pub struct Row {
    pub a: Lin,
    pub b: Lin,
}

impl Row {
    pub open spec fn holds(self, index: int, z: Seq<F128>) -> bool {
        z[index] == self.a.eval(z).times(self.b.eval(z))
    }

    pub open spec fn below(self, n: nat) -> bool {
        self.a.below(n) && self.b.below(n)
    }
}

/// The row of a wire that no equation binds.
pub open spec fn free_row(index: usize) -> Row {
    Row { a: Lin::wire(index), b: Lin::constant(F128::one()) }
}

/// The row of a wire that equals its own square.
pub open spec fn bool_row(index: usize) -> Row {
    Row { a: Lin::wire(index), b: Lin::wire(index) }
}

/// The row that holds exactly when `e` is zero.
pub open spec fn pin_row(index: usize, e: Lin) -> Row {
    Row { a: Lin::wire(index).plus(e), b: Lin::constant(F128::one()) }
}

pub open spec fn one_row() -> Row {
    Row { a: Lin::constant(F128::one()), b: Lin::constant(F128::one()) }
}

/// `z` satisfies every row of a system small enough to be indexed.
#[verifier::opaque]
pub open spec fn sat(rows: Seq<Row>, z: Seq<F128>) -> bool {
    &&& rows.len() <= usize::MAX
    &&& z.len() >= rows.len()
    &&& forall|i: int| 0 <= i < rows.len() ==> (#[trigger] rows[i]).holds(i, z)
}

/// A system under construction: its rows and the assignment built with them.
pub struct Circuit {
    pub rows: Seq<Row>,
    pub values: Seq<F128>,
}

impl Circuit {
    pub open spec fn wf(self) -> bool {
        &&& self.rows.len() == self.values.len()
        &&& 1 <= self.rows.len() <= usize::MAX
        &&& rows_wf(self.rows)
    }

    /// The assignment built with the rows satisfies them.
    pub open spec fn honest(self) -> bool {
        sat(self.rows, self.values)
    }

    /// `self` is `old` with rows added at the end.
    pub open spec fn grows(self, old: Circuit) -> bool {
        &&& self.wf()
        &&& old.wf()
        &&& prefix(old.rows, self.rows)
        &&& prefix(old.values, self.values)
    }
}

#[verifier::opaque]
pub open spec fn prefix<A>(s: Seq<A>, t: Seq<A>) -> bool {
    s.len() <= t.len() && s =~= t.take(s.len() as int)
}

/// Row `i` speaks of wires up to `i` only.
#[verifier::opaque]
pub open spec fn rows_wf(rows: Seq<Row>) -> bool {
    forall|i: int| 0 <= i < rows.len() ==> (#[trigger] rows[i]).below((i + 1) as nat)
}

// ---------------------------------------------------------------------------
// Facts about expressions
// ---------------------------------------------------------------------------

proof fn lemma_terms_concat(s: Seq<(usize, F128)>, t: Seq<(usize, F128)>, z: Seq<F128>)
    ensures
        terms_value(s + t, z) == terms_value(s, z).plus(terms_value(t, z)),
    decreases t.len(),
{
    broadcast use group_field_units;

    if t.len() == 0 {
        assert(s + t =~= s);
    } else {
        assert((s + t).drop_last() =~= s + t.drop_last());
        lemma_terms_concat(s, t.drop_last(), z);
        lemma_plus_assoc(
            terms_value(s, z),
            terms_value(t.drop_last(), z),
            t.last().1.times(z[t.last().0 as int]),
        );
    }
}

proof fn lemma_terms_scale(s: Seq<(usize, F128)>, k: F128, z: Seq<F128>)
    ensures
        terms_value(s.map_values(|t: (usize, F128)| (t.0, t.1.times(k))), z) == terms_value(
            s,
            z,
        ).times(k),
    decreases s.len(),
{
    broadcast use group_field_units;

    let f = |t: (usize, F128)| (t.0, t.1.times(k));
    if s.len() > 0 {
        assert(s.map_values(f).drop_last() =~= s.drop_last().map_values(f));
        lemma_terms_scale(s.drop_last(), k, z);
        let v = z[s.last().0 as int];
        let c = s.last().1;
        lemma_times_assoc(c, k, v);
        lemma_times_comm(k, v);
        lemma_times_assoc(c, v, k);
        lemma_times_comm(terms_value(s, z), k);
        lemma_times_plus(k, terms_value(s.drop_last(), z), c.times(v));
        lemma_times_comm(terms_value(s.drop_last(), z), k);
        lemma_times_comm(c.times(v), k);
    }
}

proof fn lemma_terms_stable(s: Seq<(usize, F128)>, n: nat, y: Seq<F128>, z: Seq<F128>)
    requires
        forall|i: int| 0 <= i < s.len() ==> (#[trigger] s[i]).0 < n,
        forall|i: int| 0 <= i < n ==> y[i] == z[i],
    ensures
        terms_value(s, y) == terms_value(s, z),
    decreases s.len(),
{
    if s.len() > 0 {
        assert forall|i: int| 0 <= i < s.drop_last().len() implies (#[trigger] s.drop_last()[i]).0
            < n by {
            assert(s.drop_last()[i] == s[i]);
        }
        lemma_terms_stable(s.drop_last(), n, y, z);
        assert(s[s.len() - 1].0 < n);
    }
}

/// How the operations on expressions act on their values.
pub broadcast proof fn lemma_eval_plus(x: Lin, y: Lin, z: Seq<F128>)
    ensures
        #[trigger] x.plus(y).eval(z) == x.eval(z).plus(y.eval(z)),
{
    reveal(Lin::eval);
    lemma_terms_concat(x.terms, y.terms, z);
    lemma_plus_swap(
        x.constant,
        y.constant,
        terms_value(x.terms, z),
        terms_value(y.terms, z),
    );
}

pub broadcast proof fn lemma_eval_plus_const(x: Lin, k: F128, z: Seq<F128>)
    ensures
        #[trigger] x.plus_const(k).eval(z) == x.eval(z).plus(k),
{
    reveal(Lin::eval);
    let t = terms_value(x.terms, z);
    lemma_plus_assoc(x.constant, k, t);
    lemma_plus_comm(k, t);
    lemma_plus_assoc(x.constant, t, k);
}

pub broadcast proof fn lemma_eval_scale(x: Lin, k: F128, z: Seq<F128>)
    ensures
        #[trigger] x.scale(k).eval(z) == x.eval(z).times(k),
{
    broadcast use group_field_units;

    reveal(Lin::eval);
    if k != F128::zero() {
        lemma_terms_scale(x.terms, k, z);
        let t = terms_value(x.terms, z);
        lemma_times_comm(x.constant, k);
        lemma_times_comm(t, k);
        lemma_times_comm(x.constant.plus(t), k);
        lemma_times_plus(k, x.constant, t);
    }
}

pub broadcast proof fn lemma_eval_constant(k: F128, z: Seq<F128>)
    ensures
        #[trigger] Lin::constant(k).eval(z) == k,
{
    broadcast use group_field_units;

    reveal(Lin::eval);
}

pub broadcast proof fn lemma_eval_zero(z: Seq<F128>)
    ensures
        #[trigger] Lin::zero().eval(z) == F128::zero(),
{
    broadcast use group_field_units;

    reveal(Lin::eval);
}

pub broadcast proof fn lemma_eval_wire(index: usize, z: Seq<F128>)
    ensures
        #[trigger] Lin::wire(index).eval(z) == z[index as int],
{
    broadcast use group_field_units;

    reveal(Lin::eval);
    let s = seq![(index, F128::one())];
    assert(s.drop_last() =~= Seq::empty());
    assert(terms_value(s.drop_last(), z) == F128::zero());
}

/// The value of an expression without wires is its constant.
pub proof fn lemma_eval_is_const(x: Lin, z: Seq<F128>)
    requires
        x.is_const(),
    ensures
        x.eval(z) == x.constant,
{
    broadcast use group_field_units;

    reveal(Lin::eval);
}

pub broadcast proof fn lemma_below_plus(x: Lin, y: Lin, n: nat)
    ensures
        x.below(n) && y.below(n) ==> #[trigger] x.plus(y).below(n),
{
    reveal(Lin::below);
    if x.below(n) && y.below(n) {
        let t = x.plus(y).terms;
        assert forall|i: int| 0 <= i < t.len() implies (#[trigger] t[i]).0 < n by {
            if i < x.terms.len() {
                assert(t[i] == x.terms[i]);
            } else {
                assert(t[i] == y.terms[i - x.terms.len()]);
            }
        }
    }
}

pub broadcast proof fn lemma_below_plus_const(x: Lin, k: F128, n: nat)
    ensures
        x.below(n) ==> #[trigger] x.plus_const(k).below(n),
{
    reveal(Lin::below);
    if x.below(n) {
        let t = x.plus_const(k).terms;
        assert forall|i: int| 0 <= i < t.len() implies (#[trigger] t[i]).0 < n by {
            assert(x.terms[i].0 < n);
        }
    }
}

pub broadcast proof fn lemma_below_scale(x: Lin, k: F128, n: nat)
    ensures
        x.below(n) ==> #[trigger] x.scale(k).below(n),
{
    reveal(Lin::below);
    if x.below(n) {
        let t = x.scale(k).terms;
        assert forall|i: int| 0 <= i < t.len() implies (#[trigger] t[i]).0 < n by {
            assert(x.terms[i].0 < n);
        }
    }
}

pub broadcast proof fn lemma_below_constant(k: F128, n: nat)
    ensures
        #[trigger] Lin::constant(k).below(n),
{
    reveal(Lin::below);
}

pub broadcast proof fn lemma_below_zero(n: nat)
    ensures
        #[trigger] Lin::zero().below(n),
{
    reveal(Lin::below);
}

pub broadcast proof fn lemma_below_wire(index: usize, n: nat)
    ensures
        #[trigger] Lin::wire(index).below(n) <==> index < n,
{
    reveal(Lin::below);
    assert(Lin::wire(index).terms[0].0 == index);
}

pub broadcast proof fn lemma_below_more(x: Lin, m: nat, n: nat)
    requires
        #[trigger] x.below(m),
        m <= n,
    ensures
        #[trigger] x.below(n),
{
    reveal(Lin::below);
}

/// The value of an expression depends on the wires that occur in it.
pub proof fn lemma_eval_stable(x: Lin, n: nat, y: Seq<F128>, z: Seq<F128>)
    requires
        x.below(n),
        forall|i: int| 0 <= i < n ==> y[i] == z[i],
    ensures
        x.eval(y) == x.eval(z),
{
    reveal(Lin::eval);
    reveal(Lin::below);
    lemma_terms_stable(x.terms, n, y, z);
}

/// Values and wires of expressions.
pub broadcast group group_lin {
    group_field_units,
    lemma_eval_plus,
    lemma_eval_plus_const,
    lemma_eval_scale,
    lemma_eval_constant,
    lemma_eval_zero,
    lemma_eval_wire,
    lemma_below_plus,
    lemma_below_plus_const,
    lemma_below_scale,
    lemma_below_constant,
    lemma_below_zero,
    lemma_below_wire,
    lemma_below_more,
}

// ---------------------------------------------------------------------------
// Facts about systems
// ---------------------------------------------------------------------------

/// A system with one more row holds where the system and that row hold.
pub proof fn lemma_sat_push(rows: Seq<Row>, r: Row, z: Seq<F128>)
    ensures
        sat(rows.push(r), z) <==> sat(rows, z) && rows.len() < usize::MAX && z.len() > rows.len()
            && r.holds(rows.len() as int, z),
{
    reveal(sat);
    let pushed = rows.push(r);
    if sat(pushed, z) {
        assert forall|i: int| 0 <= i < rows.len() implies (#[trigger] rows[i]).holds(i, z) by {
            assert(pushed[i] == rows[i]);
        }
        assert(pushed[rows.len() as int] == r);
    }
}

/// Satisfying a system depends on the wires that occur in it.
pub proof fn lemma_sat_stable(rows: Seq<Row>, y: Seq<F128>, z: Seq<F128>)
    requires
        rows_wf(rows),
        rows.len() <= y.len(),
        prefix(y, z),
    ensures
        sat(rows, y) <==> sat(rows, z),
{
    reveal(sat);
    reveal(rows_wf);
    reveal(prefix);
    assert forall|i: int| 0 <= i < y.len() implies y[i] == z[i] by {
        assert(y[i] == z.take(y.len() as int)[i]);
    }
    assert forall|i: int| 0 <= i < rows.len() implies (#[trigger] rows[i]).holds(i, y)
        == rows[i].holds(i, z) by {
        assert(rows[i].below((i + 1) as nat));
        lemma_eval_stable(rows[i].a, (i + 1) as nat, y, z);
        lemma_eval_stable(rows[i].b, (i + 1) as nat, y, z);
    }
    assert forall|i: int| 0 <= i < rows.len() implies (#[trigger] rows[i]).holds(i, z)
        == rows[i].holds(i, y) by {}
}

/// A prefix of a satisfied system is satisfied.
pub proof fn lemma_sat_prefix(rows: Seq<Row>, more: Seq<Row>, z: Seq<F128>)
    requires
        prefix(rows, more),
        sat(more, z),
    ensures
        sat(rows, z),
{
    reveal(sat);
    reveal(prefix);
    assert forall|i: int| 0 <= i < rows.len() implies (#[trigger] rows[i]).holds(i, z) by {
        assert(more.take(rows.len() as int)[i] == more[i]);
    }
}

pub broadcast proof fn lemma_prefix_trans<A>(r: Seq<A>, s: Seq<A>, t: Seq<A>)
    requires
        #[trigger] prefix(r, s),
        #[trigger] prefix(s, t),
    ensures
        prefix(r, t),
{
    reveal(prefix);
    assert forall|i: int| 0 <= i < r.len() implies r[i] == t[i] by {
        assert(r[i] == s.take(r.len() as int)[i]);
        assert(s[i] == t.take(s.len() as int)[i]);
    }
    assert(r =~= t.take(r.len() as int));
}

pub broadcast proof fn lemma_prefix_push<A>(s: Seq<A>, x: A)
    ensures
        #[trigger] prefix(s, s.push(x)),
{
    reveal(prefix);
}

pub broadcast proof fn lemma_prefix_refl<A>(s: Seq<A>)
    ensures
        #[trigger] prefix(s, s),
{
    reveal(prefix);
}

pub broadcast proof fn lemma_prefix_len<A>(s: Seq<A>, t: Seq<A>)
    requires
        #[trigger] prefix(s, t),
    ensures
        s.len() <= t.len(),
{
    reveal(prefix);
}

pub proof fn lemma_prefix_index<A>(s: Seq<A>, t: Seq<A>)
    requires
        prefix(s, t),
    ensures
        s.len() <= t.len(),
        forall|i: int| 0 <= i < s.len() ==> s[i] == t[i],
{
    reveal(prefix);
    assert forall|i: int| 0 <= i < s.len() implies s[i] == t[i] by {
        assert(s[i] == t.take(s.len() as int)[i]);
    }
}

pub broadcast proof fn lemma_grows_trans(a: Circuit, b: Circuit, c: Circuit)
    requires
        #[trigger] b.grows(a),
        #[trigger] c.grows(b),
    ensures
        c.grows(a),
{
    broadcast use lemma_prefix_trans;

}

/// An expression keeps its value while the system grows.
pub broadcast proof fn lemma_grows_eval(old: Circuit, new: Circuit, x: Lin)
    requires
        #[trigger] new.grows(old),
        x.below(old.rows.len()),
    ensures
        #[trigger] x.eval(new.values) == x.eval(old.values),
{
    lemma_prefix_index(old.values, new.values);
    lemma_eval_stable(x, old.rows.len(), new.values, old.values);
}

/// Expressions and growth.
pub broadcast group group_circuit {
    group_lin,
    lemma_prefix_refl,
    lemma_prefix_len,
    lemma_grows_trans,
    lemma_grows_eval,
}

/// What a grown system satisfies, the smaller one does.
pub proof fn lemma_grows_honest(old: Circuit, new: Circuit)
    requires
        new.grows(old),
        new.honest(),
    ensures
        old.honest(),
        sat(old.rows, new.values),
{
    lemma_sat_prefix(old.rows, new.rows, new.values);
    lemma_sat_stable(old.rows, old.values, new.values);
}

proof fn lemma_rows_wf_push(rows: Seq<Row>, r: Row)
    requires
        rows_wf(rows),
        r.below((rows.len() + 1) as nat),
    ensures
        rows_wf(rows.push(r)),
{
    reveal(rows_wf);
    let pushed = rows.push(r);
    assert forall|i: int| 0 <= i < pushed.len() implies (#[trigger] pushed[i]).below(
        (i + 1) as nat,
    ) by {
        if i < rows.len() {
            assert(pushed[i] == rows[i]);
        }
    }
}

/// One more row keeps the assignment honest exactly when that row holds.
proof fn lemma_honest_push(old: Circuit, new: Circuit)
    requires
        new.grows(old),
        new.rows.len() == old.rows.len() + 1,
    ensures
        new.honest() <==> old.honest() && new.rows.last().holds(
            old.rows.len() as int,
            new.values,
        ),
{
    lemma_prefix_index(old.rows, new.rows);
    assert(new.rows =~= old.rows.push(new.rows.last()));
    lemma_sat_push(old.rows, new.rows.last(), new.values);
    lemma_sat_stable(old.rows, old.values, new.values);
}

// ---------------------------------------------------------------------------
// Expressions
// ---------------------------------------------------------------------------

/// A wire of a builder.
#[derive(Clone, Copy, Debug, PartialEq, Eq, Structural)]
pub struct Wire {
    pub index: usize,
}

/// An affine expression over wires.
#[derive(Debug, PartialEq, Eq)]
pub struct LinExpr {
    pub terms: Vec<(usize, F128)>,
    pub constant: F128,
}

impl View for LinExpr {
    type V = Lin;

    open spec fn view(&self) -> Lin {
        Lin { terms: self.terms@, constant: self.constant }
    }
}

/// The expressions of a sequence.
pub open spec fn lins(s: Seq<LinExpr>) -> Seq<Lin> {
    Seq::new(s.len(), |i: int| s[i]@)
}

/// Every expression of a sequence has only wires below `n`.
pub open spec fn all_below(s: Seq<Lin>, n: nat) -> bool {
    forall|i: int| 0 <= i < s.len() ==> (#[trigger] s[i]).below(n)
}

impl LinExpr {
    pub fn zero() -> (r: LinExpr)
        ensures
            r@ == Lin::zero(),
    {
        let r = LinExpr { terms: Vec::new(), constant: F128::zero() };
        assert(r.terms@ =~= Seq::empty());
        r
    }

    pub fn constant(k: F128) -> (r: LinExpr)
        ensures
            r@ == Lin::constant(k),
    {
        let r = LinExpr { terms: Vec::new(), constant: k };
        assert(r.terms@ =~= Seq::empty());
        r
    }

    pub fn from_wire(wire: Wire) -> (r: LinExpr)
        ensures
            r@ == Lin::wire(wire.index),
    {
        let mut terms: Vec<(usize, F128)> = Vec::new();
        terms.push((wire.index, F128::one()));
        assert(terms@ =~= seq![(wire.index, F128::one())]);
        LinExpr { terms, constant: F128::zero() }
    }

    /// The same expression again.
    pub fn dup(&self) -> (r: LinExpr)
        ensures
            r@ == self@,
    {
        let mut terms: Vec<(usize, F128)> = Vec::with_capacity(self.terms.len());
        let mut i: usize = 0;
        while i < self.terms.len()
            invariant
                i <= self.terms.len(),
                terms@ == self.terms@.take(i as int),
            decreases self.terms.len() - i,
        {
            terms.push(self.terms[i]);
            assert(self.terms@.take(i + 1) =~= self.terms@.take(i as int).push(self.terms@[i as int]));
            i += 1;
        }
        assert(self.terms@.take(i as int) =~= self.terms@);
        LinExpr { terms, constant: self.constant }
    }

    pub fn add(&self, other: &LinExpr) -> (r: LinExpr)
        ensures
            r@ == self@.plus(other@),
    {
        let mut terms: Vec<(usize, F128)> = Vec::with_capacity(self.terms.len());
        let mut i: usize = 0;
        while i < self.terms.len()
            invariant
                i <= self.terms.len(),
                terms@ == self.terms@.take(i as int),
            decreases self.terms.len() - i,
        {
            terms.push(self.terms[i]);
            assert(self.terms@.take(i + 1) =~= self.terms@.take(i as int).push(self.terms@[i as int]));
            i += 1;
        }
        assert(self.terms@.take(i as int) =~= self.terms@);
        let mut j: usize = 0;
        assert(terms@ =~= self.terms@ + other.terms@.take(0));
        while j < other.terms.len()
            invariant
                j <= other.terms.len(),
                terms@ == self.terms@ + other.terms@.take(j as int),
            decreases other.terms.len() - j,
        {
            terms.push(other.terms[j]);
            assert(self.terms@ + other.terms@.take(j + 1) =~= (self.terms@ + other.terms@.take(
                j as int,
            )).push(other.terms@[j as int]));
            j += 1;
        }
        assert(other.terms@.take(j as int) =~= other.terms@);
        LinExpr { terms, constant: self.constant.add(other.constant) }
    }

    /// Adds another expression to this one.
    pub fn add_assign(&mut self, other: &LinExpr)
        ensures
            final(self)@ == old(self)@.plus(other@),
    {
        let mut j: usize = 0;
        assert(self.terms@ =~= old(self).terms@ + other.terms@.take(0));
        while j < other.terms.len()
            invariant
                j <= other.terms.len(),
                self.terms@ == old(self).terms@ + other.terms@.take(j as int),
                self.constant == old(self).constant,
            decreases other.terms.len() - j,
        {
            self.terms.push(other.terms[j]);
            assert(old(self).terms@ + other.terms@.take(j + 1) =~= (old(self).terms@
                + other.terms@.take(j as int)).push(other.terms@[j as int]));
            j += 1;
        }
        assert(other.terms@.take(j as int) =~= other.terms@);
        self.constant = self.constant.add(other.constant);
    }

    pub fn add_const(&self, k: F128) -> (r: LinExpr)
        ensures
            r@ == self@.plus_const(k),
    {
        let mut r = self.dup();
        r.constant = self.constant.add(k);
        r
    }

    pub fn scale(&self, k: F128) -> (r: LinExpr)
        ensures
            r@ == self@.scale(k),
    {
        if k == F128::zero() {
            return LinExpr::zero();
        }
        let ghost f = |t: (usize, F128)| (t.0, t.1.times(k));
        let mut terms: Vec<(usize, F128)> = Vec::with_capacity(self.terms.len());
        let mut i: usize = 0;
        assert(terms@ =~= self.terms@.take(0).map_values(f));
        while i < self.terms.len()
            invariant
                i <= self.terms.len(),
                f == |t: (usize, F128)| (t.0, t.1.times(k)),
                terms@ == self.terms@.take(i as int).map_values(f),
            decreases self.terms.len() - i,
        {
            let t: (usize, F128) = self.terms[i];
            terms.push((t.0, t.1.mul(k)));
            assert(self.terms@.take(i + 1).map_values(f) =~= self.terms@.take(i as int).map_values(
                f,
            ).push(f(self.terms@[i as int])));
            i += 1;
        }
        assert(self.terms@.take(i as int) =~= self.terms@);
        LinExpr { terms, constant: self.constant.mul(k) }
    }

    pub fn is_const(&self) -> (r: bool)
        ensures
            r == self@.is_const(),
    {
        self.terms.len() == 0
    }

    /// The value of the expression under an assignment that covers its wires.
    pub fn eval(&self, values: &Vec<F128>) -> (r: F128)
        requires
            self@.below(values@.len()),
        ensures
            r == self@.eval(values@),
    {
        reveal(Lin::below);
        reveal(Lin::eval);
        let mut sum = F128::zero();
        let mut i: usize = 0;
        while i < self.terms.len()
            invariant
                i <= self.terms.len(),
                self@.below(values@.len()),
                sum == terms_value(self.terms@.take(i as int), values@),
            decreases self.terms.len() - i,
        {
            reveal(Lin::below);
            let t: (usize, F128) = self.terms[i];
            assert(self@.terms[i as int].0 < values@.len());
            sum = sum.add(t.1.mul(values[t.0]));
            assert(self.terms@.take(i + 1).drop_last() =~= self.terms@.take(i as int));
            i += 1;
        }
        assert(self.terms@.take(i as int) =~= self.terms@);
        self.constant.add(sum)
    }
}

// ---------------------------------------------------------------------------
// Systems and their builder
// ---------------------------------------------------------------------------

#[derive(Debug, PartialEq, Eq)]
pub struct RowExpr {
    pub a: LinExpr,
    pub b: LinExpr,
}

impl View for RowExpr {
    type V = Row;

    open spec fn view(&self) -> Row {
        Row { a: self.a@, b: self.b@ }
    }
}

pub open spec fn row_views(rows: Seq<RowExpr>) -> Seq<Row> {
    Seq::new(rows.len(), |i: int| rows[i]@)
}

/// A finished system.
#[derive(Debug, PartialEq, Eq)]
pub struct FieldR1cs {
    pub rows: Vec<RowExpr>,
    pub useful_rows: usize,
}

/// A finished system: its rows, and how many of them are in use.
pub struct System {
    pub rows: Seq<Row>,
    pub useful_rows: nat,
}

impl View for FieldR1cs {
    type V = System;

    open spec fn view(&self) -> System {
        System { rows: row_views(self.rows@), useful_rows: self.useful_rows as nat }
    }
}

impl FieldR1cs {
    /// Whether `z` assigns every wire and satisfies every row.
    pub fn satisfies(&self, z: &Vec<F128>) -> (r: bool)
        requires
            rows_wf(self@.rows),
        ensures
            r == (z@.len() == self@.rows.len() && sat(self@.rows, z@)),
    {
        if z.len() != self.rows.len() {
            return false;
        }
        let mut i: usize = 0;
        while i < self.rows.len()
            invariant
                i <= self.rows.len(),
                z@.len() == self.rows@.len(),
                rows_wf(self@.rows),
                forall|j: int| 0 <= j < i ==> (#[trigger] self@.rows[j]).holds(j, z@),
            decreases self.rows.len() - i,
        {
            broadcast use lemma_below_more;

            reveal(rows_wf);
            assert(self@.rows[i as int] == self.rows@[i as int]@);
            assert(self@.rows[i as int].below((i + 1) as nat));
            let left = self.rows[i].a.eval(z);
            let right = self.rows[i].b.eval(z);
            if z[i] != left.mul(right) {
                proof {
                    reveal(sat);
                    assert(!self@.rows[i as int].holds(i as int, z@));
                }
                return false;
            }
            i += 1;
        }
        reveal(sat);
        true
    }
}

/// Grows a system row by row, with the value of every wire.
#[derive(Debug)]
pub struct FieldR1csBuilder {
    pub rows: Vec<RowExpr>,
    pub values: Vec<F128>,
}

impl View for FieldR1csBuilder {
    type V = Circuit;

    open spec fn view(&self) -> Circuit {
        Circuit { rows: row_views(self.rows@), values: self.values@ }
    }
}

impl FieldR1csBuilder {
    /// The system of the constant wire alone.
    pub fn new() -> (r: FieldR1csBuilder)
        ensures
            r@.wf(),
            r@.honest(),
            r@.rows == seq![one_row()],
            r@.values == seq![F128::one()],
    {
        broadcast use group_lin;

        let mut rows: Vec<RowExpr> = Vec::new();
        rows.push(
            RowExpr { a: LinExpr::constant(F128::one()), b: LinExpr::constant(F128::one()) },
        );
        let mut values: Vec<F128> = Vec::new();
        values.push(F128::one());
        let r = FieldR1csBuilder { rows, values };
        assert(r@.rows =~= seq![one_row()]);
        assert(r@.values =~= seq![F128::one()]);
        reveal(rows_wf);
        reveal(sat);
        r
    }

    /// The number of wires, the constant wire among them.
    pub fn num_wires(&self) -> (r: usize)
        requires
            self@.wf(),
        ensures
            r == self@.rows.len(),
    {
        self.values.len()
    }

    pub fn values(&self) -> (r: &Vec<F128>)
        ensures
            r@ == self@.values,
    {
        &self.values
    }

    fn push_row(&mut self, row: RowExpr, value: F128)
        requires
            old(self)@.wf(),
            row@.below((old(self)@.rows.len() + 1) as nat),
        ensures
            final(self)@.rows == old(self)@.rows.push(row@),
            final(self)@.values == old(self)@.values.push(value),
            final(self)@.grows(old(self)@),
    {
        broadcast use {lemma_prefix_push, lemma_prefix_len};

        self.rows.push(row);
        self.values.push(value);
        let _count: usize = self.rows.len();
        assert(self@.rows =~= old(self)@.rows.push(row@));
        proof {
            lemma_rows_wf_push(old(self)@.rows, row@);
        }
    }

    /// A wire that no equation binds.
    pub fn alloc_f128(&mut self, value: F128) -> (wire: Wire)
        requires
            old(self)@.wf(),
        ensures
            wire.index == old(self)@.rows.len(),
            final(self)@.rows == old(self)@.rows.push(free_row(wire.index)),
            final(self)@.values == old(self)@.values.push(value),
            final(self)@.grows(old(self)@),
            final(self)@.honest() <==> old(self)@.honest(),
    {
        broadcast use group_lin;

        let index: usize = self.values.len();
        let row = RowExpr {
            a: LinExpr::from_wire(Wire { index }),
            b: LinExpr::constant(F128::one()),
        };
        self.push_row(row, value);
        proof {
            lemma_honest_push(old(self)@, self@);
        }
        Wire { index }
    }

    /// A wire bound to be zero or one.
    pub fn alloc_bool(&mut self, value: bool) -> (wire: Wire)
        requires
            old(self)@.wf(),
        ensures
            wire.index == old(self)@.rows.len(),
            final(self)@.rows == old(self)@.rows.push(bool_row(wire.index)),
            final(self)@.values == old(self)@.values.push(F128::of_bool(value)),
            final(self)@.grows(old(self)@),
            final(self)@.honest() <==> old(self)@.honest(),
    {
        broadcast use group_lin;

        let index: usize = self.values.len();
        let row = RowExpr {
            a: LinExpr::from_wire(Wire { index }),
            b: LinExpr::from_wire(Wire { index }),
        };
        self.push_row(row, F128::from_bool(value));
        proof {
            lemma_honest_push(old(self)@, self@);
            lemma_square_fixed(F128::of_bool(value));
        }
        Wire { index }
    }

    /// The finished system and the assignment built with it.
    pub fn build(self) -> (r: (FieldR1cs, Vec<F128>))
        requires
            self@.wf(),
        ensures
            r.0@ == (System { rows: self@.rows, useful_rows: self@.rows.len() }),
            r.1@ == self@.values,
            rows_wf(r.0@.rows),
    {
        let useful_rows = self.rows.len();
        (FieldR1cs { rows: self.rows, useful_rows }, self.values)
    }
}

// ---------------------------------------------------------------------------
// Products and equations
// ---------------------------------------------------------------------------

/// The rows after a product, and its expression. A constant factor scales the
/// other one and takes no row.
pub open spec fn mul_rows(c: Seq<Row>, x: Lin, y: Lin) -> (Seq<Row>, Lin) {
    if x.is_const() {
        (c, y.scale(x.constant))
    } else if y.is_const() {
        (c, x.scale(y.constant))
    } else {
        (c.push(Row { a: x, b: y }), Lin::wire(c.len() as usize))
    }
}

/// An expression for the product of two expressions.
pub fn mul(b: &mut FieldR1csBuilder, x: &LinExpr, y: &LinExpr) -> (r: LinExpr)
    requires
        old(b)@.wf(),
        x@.below(old(b)@.rows.len()),
        y@.below(old(b)@.rows.len()),
    ensures
        (final(b)@.rows, r@) == mul_rows(old(b)@.rows, x@, y@),
        final(b)@.grows(old(b)@),
        final(b)@.honest() <==> old(b)@.honest(),
        r@.below(final(b)@.rows.len()),
        r@.eval(final(b)@.values) == x@.eval(old(b)@.values).times(y@.eval(old(b)@.values)),
{
    broadcast use {group_lin, lemma_prefix_refl};

    if x.is_const() {
        proof {
            lemma_eval_is_const(x@, b@.values);
            lemma_times_comm(x@.constant, y@.eval(b@.values));
        }
        return y.scale(x.constant);
    }
    if y.is_const() {
        proof {
            lemma_eval_is_const(y@, b@.values);
        }
        return x.scale(y.constant);
    }
    let value = x.eval(&b.values).mul(y.eval(&b.values));
    let index: usize = b.values.len();
    b.push_row(RowExpr { a: x.dup(), b: y.dup() }, value);
    proof {
        lemma_honest_push(old(b)@, b@);
        lemma_grows_eval(old(b)@, b@, x@);
        lemma_grows_eval(old(b)@, b@, y@);
    }
    LinExpr::from_wire(Wire { index })
}

/// A product evaluates to the product, and takes no row away.
pub proof fn lemma_mul_sound(c: Seq<Row>, x: Lin, y: Lin, z: Seq<F128>)
    requires
        sat(mul_rows(c, x, y).0, z),
    ensures
        sat(c, z),
        mul_rows(c, x, y).1.eval(z) == x.eval(z).times(y.eval(z)),
{
    broadcast use group_lin;

    if x.is_const() {
        lemma_eval_is_const(x, z);
        lemma_times_comm(x.constant, y.eval(z));
    } else if y.is_const() {
        lemma_eval_is_const(y, z);
    } else {
        lemma_sat_push(c, Row { a: x, b: y }, z);
    }
}

/// The rows after an equation `e == 0`.
pub open spec fn pin_rows(c: Seq<Row>, e: Lin) -> Seq<Row> {
    c.push(pin_row(c.len() as usize, e))
}

/// Binds an expression to zero.
pub fn pin_zero(b: &mut FieldR1csBuilder, e: &LinExpr)
    requires
        old(b)@.wf(),
        e@.below(old(b)@.rows.len()),
    ensures
        final(b)@.rows == pin_rows(old(b)@.rows, e@),
        final(b)@.grows(old(b)@),
        final(b)@.honest() <==> old(b)@.honest() && e@.eval(old(b)@.values) == F128::zero(),
{
    broadcast use group_lin;

    let index: usize = b.values.len();
    let wire = LinExpr::from_wire(Wire { index });
    b.push_row(RowExpr { a: wire.add(e), b: LinExpr::constant(F128::one()) }, F128::zero());
    proof {
        lemma_honest_push(old(b)@, b@);
        lemma_grows_eval(old(b)@, b@, e@);
    }
}

/// A satisfied equation holds.
pub proof fn lemma_pin_sound(c: Seq<Row>, e: Lin, z: Seq<F128>)
    requires
        sat(pin_rows(c, e), z),
    ensures
        sat(c, z),
        e.eval(z) == F128::zero(),
{
    broadcast use {group_lin, lemma_plus_is_zero};

    lemma_sat_push(c, pin_row(c.len() as usize, e), z);
    let w = z[c.len() as int];
    assert(w == w.plus(e.eval(z)));
    lemma_plus_comm(w, e.eval(z));
    assert(e.eval(z).plus(w).plus(w) == e.eval(z));
}

/// Binds two expressions to be equal.
pub fn pin_eq(b: &mut FieldR1csBuilder, x: &LinExpr, y: &LinExpr)
    requires
        old(b)@.wf(),
        x@.below(old(b)@.rows.len()),
        y@.below(old(b)@.rows.len()),
    ensures
        final(b)@.rows == pin_rows(old(b)@.rows, x@.plus(y@)),
        final(b)@.grows(old(b)@),
        final(b)@.honest() <==> old(b)@.honest() && x@.eval(old(b)@.values) == y@.eval(
            old(b)@.values,
        ),
{
    broadcast use {group_lin, lemma_plus_is_zero};

    let e = x.add(y);
    pin_zero(b, &e);
}

/// A fresh wire as an expression.
pub fn alloc_block(b: &mut FieldR1csBuilder, value: F128) -> (r: LinExpr)
    requires
        old(b)@.wf(),
    ensures
        final(b)@.rows == old(b)@.rows.push(free_row(old(b)@.rows.len() as usize)),
        final(b)@.values == old(b)@.values.push(value),
        final(b)@.grows(old(b)@),
        final(b)@.honest() <==> old(b)@.honest(),
        r@ == Lin::wire(old(b)@.rows.len() as usize),
        r@.below(final(b)@.rows.len()),
        r@.eval(final(b)@.values) == value,
{
    broadcast use group_lin;

    let wire = b.alloc_f128(value);
    LinExpr::from_wire(wire)
}

/// A fresh wire that is zero or one, as an expression.
pub fn alloc_bit(b: &mut FieldR1csBuilder, value: bool) -> (r: LinExpr)
    requires
        old(b)@.wf(),
    ensures
        final(b)@.rows == old(b)@.rows.push(bool_row(old(b)@.rows.len() as usize)),
        final(b)@.values == old(b)@.values.push(F128::of_bool(value)),
        final(b)@.grows(old(b)@),
        final(b)@.honest() <==> old(b)@.honest(),
        r@ == Lin::wire(old(b)@.rows.len() as usize),
        r@.below(final(b)@.rows.len()),
        r@.eval(final(b)@.values) == F128::of_bool(value),
{
    broadcast use group_lin;

    let wire = b.alloc_bool(value);
    LinExpr::from_wire(wire)
}

/// A satisfied row of a wire bound to its square makes it zero or one.
pub proof fn lemma_bool_sound(c: Seq<Row>, z: Seq<F128>)
    requires
        sat(c.push(bool_row(c.len() as usize)), z),
    ensures
        sat(c, z),
        Lin::wire(c.len() as usize).eval(z).is_bit(),
{
    broadcast use group_lin;

    lemma_sat_push(c, bool_row(c.len() as usize), z);
    lemma_square_fixed(z[c.len() as int]);
}

pub proof fn lemma_free_sound(c: Seq<Row>, z: Seq<F128>)
    requires
        sat(c.push(free_row(c.len() as usize)), z),
    ensures
        sat(c, z),
{
    lemma_sat_push(c, free_row(c.len() as usize), z);
}

/// The rows that bind a product to zero.
pub open spec fn gate_rows(c: Seq<Row>, x: Lin, y: Lin) -> Seq<Row> {
    let (c1, product) = mul_rows(c, x, y);
    pin_rows(c1, product)
}

/// Binds the product of two expressions to zero.
pub fn pin_product(b: &mut FieldR1csBuilder, x: &LinExpr, y: &LinExpr)
    requires
        old(b)@.wf(),
        x@.below(old(b)@.rows.len()),
        y@.below(old(b)@.rows.len()),
    ensures
        final(b)@.rows == gate_rows(old(b)@.rows, x@, y@),
        final(b)@.grows(old(b)@),
        final(b)@.honest() <==> old(b)@.honest() && {
            ||| x@.eval(old(b)@.values) == F128::zero()
            ||| y@.eval(old(b)@.values) == F128::zero()
        },
{
    broadcast use group_circuit;

    let product = crate::circuit::mul(b, x, y);
    pin_zero(b, &product);
    proof {
        lemma_times_is_zero(x@.eval(old(b)@.values), y@.eval(old(b)@.values));
    }
}

pub proof fn lemma_gate_sound(c: Seq<Row>, x: Lin, y: Lin, z: Seq<F128>)
    requires
        sat(gate_rows(c, x, y), z),
    ensures
        sat(c, z),
        x.eval(z) == F128::zero() || y.eval(z) == F128::zero(),
{
    let (c1, product) = mul_rows(c, x, y);
    lemma_pin_sound(c1, product, z);
    lemma_mul_sound(c, x, y, z);
    lemma_times_is_zero(x.eval(z), y.eval(z));
}

/// The rows that bind an expression to its own square.
pub open spec fn bit_rows(c: Seq<Row>, e: Lin) -> Seq<Row> {
    let (c1, square) = mul_rows(c, e, e);
    pin_rows(c1, square.plus(e))
}

/// Binds an expression to be zero or one.
pub fn pin_bit(b: &mut FieldR1csBuilder, e: &LinExpr)
    requires
        old(b)@.wf(),
        e@.below(old(b)@.rows.len()),
    ensures
        final(b)@.rows == bit_rows(old(b)@.rows, e@),
        final(b)@.grows(old(b)@),
        final(b)@.honest() <==> old(b)@.honest() && e@.eval(old(b)@.values).is_bit(),
{
    broadcast use group_circuit;

    let square = crate::circuit::mul(b, e, e);
    pin_eq(b, &square, e);
    proof {
        lemma_square_fixed(e@.eval(old(b)@.values));
    }
}

pub proof fn lemma_bit_sound(c: Seq<Row>, e: Lin, z: Seq<F128>)
    requires
        sat(bit_rows(c, e), z),
    ensures
        sat(c, z),
        e.eval(z).is_bit(),
{
    broadcast use {group_lin, lemma_plus_is_zero};

    let (c1, square) = mul_rows(c, e, e);
    lemma_pin_sound(c1, square.plus(e), z);
    lemma_mul_sound(c, e, e, z);
    lemma_square_fixed(e.eval(z));
}

} // verus!
