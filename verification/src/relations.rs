//! Relations over committed columns: sums of products of column cells.

use vstd::prelude::*;
use crate::field::F128;

verus! {

/// One cell relative to a slot.
#[derive(Clone, Copy, Debug, PartialEq, Eq, Structural)]
pub enum ColRef {
    /// A committed column at the slot.
    Committed(usize),
    /// A committed column one slot earlier, zero before the first slot.
    CommittedShift(usize),
    /// A committed column two slots earlier, zero before the first slots.
    CommittedShift2(usize),
    /// A column of the walk at the slot.
    Internal(usize),
    /// A periodic table at the slot.
    Fixed(usize),
    /// A committed column at every `2^stride_log`-th slot.
    Window { col: usize, stride_log: usize, offset: usize },
}

/// A coefficient times a product of cells.
#[derive(Debug, PartialEq, Eq)]
pub struct RelationTerm {
    pub coeff: F128,
    pub factors: Vec<ColRef>,
}

/// A table repeated over the domain.
#[derive(Debug, PartialEq, Eq)]
pub struct FixedPattern {
    pub log_period: usize,
    pub table: Vec<F128>,
}

/// A coefficient with a product.
pub struct Product {
    pub coeff: F128,
    pub factors: Seq<ColRef>,
}

impl View for RelationTerm {
    type V = Product;

    open spec fn view(&self) -> Product {
        Product { coeff: self.coeff, factors: self.factors@ }
    }
}

pub open spec fn products(terms: Seq<RelationTerm>) -> Seq<Product> {
    Seq::new(terms.len(), |i: int| terms[i]@)
}

/// Columns by index.
pub struct ColumnTable {
    pub committed: Seq<Seq<F128>>,
    pub internal: Seq<Seq<F128>>,
    pub fixed: Seq<Seq<F128>>,
}

/// What a reference reads at a slot.
pub open spec fn cell(t: ColumnTable, r: ColRef, slot: int) -> F128 {
    match r {
        ColRef::Committed(c) => t.committed[c as int][slot],
        ColRef::CommittedShift(c) => if slot >= 1 {
            t.committed[c as int][slot - 1]
        } else {
            F128::zero()
        },
        ColRef::CommittedShift2(c) => if slot >= 2 {
            t.committed[c as int][slot - 2]
        } else {
            F128::zero()
        },
        ColRef::Internal(c) => t.internal[c as int][slot],
        ColRef::Fixed(c) => t.fixed[c as int][slot % t.fixed[c as int].len() as int],
        ColRef::Window { col, stride_log, offset } => t.committed[col as int][(slot
            * vstd::arithmetic::power2::pow2(stride_log as nat) + offset) as int],
    }
}

/// The coefficient times the first `n` cells.
pub open spec fn product_at(t: ColumnTable, p: Product, slot: int, n: nat) -> F128
    decreases n,
{
    if n == 0 {
        p.coeff
    } else {
        product_at(t, p, slot, (n - 1) as nat).times(cell(t, p.factors[n - 1], slot))
    }
}

/// What the first `n` terms sum to at a slot.
pub open spec fn sum_at(t: ColumnTable, terms: Seq<Product>, slot: int, n: nat) -> F128
    decreases n,
{
    if n == 0 {
        F128::zero()
    } else {
        sum_at(t, terms, slot, (n - 1) as nat).plus(
            product_at(t, terms[n - 1], slot, terms[n - 1].factors.len()),
        )
    }
}

/// What a relation gives at a slot.
pub open spec fn residual(t: ColumnTable, terms: Seq<Product>, slot: int) -> F128 {
    sum_at(t, terms, slot, terms.len())
}

pub proof fn lemma_sum_prefix(t: ColumnTable, a: Seq<Product>, b: Seq<Product>, slot: int, n: nat)
    requires
        n <= a.len(),
        n <= b.len(),
        forall|i: int| 0 <= i < n ==> #[trigger] a[i] == b[i],
    ensures
        sum_at(t, a, slot, n) == sum_at(t, b, slot, n),
    decreases n,
{
    if n > 0 {
        lemma_sum_prefix(t, a, b, slot, (n - 1) as nat);
        assert(a[n - 1] == b[n - 1]);
    }
}

/// One more term adds its product.
pub proof fn lemma_residual_push(t: ColumnTable, a: Seq<Product>, p: Product, slot: int)
    ensures
        residual(t, a.push(p), slot) == residual(t, a, slot).plus(
            product_at(t, p, slot, p.factors.len()),
        ),
{
    lemma_sum_prefix(t, a.push(p), a, slot, a.len());
}

/// Appends a term.
pub fn push_term(terms: &mut Vec<RelationTerm>, coeff: F128, factors: Vec<ColRef>)
    ensures
        products(final(terms)@) == products(old(terms)@).push(
            Product { coeff, factors: factors@ },
        ),
{
    let ghost before = terms@;
    terms.push(RelationTerm { coeff, factors });
    assert(products(terms@) =~= products(before).push(Product { coeff, factors: factors@ }));
}

/// A power of an element.
pub open spec fn power(x: F128, n: nat) -> F128
    decreases n,
{
    if n == 0 {
        F128::one()
    } else {
        power(x, (n - 1) as nat).times(x)
    }
}

/// An equation between two products.
pub struct Equation {
    pub left: Seq<ColRef>,
    pub right: Seq<ColRef>,
}

pub open spec fn factors_at(t: ColumnTable, factors: Seq<ColRef>, slot: int) -> F128 {
    product_at(t, Product { coeff: F128::one(), factors }, slot, factors.len())
}

/// An equation holds at a slot.
pub open spec fn equation_holds(t: ColumnTable, e: Equation, slot: int) -> bool {
    factors_at(t, e.left, slot) == factors_at(t, e.right, slot)
}

/// Both sides of the first `n` equations, each equation under the next power
/// of a mixing element.
pub open spec fn mixed(equations: Seq<Equation>, mix: F128, n: nat) -> Seq<Product>
    decreases n,
{
    if n == 0 {
        Seq::empty()
    } else {
        let k = (n - 1) as nat;
        mixed(equations, mix, k).push(
            Product { coeff: power(mix, k), factors: equations[k as int].left },
        ).push(Product { coeff: power(mix, k), factors: equations[k as int].right })
    }
}

proof fn lemma_product_scale(t: ColumnTable, coeff: F128, factors: Seq<ColRef>, slot: int, n: nat)
    requires
        n <= factors.len(),
    ensures
        product_at(t, Product { coeff, factors }, slot, n) == coeff.times(
            product_at(t, Product { coeff: F128::one(), factors }, slot, n),
        ),
    decreases n,
{
    broadcast use crate::field::group_field_units;

    if n > 0 {
        let k = (n - 1) as nat;
        lemma_product_scale(t, coeff, factors, slot, k);
        crate::field::lemma_times_assoc(
            coeff,
            product_at(t, Product { coeff: F128::one(), factors }, slot, k),
            cell(t, factors[n - 1], slot),
        );
    }
}

/// A term is its coefficient times its cells.
pub proof fn lemma_product(t: ColumnTable, coeff: F128, factors: Seq<ColRef>, slot: int)
    ensures
        product_at(t, Product { coeff, factors }, slot, factors.len()) == coeff.times(
            factors_at(t, factors, slot),
        ),
{
    lemma_product_scale(t, coeff, factors, slot, factors.len());
}

/// What the mixed equations give: the sides of each, added, under its power.
pub open spec fn mixed_sum(t: ColumnTable, equations: Seq<Equation>, mix: F128, slot: int, n: nat) -> F128
    decreases n,
{
    if n == 0 {
        F128::zero()
    } else {
        let k = (n - 1) as nat;
        let e = equations[k as int];
        mixed_sum(t, equations, mix, slot, k).plus(
            power(mix, k).times(factors_at(t, e.left, slot).plus(factors_at(t, e.right, slot))),
        )
    }
}

/// Mixed equations give the mixed sum of their sides.
pub proof fn lemma_mixed_residual(
    t: ColumnTable,
    equations: Seq<Equation>,
    mix: F128,
    slot: int,
    n: nat,
)
    requires
        n <= equations.len(),
    ensures
        residual(t, mixed(equations, mix, n), slot) == mixed_sum(t, equations, mix, slot, n),
    decreases n,
{
    if n > 0 {
        let k = (n - 1) as nat;
        lemma_mixed_residual(t, equations, mix, slot, k);
        let before = mixed(equations, mix, k);
        let w = power(mix, k);
        let e = equations[k as int];
        let l = Product { coeff: w, factors: e.left };
        let r = Product { coeff: w, factors: e.right };
        lemma_residual_push(t, before, l, slot);
        lemma_residual_push(t, before.push(l), r, slot);
        lemma_product(t, w, e.left, slot);
        lemma_product(t, w, e.right, slot);
        let (x, y) = (factors_at(t, e.left, slot), factors_at(t, e.right, slot));
        crate::field::lemma_times_plus(w, x, y);
        crate::field::lemma_plus_assoc(residual(t, before, slot), w.times(x), w.times(y));
    }
}

/// Where every equation holds, the mixed relation is zero whatever the mixing
/// element.
pub proof fn lemma_mixed_zero(
    t: ColumnTable,
    equations: Seq<Equation>,
    mix: F128,
    slot: int,
    n: nat,
)
    requires
        n <= equations.len(),
        forall|k: int|
            0 <= k < n ==> equation_holds(t, #[trigger] equations[k], slot),
    ensures
        residual(t, mixed(equations, mix, n), slot) == F128::zero(),
    decreases n,
{
    broadcast use crate::field::group_field_units;

    lemma_mixed_residual(t, equations, mix, slot, n);
    if n > 0 {
        let k = (n - 1) as nat;
        lemma_mixed_zero(t, equations, mix, slot, k);
        lemma_mixed_residual(t, equations, mix, slot, k);
        assert(equation_holds(t, equations[k as int], slot));
    }
}

/// Appends both sides of an equation under a weight.
pub fn push_equation(
    terms: &mut Vec<RelationTerm>,
    weight: F128,
    left: Vec<ColRef>,
    right: Vec<ColRef>,
)
    ensures
        products(final(terms)@) == products(old(terms)@).push(
            Product { coeff: weight, factors: left@ },
        ).push(Product { coeff: weight, factors: right@ }),
{
    push_term(terms, weight, left);
    push_term(terms, weight, right);
}

} // verus!
