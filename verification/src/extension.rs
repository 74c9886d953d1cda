//! The quadratic extension of the field, and its expressions in the trace.

use vstd::prelude::*;
use crate::circuit::{
    group_circuit, group_lin, lemma_prefix_trans, mul_rows, prefix, FieldR1csBuilder, Lin, LinExpr,
    Row,
};
use crate::field::{group_field_units, F128};
use crate::gadget::{
    computed, holds_past, lemma_computed_refl, lemma_computed_trans, lemma_mul_past,
    lemma_past_split, times,
};
use crate::relations::power;

verus! {

broadcast use {group_circuit, lemma_computed_trans};

/// An element of the quadratic extension, by its two coordinates.
#[derive(Clone, Copy, Debug, PartialEq, Eq, Structural)]
pub struct F256 {
    pub lo: F128,
    pub hi: F128,
}

/// The extension: its generator `u` satisfies `u^2 = trace * u + norm`.
#[derive(Clone, Copy, Debug, PartialEq, Eq, Structural)]
pub struct Extension {
    pub trace: F128,
    pub norm: F128,
}

impl F256 {
    pub open spec fn spec_zero() -> F256 {
        F256 { lo: F128::zero(), hi: F128::zero() }
    }

    pub open spec fn spec_one() -> F256 {
        F256 { lo: F128::one(), hi: F128::zero() }
    }

    #[verifier::when_used_as_spec(spec_zero)]
    pub fn zero() -> (r: F256)
        ensures
            r == F256::spec_zero(),
    {
        F256 { lo: F128::zero(), hi: F128::zero() }
    }

    #[verifier::when_used_as_spec(spec_one)]
    pub fn one() -> (r: F256)
        ensures
            r == F256::spec_one(),
    {
        F256 { lo: F128::one(), hi: F128::zero() }
    }

    /// An element of the field, in the extension.
    pub open spec fn of_base(x: F128) -> F256 {
        F256 { lo: x, hi: F128::zero() }
    }

    pub fn from_base(x: F128) -> (r: F256)
        ensures
            r == F256::of_base(x),
    {
        F256 { lo: x, hi: F128::zero() }
    }

    pub open spec fn plus(self, other: F256) -> F256 {
        F256 { lo: self.lo.plus(other.lo), hi: self.hi.plus(other.hi) }
    }

    pub open spec fn scaled(self, k: F128) -> F256 {
        F256 { lo: self.lo.times(k), hi: self.hi.times(k) }
    }

    pub fn add(self, other: F256) -> (r: F256)
        ensures
            r == self.plus(other),
    {
        F256 { lo: self.lo.add(other.lo), hi: self.hi.add(other.hi) }
    }

    pub fn scale_base(self, k: F128) -> (r: F256)
        ensures
            r == self.scaled(k),
    {
        F256 { lo: self.lo.mul(k), hi: self.hi.mul(k) }
    }
}

impl Extension {
    /// The product in the extension.
    pub open spec fn times(self, a: F256, b: F256) -> F256 {
        let h = a.hi.times(b.hi);
        F256 {
            lo: a.lo.times(b.lo).plus(h.times(self.norm)),
            hi: a.lo.times(b.hi).plus(a.hi.times(b.lo)).plus(h.times(self.trace)),
        }
    }

    pub fn mul(&self, a: F256, b: F256) -> (r: F256)
        ensures
            r == self.times(a, b),
    {
        let h = a.hi.mul(b.hi);
        F256 {
            lo: a.lo.mul(b.lo).add(h.mul(self.norm)),
            hi: a.lo.mul(b.hi).add(a.hi.mul(b.lo)).add(h.mul(self.trace)),
        }
    }

    pub open spec fn pow(self, x: F256, n: nat) -> F256
        decreases n,
    {
        if n == 0 {
            F256::one()
        } else {
            self.times(self.pow(x, (n - 1) as nat), x)
        }
    }
}

/// The first `n` powers.
pub open spec fn ext_powers(e: Extension, x: F256, n: nat) -> Seq<F256> {
    Seq::new(n, |i: int| e.pow(x, i as nat))
}

/// Products of base elements stay in the base.
pub proof fn lemma_base_times(e: Extension, x: F128, y: F128)
    ensures
        e.times(F256::of_base(x), F256::of_base(y)) == F256::of_base(x.times(y)),
{
    broadcast use group_field_units;

}

/// Powers of a base element are its powers in the base.
pub proof fn lemma_base_pow(e: Extension, x: F128, n: nat)
    ensures
        e.pow(F256::of_base(x), n) == F256::of_base(power(x, n)),
    decreases n,
{
    if n > 0 {
        lemma_base_pow(e, x, (n - 1) as nat);
        lemma_base_times(e, power(x, (n - 1) as nat), x);
    }
}

/// Multiplication commutes.
pub proof fn lemma_ext_comm(e: Extension, a: F256, b: F256)
    ensures
        e.times(a, b) == e.times(b, a),
{
    crate::field::lemma_times_comm(a.hi, b.hi);
    crate::field::lemma_times_comm(a.lo, b.lo);
    crate::field::lemma_times_comm(a.lo, b.hi);
    crate::field::lemma_times_comm(a.hi, b.lo);
    crate::field::lemma_plus_comm(a.lo.times(b.hi), a.hi.times(b.lo));
}

/// The first `n` powers.
pub fn power_table(e: &Extension, x: F256, n: usize) -> (r: Vec<F256>)
    ensures
        r@ == ext_powers(*e, x, n as nat),
{
    let mut r: Vec<F256> = Vec::new();
    let mut p = F256::one();
    while r.len() < n
        invariant
            r@.len() <= n,
            p == e.pow(x, r@.len()),
            forall|i: int| 0 <= i < r@.len() ==> #[trigger] r@[i] == e.pow(x, i as nat),
        decreases n - r@.len(),
    {
        r.push(p);
        p = e.mul(p, x);
    }
    assert(r@ =~= ext_powers(*e, x, n as nat));
    r
}

// ---------------------------------------------------------------------------
// Expressions
// ---------------------------------------------------------------------------

/// An expression in the extension.
#[derive(Debug)]
pub struct ExtExpr {
    pub lo: LinExpr,
    pub hi: LinExpr,
}

/// An expression in the extension.
pub struct ExtLin {
    pub lo: Lin,
    pub hi: Lin,
}

impl View for ExtExpr {
    type V = ExtLin;

    open spec fn view(&self) -> ExtLin {
        ExtLin { lo: self.lo@, hi: self.hi@ }
    }
}

impl ExtLin {
    pub open spec fn zero() -> ExtLin {
        ExtLin { lo: Lin::zero(), hi: Lin::zero() }
    }

    pub open spec fn one() -> ExtLin {
        ExtLin { lo: Lin::constant(F128::one()), hi: Lin::zero() }
    }

    pub open spec fn base(x: F128) -> ExtLin {
        ExtLin { lo: Lin::constant(x), hi: Lin::zero() }
    }

    pub open spec fn plus(self, other: ExtLin) -> ExtLin {
        ExtLin { lo: self.lo.plus(other.lo), hi: self.hi.plus(other.hi) }
    }

    pub open spec fn scaled(self, k: F128) -> ExtLin {
        ExtLin { lo: self.lo.scale(k), hi: self.hi.scale(k) }
    }

    pub open spec fn eval(self, z: Seq<F128>) -> F256 {
        F256 { lo: self.lo.eval(z), hi: self.hi.eval(z) }
    }

    pub open spec fn below(self, n: nat) -> bool {
        self.lo.below(n) && self.hi.below(n)
    }
}

impl ExtExpr {
    pub fn zero() -> (r: ExtExpr)
        ensures
            r@ == ExtLin::zero(),
    {
        ExtExpr { lo: LinExpr::zero(), hi: LinExpr::zero() }
    }

    pub fn one() -> (r: ExtExpr)
        ensures
            r@ == ExtLin::one(),
    {
        ExtExpr { lo: LinExpr::constant(F128::one()), hi: LinExpr::zero() }
    }

    pub fn base(x: F128) -> (r: ExtExpr)
        ensures
            r@ == ExtLin::base(x),
    {
        ExtExpr { lo: LinExpr::constant(x), hi: LinExpr::zero() }
    }

    pub fn dup(&self) -> (r: ExtExpr)
        ensures
            r@ == self@,
    {
        ExtExpr { lo: self.lo.dup(), hi: self.hi.dup() }
    }

    pub fn add(&self, other: &ExtExpr) -> (r: ExtExpr)
        ensures
            r@ == self@.plus(other@),
    {
        ExtExpr { lo: self.lo.add(&other.lo), hi: self.hi.add(&other.hi) }
    }

    pub fn scale_base(&self, k: F128) -> (r: ExtExpr)
        ensures
            r@ == self@.scaled(k),
    {
        ExtExpr { lo: self.lo.scale(k), hi: self.hi.scale(k) }
    }
}

pub open spec fn ext_lins(s: Seq<ExtExpr>) -> Seq<ExtLin> {
    Seq::new(s.len(), |i: int| s[i]@)
}

pub open spec fn ext_evals(s: Seq<ExtLin>, z: Seq<F128>) -> Seq<F256> {
    Seq::new(s.len(), |i: int| s[i].eval(z))
}

pub open spec fn ext_below(s: Seq<ExtLin>, n: nat) -> bool {
    forall|i: int| 0 <= i < s.len() ==> (#[trigger] s[i]).below(n)
}

/// The rows of a product in the extension, and its expression.
#[verifier::opaque]
pub open spec fn ext_mul_rows(c: Seq<Row>, e: Extension, x: ExtLin, y: ExtLin) -> (
    Seq<Row>,
    ExtLin,
) {
    let (c1, ll) = mul_rows(c, x.lo, y.lo);
    let (c2, lh) = mul_rows(c1, x.lo, y.hi);
    let (c3, hl) = mul_rows(c2, x.hi, y.lo);
    let (c4, hh) = mul_rows(c3, x.hi, y.hi);
    (
        c4,
        ExtLin {
            lo: ll.plus(hh.scale(e.norm)),
            hi: lh.plus(hl).plus(hh.scale(e.trace)),
        },
    )
}

pub proof fn lemma_ext_mul_past(
    c: Seq<Row>,
    e: Extension,
    x: ExtLin,
    y: ExtLin,
    z: Seq<F128>,
)
    ensures
        prefix(c, ext_mul_rows(c, e, x, y).0),
        holds_past(ext_mul_rows(c, e, x, y).0, c.len(), z) ==> ext_mul_rows(c, e, x, y).1.eval(z)
            == e.times(x.eval(z), y.eval(z)),
{
    broadcast use {lemma_prefix_trans, group_lin};

    reveal(ext_mul_rows);
    let (c1, ll) = mul_rows(c, x.lo, y.lo);
    let (c2, lh) = mul_rows(c1, x.lo, y.hi);
    let (c3, hl) = mul_rows(c2, x.hi, y.lo);
    let (c4, hh) = mul_rows(c3, x.hi, y.hi);
    lemma_mul_past(c, x.lo, y.lo, z);
    lemma_mul_past(c1, x.lo, y.hi, z);
    lemma_mul_past(c2, x.hi, y.lo, z);
    lemma_mul_past(c3, x.hi, y.hi, z);
    if holds_past(c4, c.len(), z) {
        lemma_past_split(c4, c1, c.len(), z);
        lemma_past_split(c4, c2, c1.len(), z);
        lemma_past_split(c4, c3, c2.len(), z);
    }
}

/// The product of two expressions in the extension.
pub fn mul_ext(b: &mut FieldR1csBuilder, e: &Extension, x: &ExtExpr, y: &ExtExpr) -> (r: ExtExpr)
    requires
        old(b)@.wf(),
        x@.below(old(b)@.rows.len()),
        y@.below(old(b)@.rows.len()),
    ensures
        (final(b)@.rows, r@) == ext_mul_rows(old(b)@.rows, *e, x@, y@),
        computed(old(b)@, final(b)@),
        r@.below(final(b)@.rows.len()),
{
    proof {
        reveal(ext_mul_rows);
    }
    let ll = times(b, &x.lo, &y.lo);
    let lh = times(b, &x.lo, &y.hi);
    let hl = times(b, &x.hi, &y.lo);
    let hh = times(b, &x.hi, &y.hi);
    ExtExpr { lo: ll.add(&hh.scale(e.norm)), hi: lh.add(&hl).add(&hh.scale(e.trace)) }
}

/// The rows of the first `n` powers, and their expressions.
pub open spec fn ext_ladder_rows(c: Seq<Row>, e: Extension, x: ExtLin, n: nat) -> (
    Seq<Row>,
    Seq<ExtLin>,
)
    decreases n,
{
    if n == 0 {
        (c, Seq::empty())
    } else {
        let (c1, table) = ext_ladder_rows(c, e, x, (n - 1) as nat);
        if n == 1 {
            (c1, table.push(ExtLin::one()))
        } else {
            let (c2, p) = ext_mul_rows(c1, e, table.last(), x);
            (c2, table.push(p))
        }
    }
}

pub proof fn lemma_ext_ladder_past(c: Seq<Row>, e: Extension, x: ExtLin, n: nat, z: Seq<F128>)
    ensures
        prefix(c, ext_ladder_rows(c, e, x, n).0),
        ext_ladder_rows(c, e, x, n).1.len() == n,
        holds_past(ext_ladder_rows(c, e, x, n).0, c.len(), z) ==> ext_evals(
            ext_ladder_rows(c, e, x, n).1,
            z,
        ) == ext_powers(e, x.eval(z), n),
    decreases n,
{
    broadcast use {lemma_prefix_trans, group_lin};

    if n > 0 {
        let m = (n - 1) as nat;
        let (c1, table) = ext_ladder_rows(c, e, x, m);
        lemma_ext_ladder_past(c, e, x, m, z);
        if n > 1 {
            lemma_ext_mul_past(c1, e, table.last(), x, z);
        }
        let (rows, now) = ext_ladder_rows(c, e, x, n);
        if holds_past(rows, c.len(), z) {
            lemma_past_split(rows, c1, c.len(), z);
            let want = ext_powers(e, x.eval(z), n);
            if n > 1 {
                assert(ext_evals(table, z)[n - 2] == ext_powers(e, x.eval(z), m)[n - 2]);
                assert(table.last().eval(z) == e.pow(x.eval(z), (n - 2) as nat));
            }
            assert(ext_evals(now, z) =~= want) by {
                assert forall|i: int| 0 <= i < n implies ext_evals(now, z)[i] == want[i] by {
                    if i < m {
                        assert(now[i] == table[i]);
                        assert(ext_evals(table, z)[i] == ext_powers(e, x.eval(z), m)[i]);
                    }
                }
            }
        }
    } else {
        assert(ext_evals(Seq::<ExtLin>::empty(), z) =~= ext_powers(e, x.eval(z), 0));
    }
}

/// The first `n` powers of an expression in the extension.
pub fn ext_power_ladder(b: &mut FieldR1csBuilder, e: &Extension, x: &ExtExpr, n: usize) -> (r: Vec<
    ExtExpr,
>)
    requires
        old(b)@.wf(),
        x@.below(old(b)@.rows.len()),
    ensures
        (final(b)@.rows, ext_lins(r@)) == ext_ladder_rows(old(b)@.rows, *e, x@, n as nat),
        r@.len() == n,
        computed(old(b)@, final(b)@),
        ext_below(ext_lins(r@), final(b)@.rows.len()),
{
    let ghost b0 = b@;
    let mut table: Vec<ExtExpr> = Vec::new();
    proof {
        lemma_computed_refl(b0);
        assert(ext_lins(table@) =~= Seq::empty());
    }
    while table.len() < n
        invariant
            table@.len() <= n,
            x@.below(b0.rows.len()),
            b@.wf(),
            computed(b0, b@),
            (b@.rows, ext_lins(table@)) == ext_ladder_rows(b0.rows, *e, x@, table@.len()),
            ext_below(ext_lins(table@), b@.rows.len()),
        decreases n - table@.len(),
    {
        let k: usize = table.len();
        let ghost before = b@;
        let ghost prior = table@;
        let next = if k == 0 {
            ExtExpr::one()
        } else {
            proof {
                assert(ext_lins(table@)[k - 1].below(b@.rows.len()));
                assert(ext_lins(table@).last() == table@[k - 1]@);
            }
            mul_ext(b, e, &table[k - 1], x)
        };
        table.push(next);
        proof {
            assert(ext_lins(table@) =~= ext_lins(prior).push(next@));
            assert forall|i: int| 0 <= i < table@.len() implies (#[trigger] ext_lins(
                table@,
            )[i]).below(b@.rows.len()) by {
                if i < k {
                    assert(ext_lins(prior)[i].below(before.rows.len()));
                }
            }
        }
    }
    table
}

} // verus!
