//! Sums of products, power ladders and equality indicators in the trace.

use vstd::prelude::*;
use vstd::arithmetic::power2::pow2;
use crate::bits::lemma_lins_index;
use crate::circuit::{
    all_below, group_circuit, group_lin, lemma_prefix_trans, lins, mul_rows, prefix,
    FieldR1csBuilder, Lin, LinExpr, Row,
};
use crate::field::{group_field_units, F128};
use crate::gadget::{
    computed, holds_past, lemma_computed_refl, lemma_computed_trans, lemma_mul_past,
    lemma_past_split, times,
};
use crate::multilinear::evals_at;
use crate::relations::power;

verus! {

broadcast use {group_circuit, lemma_computed_trans};

/// Every expression of a sequence is a sequence of expressions below `n`.
pub proof fn lemma_below_at(s: Seq<LinExpr>, n: nat, i: int)
    requires
        all_below(lins(s), n),
        0 <= i < s.len(),
    ensures
        s[i]@.below(n),
        lins(s)[i] == s[i]@,
{
    lemma_lins_index(s, i);
    assert(lins(s)[i].below(n));
}

pub proof fn lemma_below_push(s: Seq<LinExpr>, e: LinExpr, m: nat, n: nat)
    requires
        all_below(lins(s), m),
        m <= n,
        e@.below(n),
    ensures
        all_below(lins(s.push(e)), n),
        lins(s.push(e)) == lins(s).push(e@),
{
    let t = s.push(e);
    assert(lins(t) =~= lins(s).push(e@));
    assert forall|i: int| 0 <= i < t.len() implies (#[trigger] lins(t)[i]).below(n) by {
        if i < s.len() {
            assert(lins(t)[i] == lins(s)[i]);
            assert(lins(s)[i].below(m));
        }
    }
}

pub proof fn lemma_below_grow(s: Seq<Lin>, m: nat, n: nat)
    requires
        all_below(s, m),
        m <= n,
    ensures
        all_below(s, n),
{
    assert forall|i: int| 0 <= i < s.len() implies (#[trigger] s[i]).below(n) by {
        assert(s[i].below(m));
    }
}

pub proof fn lemma_empty_below(n: nat)
    ensures
        all_below(lins(Seq::<LinExpr>::empty()), n),
        lins(Seq::<LinExpr>::empty()) == Seq::<Lin>::empty(),
{
    assert(lins(Seq::<LinExpr>::empty()) =~= Seq::<Lin>::empty());
}

// ---------------------------------------------------------------------------
// Sums of products
// ---------------------------------------------------------------------------

/// The sum of the first `n` products.
pub open spec fn inner(a: Seq<F128>, b: Seq<F128>, n: nat) -> F128
    decreases n,
{
    if n == 0 {
        F128::zero()
    } else {
        inner(a, b, (n - 1) as nat).plus(a[n - 1].times(b[n - 1]))
    }
}

/// The rows of a sum of products, and its expression.
pub open spec fn inner_rows(c: Seq<Row>, a: Seq<Lin>, b: Seq<Lin>, n: nat) -> (Seq<Row>, Lin)
    decreases n,
{
    if n == 0 {
        (c, Lin::zero())
    } else {
        let (c1, sum) = inner_rows(c, a, b, (n - 1) as nat);
        let (c2, p) = mul_rows(c1, a[n - 1], b[n - 1]);
        (c2, sum.plus(p))
    }
}

pub proof fn lemma_inner_past(c: Seq<Row>, a: Seq<Lin>, b: Seq<Lin>, n: nat, z: Seq<F128>)
    requires
        n <= a.len(),
        n <= b.len(),
    ensures
        prefix(c, inner_rows(c, a, b, n).0),
        holds_past(inner_rows(c, a, b, n).0, c.len(), z) ==> inner_rows(c, a, b, n).1.eval(z)
            == inner(evals_at(a, z), evals_at(b, z), n),
    decreases n,
{
    broadcast use {lemma_prefix_trans, group_lin};

    if n > 0 {
        let (c1, sum) = inner_rows(c, a, b, (n - 1) as nat);
        lemma_inner_past(c, a, b, (n - 1) as nat, z);
        lemma_mul_past(c1, a[n - 1], b[n - 1], z);
        let rows = inner_rows(c, a, b, n).0;
        if holds_past(rows, c.len(), z) {
            lemma_past_split(rows, c1, c.len(), z);
        }
    }
}

/// The sum of products of as many expressions.
pub fn inner_product(b: &mut FieldR1csBuilder, x: &Vec<LinExpr>, y: &Vec<LinExpr>) -> (r: LinExpr)
    requires
        old(b)@.wf(),
        x@.len() == y@.len(),
        all_below(lins(x@), old(b)@.rows.len()),
        all_below(lins(y@), old(b)@.rows.len()),
    ensures
        (final(b)@.rows, r@) == inner_rows(old(b)@.rows, lins(x@), lins(y@), x@.len()),
        computed(old(b)@, final(b)@),
        r@.below(final(b)@.rows.len()),
{
    let ghost b0 = b@;
    let mut sum = LinExpr::zero();
    let mut i: usize = 0;
    proof {
        lemma_computed_refl(b0);
    }
    while i < x.len()
        invariant
            i <= x@.len(),
            x@.len() == y@.len(),
            all_below(lins(x@), b0.rows.len()),
            all_below(lins(y@), b0.rows.len()),
            b@.wf(),
            computed(b0, b@),
            (b@.rows, sum@) == inner_rows(b0.rows, lins(x@), lins(y@), i as nat),
            sum@.below(b@.rows.len()),
        decreases x@.len() - i,
    {
        proof {
            lemma_below_at(x@, b0.rows.len(), i as int);
            lemma_below_at(y@, b0.rows.len(), i as int);
        }
        let p = times(b, &x[i], &y[i]);
        sum = sum.add(&p);
        i += 1;
    }
    sum
}

// ---------------------------------------------------------------------------
// Powers
// ---------------------------------------------------------------------------

/// The rows of the first `n` powers, and their expressions.
pub open spec fn ladder_rows(c: Seq<Row>, x: Lin, n: nat) -> (Seq<Row>, Seq<Lin>)
    decreases n,
{
    if n == 0 {
        (c, Seq::empty())
    } else {
        let (c1, table) = ladder_rows(c, x, (n - 1) as nat);
        if n == 1 {
            (c1, table.push(Lin::constant(F128::one())))
        } else if n == 2 {
            (c1, table.push(x))
        } else {
            let (c2, p) = mul_rows(c1, table.last(), x);
            (c2, table.push(p))
        }
    }
}

pub proof fn lemma_ladder_past(c: Seq<Row>, x: Lin, n: nat, z: Seq<F128>)
    ensures
        prefix(c, ladder_rows(c, x, n).0),
        ladder_rows(c, x, n).1.len() == n,
        holds_past(ladder_rows(c, x, n).0, c.len(), z) ==> forall|i: int|
            0 <= i < n ==> (#[trigger] ladder_rows(c, x, n).1[i]).eval(z) == power(
                x.eval(z),
                i as nat,
            ),
    decreases n,
{
    broadcast use {lemma_prefix_trans, group_lin};

    if n > 0 {
        let (c1, table) = ladder_rows(c, x, (n - 1) as nat);
        lemma_ladder_past(c, x, (n - 1) as nat, z);
        let (rows, now) = ladder_rows(c, x, n);
        if n > 2 {
            lemma_mul_past(c1, table.last(), x, z);
        }
        if holds_past(rows, c.len(), z) {
            lemma_past_split(rows, c1, c.len(), z);
            if n == 2 {
                reveal_with_fuel(power, 2);
            }
            if n > 2 {
                assert(table.last() == table[n - 2]);
                assert(table[n - 2].eval(z) == power(x.eval(z), (n - 2) as nat));
            }
            assert forall|i: int| 0 <= i < n implies (#[trigger] now[i]).eval(z) == power(
                x.eval(z),
                i as nat,
            ) by {
                if i < n - 1 {
                    assert(now[i] == table[i]);
                }
            }
        }
    }
}

/// The first `n` powers of an expression.
pub fn power_ladder(b: &mut FieldR1csBuilder, x: &LinExpr, n: usize) -> (r: Vec<LinExpr>)
    requires
        old(b)@.wf(),
        x@.below(old(b)@.rows.len()),
    ensures
        (final(b)@.rows, lins(r@)) == ladder_rows(old(b)@.rows, x@, n as nat),
        r@.len() == n,
        computed(old(b)@, final(b)@),
        all_below(lins(r@), final(b)@.rows.len()),
{
    let ghost b0 = b@;
    let mut table: Vec<LinExpr> = Vec::new();
    proof {
        lemma_computed_refl(b0);
        lemma_empty_below(b0.rows.len());
    }
    while table.len() < n
        invariant
            table@.len() <= n,
            x@.below(b0.rows.len()),
            b@.wf(),
            computed(b0, b@),
            (b@.rows, lins(table@)) == ladder_rows(b0.rows, x@, table@.len()),
            all_below(lins(table@), b@.rows.len()),
        decreases n - table@.len(),
    {
        let k: usize = table.len();
        let ghost m = b@.rows.len();
        let next = if k == 0 {
            LinExpr::constant(F128::one())
        } else if k == 1 {
            x.dup()
        } else {
            proof {
                lemma_below_at(table@, b@.rows.len(), k - 1);
            }
            times(b, &table[k - 1], x)
        };
        proof {
            lemma_below_push(table@, next, m, b@.rows.len());
        }
        table.push(next);
    }
    table
}

// ---------------------------------------------------------------------------
// Equality indicators
// ---------------------------------------------------------------------------

/// The equality indicator of two points: the product of `1 + p + r`.
pub open spec fn equal_at(p: Seq<F128>, r: Seq<F128>, n: nat) -> F128
    decreases n,
{
    if n == 0 {
        F128::one()
    } else {
        equal_at(p, r, (n - 1) as nat).times(p[n - 1].plus(r[n - 1]).plus(F128::one()))
    }
}

pub open spec fn equal_rows(c: Seq<Row>, p: Seq<Lin>, r: Seq<Lin>, n: nat) -> (Seq<Row>, Lin)
    decreases n,
{
    if n == 0 {
        (c, Lin::constant(F128::one()))
    } else {
        let (c1, e) = equal_rows(c, p, r, (n - 1) as nat);
        mul_rows(c1, e, p[n - 1].plus(r[n - 1]).plus_const(F128::one()))
    }
}

pub proof fn lemma_equal_past(c: Seq<Row>, p: Seq<Lin>, r: Seq<Lin>, n: nat, z: Seq<F128>)
    requires
        n <= p.len(),
        n <= r.len(),
    ensures
        prefix(c, equal_rows(c, p, r, n).0),
        holds_past(equal_rows(c, p, r, n).0, c.len(), z) ==> equal_rows(c, p, r, n).1.eval(z)
            == equal_at(evals_at(p, z), evals_at(r, z), n),
    decreases n,
{
    broadcast use {lemma_prefix_trans, group_lin};

    if n > 0 {
        let (c1, e) = equal_rows(c, p, r, (n - 1) as nat);
        let f = p[n - 1].plus(r[n - 1]).plus_const(F128::one());
        lemma_equal_past(c, p, r, (n - 1) as nat, z);
        lemma_mul_past(c1, e, f, z);
        let rows = equal_rows(c, p, r, n).0;
        if holds_past(rows, c.len(), z) {
            lemma_past_split(rows, c1, c.len(), z);
        }
    }
}

/// On bits, the indicator tells whether the points agree.
pub proof fn lemma_equal_bits(p: Seq<F128>, r: Seq<F128>, n: nat)
    requires
        n <= p.len(),
        n <= r.len(),
        forall|i: int| 0 <= i < n ==> (#[trigger] p[i]).is_bit() && r[i].is_bit(),
    ensures
        equal_at(p, r, n) == F128::of_bool(forall|i: int| 0 <= i < n ==> p[i] == r[i]),
    decreases n,
{
    broadcast use {group_field_units, crate::field::lemma_plus_is_zero};

    if n > 0 {
        let m = (n - 1) as nat;
        lemma_equal_bits(p, r, m);
        assert(p[n - 1].is_bit() && r[n - 1].is_bit());
        if p[n - 1] == r[n - 1] {
            assert((forall|i: int| 0 <= i < n ==> p[i] == r[i]) <==> (forall|i: int|
                0 <= i < m ==> p[i] == r[i]));
        } else {
            assert(p[n - 1].plus(r[n - 1]) == F128::one());
        }
    }
}

/// The equality indicator of two points of expressions.
pub fn eq_ind_trace(b: &mut FieldR1csBuilder, p: &Vec<LinExpr>, r: &Vec<LinExpr>) -> (e: LinExpr)
    requires
        old(b)@.wf(),
        p@.len() == r@.len(),
        all_below(lins(p@), old(b)@.rows.len()),
        all_below(lins(r@), old(b)@.rows.len()),
    ensures
        (final(b)@.rows, e@) == equal_rows(old(b)@.rows, lins(p@), lins(r@), p@.len()),
        computed(old(b)@, final(b)@),
        e@.below(final(b)@.rows.len()),
{
    let ghost b0 = b@;
    let mut e = LinExpr::constant(F128::one());
    let mut i: usize = 0;
    proof {
        lemma_computed_refl(b0);
    }
    while i < p.len()
        invariant
            i <= p@.len(),
            p@.len() == r@.len(),
            all_below(lins(p@), b0.rows.len()),
            all_below(lins(r@), b0.rows.len()),
            b@.wf(),
            computed(b0, b@),
            (b@.rows, e@) == equal_rows(b0.rows, lins(p@), lins(r@), i as nat),
            e@.below(b@.rows.len()),
        decreases p@.len() - i,
    {
        proof {
            lemma_below_at(p@, b0.rows.len(), i as int);
            lemma_below_at(r@, b0.rows.len(), i as int);
        }
        let f = p[i].add(&r[i]).add_const(F128::one());
        e = times(b, &e, &f);
        i += 1;
    }
    e
}

/// A boolean point, by the digits of its index.
pub open spec fn index_point(index: nat, n: nat) -> Seq<F128> {
    Seq::new(n, |i: int| F128::of_bool(crate::bits::nat_bit(index, i as nat)))
}

/// The equality indicator of a boolean point.
pub open spec fn index_rows(c: Seq<Row>, index: nat, r: Seq<Lin>, n: nat) -> (Seq<Row>, Lin)
    decreases n,
{
    if n == 0 {
        (c, Lin::constant(F128::one()))
    } else {
        let (c1, e) = index_rows(c, index, r, (n - 1) as nat);
        mul_rows(
            c1,
            e,
            if crate::bits::nat_bit(index, (n - 1) as nat) {
                r[n - 1]
            } else {
                r[n - 1].plus_const(F128::one())
            },
        )
    }
}

pub proof fn lemma_index_past(c: Seq<Row>, index: nat, r: Seq<Lin>, n: nat, z: Seq<F128>)
    requires
        n <= r.len(),
    ensures
        prefix(c, index_rows(c, index, r, n).0),
        holds_past(index_rows(c, index, r, n).0, c.len(), z) ==> index_rows(
            c,
            index,
            r,
            n,
        ).1.eval(z) == equal_at(index_point(index, r.len()), evals_at(r, z), n),
    decreases n,
{
    broadcast use {lemma_prefix_trans, group_lin, crate::field::lemma_plus_is_zero};

    if n > 0 {
        let (c1, e) = index_rows(c, index, r, (n - 1) as nat);
        let bit = crate::bits::nat_bit(index, (n - 1) as nat);
        let f = if bit {
            r[n - 1]
        } else {
            r[n - 1].plus_const(F128::one())
        };
        lemma_index_past(c, index, r, (n - 1) as nat, z);
        lemma_mul_past(c1, e, f, z);
        let rows = index_rows(c, index, r, n).0;
        if holds_past(rows, c.len(), z) {
            lemma_past_split(rows, c1, c.len(), z);
            let x = r[n - 1].eval(z);
            assert(index_point(index, r.len())[n - 1] == F128::of_bool(bit));
            if bit {
                crate::field::lemma_plus_comm(F128::one(), x);
            }
            assert(f.eval(z) == F128::of_bool(bit).plus(x).plus(F128::one()));
        }
    }
}

/// The equality indicator of a boolean point and a point of expressions.
pub fn index_eq_trace(b: &mut FieldR1csBuilder, index: usize, r: &Vec<LinExpr>) -> (e: LinExpr)
    requires
        old(b)@.wf(),
        r@.len() <= 128,
        all_below(lins(r@), old(b)@.rows.len()),
    ensures
        (final(b)@.rows, e@) == index_rows(old(b)@.rows, index as nat, lins(r@), r@.len()),
        computed(old(b)@, final(b)@),
        e@.below(final(b)@.rows.len()),
{
    let ghost b0 = b@;
    let mut e = LinExpr::constant(F128::one());
    let mut i: usize = 0;
    proof {
        lemma_computed_refl(b0);
    }
    while i < r.len()
        invariant
            i <= r@.len(),
            r@.len() <= 128,
            all_below(lins(r@), b0.rows.len()),
            b@.wf(),
            computed(b0, b@),
            (b@.rows, e@) == index_rows(b0.rows, index as nat, lins(r@), i as nat),
            e@.below(b@.rows.len()),
        decreases r@.len() - i,
    {
        proof {
            lemma_below_at(r@, b0.rows.len(), i as int);
        }
        let f = if crate::bits::digit(index as u128, i) {
            r[i].dup()
        } else {
            r[i].add_const(F128::one())
        };
        e = times(b, &e, &f);
        i += 1;
    }
    e
}

// ---------------------------------------------------------------------------
// Tensors
// ---------------------------------------------------------------------------

/// The equality indicators of every boolean point, by index.
pub open spec fn tensor(r: Seq<F128>, n: nat) -> Seq<F128>
    decreases n,
{
    if n == 0 {
        seq![F128::one()]
    } else {
        let t = tensor(r, (n - 1) as nat);
        Seq::new(t.len(), |i: int| t[i].plus(t[i].times(r[n - 1]))) + Seq::new(
            t.len(),
            |i: int| t[i].times(r[n - 1]),
        )
    }
}

pub proof fn lemma_tensor_len(r: Seq<F128>, n: nat)
    ensures
        tensor(r, n).len() == pow2(n),
    decreases n,
{
    vstd::arithmetic::power2::lemma2_to64();
    if n > 0 {
        lemma_tensor_len(r, (n - 1) as nat);
        vstd::arithmetic::power2::lemma_pow2_unfold(n);
    }
}

proof fn lemma_index_agrees(a: nat, b: nat, r: Seq<F128>, m: nat, n: nat)
    requires
        n <= m,
        forall|k: nat| k < n ==> crate::bits::nat_bit(a, k) == #[trigger] crate::bits::nat_bit(b, k),
    ensures
        equal_at(index_point(a, m), r, n) == equal_at(index_point(b, m), r, n),
    decreases n,
{
    if n > 0 {
        lemma_index_agrees(a, b, r, m, (n - 1) as nat);
        assert(crate::bits::nat_bit(a, (n - 1) as nat) == crate::bits::nat_bit(b, (n - 1) as nat));
    }
}

/// Digits below the top one of an index.
proof fn lemma_top_index(i: nat, n: nat)
    requires
        n > 0,
        i < pow2(n),
    ensures
        crate::bits::nat_bit(i, (n - 1) as nat) == (i >= pow2((n - 1) as nat)),
        i >= pow2((n - 1) as nat) ==> forall|k: nat|
            k < n - 1 ==> #[trigger] crate::bits::nat_bit(i, k) == crate::bits::nat_bit(
                (i - pow2((n - 1) as nat)) as nat,
                k,
            ),
{
    let m = (n - 1) as nat;
    let p = pow2(m) as int;
    vstd::arithmetic::power2::lemma_pow2_unfold(n);
    vstd::arithmetic::power2::lemma_pow2_pos(m);
    if i >= p {
        vstd::arithmetic::div_mod::lemma_fundamental_div_mod_converse(i as int, p, 1, i - p);
        assert forall|k: nat| k < m implies #[trigger] crate::bits::nat_bit(i, k)
            == crate::bits::nat_bit((i - p) as nat, k) by {
            let q = pow2(k) as int;
            let s = pow2((m - k) as nat) as int;
            vstd::arithmetic::power2::lemma_pow2_pos(k);
            vstd::arithmetic::power2::lemma_pow2_adds(k, (m - k) as nat);
            vstd::arithmetic::power2::lemma_pow2_unfold((m - k) as nat);
            let h = pow2((m - k - 1) as nat) as int;
            assert(p == q * s);
            assert(s == 2 * h);
            assert((i as int) == q * s + (i - p));
            vstd::arithmetic::div_mod::lemma_hoist_over_denominator(i - p, s, q as nat);
            assert((i as int) / q == (i - p) / q + s) by {
                assert((i - p) + s * q == i as int) by (nonlinear_arith)
                    requires
                        p == q * s,
                ;
            }
            assert(((i - p) / q + 2 * h) % 2 == ((i - p) / q) % 2);
        }
    } else {
        vstd::arithmetic::div_mod::lemma_basic_div(i as int, p);
    }
}

/// An entry of the tensor is the equality indicator of its index.
pub proof fn lemma_tensor_index(r: Seq<F128>, n: nat, i: int)
    requires
        n <= r.len(),
        0 <= i < pow2(n),
    ensures
        tensor(r, n).len() == pow2(n),
        tensor(r, n)[i] == equal_at(index_point(i as nat, r.len()), r, n),
    decreases n,
{
    broadcast use {group_field_units, crate::field::lemma_plus_is_zero};

    vstd::arithmetic::power2::lemma2_to64();
    lemma_tensor_len(r, n);
    if n > 0 {
        let m = (n - 1) as nat;
        let t = tensor(r, m);
        lemma_tensor_len(r, m);
        vstd::arithmetic::power2::lemma_pow2_unfold(n);
        lemma_top_index(i as nat, n);
        let x = r[n - 1];
        let half = pow2(m) as int;
        if i < half {
            lemma_tensor_index(r, m, i);
            crate::field::lemma_times_plus(t[i], x, F128::one());
            crate::field::lemma_plus_comm(t[i].times(x), t[i]);
        } else {
            let j = (i - half) as nat;
            lemma_tensor_index(r, m, j as int);
            lemma_index_agrees(i as nat, j, r, r.len(), m);
            crate::field::lemma_plus_comm(F128::one(), x);
        }
    }
}

/// The products of the first `n` entries with an expression.
pub open spec fn scaled_rows(c: Seq<Row>, t: Seq<Lin>, x: Lin, n: nat) -> (Seq<Row>, Seq<Lin>)
    decreases n,
{
    if n == 0 {
        (c, Seq::empty())
    } else {
        let (c1, out) = scaled_rows(c, t, x, (n - 1) as nat);
        let (c2, p) = mul_rows(c1, t[n - 1], x);
        (c2, out.push(p))
    }
}

/// The rows of a tensor, and its entries.
pub open spec fn tensor_rows(c: Seq<Row>, r: Seq<Lin>, n: nat) -> (Seq<Row>, Seq<Lin>)
    decreases n,
{
    if n == 0 {
        (c, seq![Lin::constant(F128::one())])
    } else {
        let (c1, t) = tensor_rows(c, r, (n - 1) as nat);
        let (c2, high) = scaled_rows(c1, t, r[n - 1], t.len());
        (c2, Seq::new(t.len(), |i: int| t[i].plus(high[i])) + high)
    }
}

proof fn lemma_scaled_past(c: Seq<Row>, t: Seq<Lin>, x: Lin, n: nat, z: Seq<F128>)
    requires
        n <= t.len(),
    ensures
        prefix(c, scaled_rows(c, t, x, n).0),
        scaled_rows(c, t, x, n).1.len() == n,
        holds_past(scaled_rows(c, t, x, n).0, c.len(), z) ==> forall|i: int|
            0 <= i < n ==> (#[trigger] scaled_rows(c, t, x, n).1[i]).eval(z) == t[i].eval(z).times(
                x.eval(z),
            ),
    decreases n,
{
    broadcast use lemma_prefix_trans;

    if n > 0 {
        let m = (n - 1) as nat;
        let (c1, out) = scaled_rows(c, t, x, m);
        lemma_scaled_past(c, t, x, m, z);
        lemma_mul_past(c1, t[n - 1], x, z);
        let (c2, now) = scaled_rows(c, t, x, n);
        if holds_past(c2, c.len(), z) {
            lemma_past_split(c2, c1, c.len(), z);
            assert forall|i: int| 0 <= i < n implies (#[trigger] now[i]).eval(z) == t[i].eval(
                z,
            ).times(x.eval(z)) by {
                if i < m {
                    assert(now[i] == out[i]);
                }
            }
        }
    }
}

/// The entries of the tensor in the trace are those of the tensor.
pub proof fn lemma_tensor_past(c: Seq<Row>, r: Seq<Lin>, n: nat, z: Seq<F128>)
    requires
        n <= r.len(),
    ensures
        prefix(c, tensor_rows(c, r, n).0),
        tensor_rows(c, r, n).1.len() == pow2(n),
        holds_past(tensor_rows(c, r, n).0, c.len(), z) ==> evals_at(tensor_rows(c, r, n).1, z)
            == tensor(evals_at(r, z), n),
    decreases n,
{
    broadcast use {lemma_prefix_trans, group_lin};

    vstd::arithmetic::power2::lemma2_to64();
    if n > 0 {
        let m = (n - 1) as nat;
        vstd::arithmetic::power2::lemma_pow2_unfold(n);
        let (c1, t) = tensor_rows(c, r, m);
        lemma_tensor_past(c, r, m, z);
        lemma_scaled_past(c1, t, r[n - 1], t.len(), z);
        let (c2, high) = scaled_rows(c1, t, r[n - 1], t.len());
        let now = tensor_rows(c, r, n).1;
        if holds_past(c2, c.len(), z) {
            lemma_past_split(c2, c1, c.len(), z);
            let want = tensor(evals_at(r, z), n);
            let before = tensor(evals_at(r, z), m);
            assert(evals_at(t, z) == before);
            assert(evals_at(now, z) =~= want) by {
                assert forall|i: int| 0 <= i < now.len() implies evals_at(now, z)[i]
                    == want[i] by {
                    let k = if i < t.len() {
                        i
                    } else {
                        i - t.len()
                    };
                    assert(evals_at(t, z)[k] == before[k]);
                    assert(high[k].eval(z) == t[k].eval(z).times(r[n - 1].eval(z)));
                }
            }
        }
    } else {
        assert(evals_at(tensor_rows(c, r, 0).1, z) =~= tensor(evals_at(r, z), 0));
    }
}

/// The tensor of a point.
pub fn eq_ind_partial_eval_trace(b: &mut FieldR1csBuilder, r: &Vec<LinExpr>) -> (t: Vec<LinExpr>)
    requires
        old(b)@.wf(),
        pow2(r@.len()) <= usize::MAX,
        all_below(lins(r@), old(b)@.rows.len()),
    ensures
        (final(b)@.rows, lins(t@)) == tensor_rows(old(b)@.rows, lins(r@), r@.len()),
        t@.len() == pow2(r@.len()),
        computed(old(b)@, final(b)@),
        all_below(lins(t@), final(b)@.rows.len()),
{
    let ghost b0 = b@;
    let ghost rl = lins(r@);
    let mut t: Vec<LinExpr> = vec![LinExpr::constant(F128::one())];
    let mut k: usize = 0;
    proof {
        lemma_computed_refl(b0);
        vstd::arithmetic::power2::lemma2_to64();
        assert(lins(t@) =~= seq![Lin::constant(F128::one())]);
    }
    while k < r.len()
        invariant
            k <= r@.len(),
            pow2(r@.len()) <= usize::MAX,
            rl == lins(r@),
            all_below(rl, b0.rows.len()),
            b@.wf(),
            computed(b0, b@),
            t@.len() == pow2(k as nat),
            all_below(lins(t@), b@.rows.len()),
            (b@.rows, lins(t@)) == tensor_rows(b0.rows, rl, k as nat),
        decreases r@.len() - k,
    {
        let ghost b1 = b@;
        let ghost tl = lins(t@);
        let half: usize = t.len();
        let mut high: Vec<LinExpr> = Vec::new();
        proof {
            lemma_below_at(r@, b0.rows.len(), k as int);
            lemma_computed_refl(b1);
            lemma_empty_below(b1.rows.len());
            vstd::arithmetic::power2::lemma_pow2_unfold((k + 1) as nat);
            crate::bits::lemma_pow2_bound((k + 1) as nat, r@.len());
        }
        while high.len() < half
            invariant
                high@.len() <= half,
                half == t@.len(),
                tl == lins(t@),
                all_below(tl, b1.rows.len()),
                k < r@.len(),
                rl == lins(r@),
                r@[k as int]@ == rl[k as int],
                r@[k as int]@.below(b1.rows.len()),
                b@.wf(),
                computed(b1, b@),
                all_below(lins(high@), b@.rows.len()),
                (b@.rows, lins(high@)) == scaled_rows(b1.rows, tl, rl[k as int], high@.len()),
            decreases half - high@.len(),
        {
            let i: usize = high.len();
            let ghost m = b@.rows.len();
            proof {
                lemma_below_at(t@, b1.rows.len(), i as int);
            }
            let p = times(b, &t[i], &r[k]);
            proof {
                lemma_below_push(high@, p, m, b@.rows.len());
            }
            high.push(p);
        }
        let ghost hl = lins(high@);
        let mut next: Vec<LinExpr> = Vec::new();
        let mut i: usize = 0;
        while i < half
            invariant
                i <= half,
                half == t@.len(),
                high@.len() == half,
                tl == lins(t@),
                hl == lins(high@),
                all_below(tl, b1.rows.len()),
                b1.rows.len() <= b@.rows.len(),
                all_below(hl, b@.rows.len()),
                next@.len() == i,
                forall|j: int|
                    0 <= j < i ==> (#[trigger] next@[j])@ == tl[j].plus(hl[j])
                        && next@[j]@.below(b@.rows.len()),
            decreases half - i,
        {
            proof {
                lemma_below_at(t@, b1.rows.len(), i as int);
                lemma_below_at(high@, b@.rows.len(), i as int);
            }
            next.push(t[i].add(&high[i]));
            i += 1;
        }
        let ghost low = next@;
        next.append(&mut high);
        proof {
            let want = Seq::new(tl.len(), |j: int| tl[j].plus(hl[j])) + hl;
            assert(lins(next@) =~= want) by {
                assert forall|j: int| 0 <= j < next@.len() implies lins(next@)[j] == want[j] by {
                    if j < half {
                        assert(next@[j] == low[j]);
                    } else {
                        assert(lins(next@)[j] == hl[j - half]);
                    }
                }
            }
            assert forall|j: int| 0 <= j < next@.len() implies (#[trigger] lins(next@)[j]).below(
                b@.rows.len(),
            ) by {
                if j < half {
                    assert(next@[j] == low[j]);
                    assert(low[j]@.below(b@.rows.len()));
                } else {
                    assert(lins(next@)[j] == hl[j - half]);
                    assert(hl[j - half].below(b@.rows.len()));
                }
            }
        }
        t = next;
        k += 1;
    }
    t
}

} // verus!
