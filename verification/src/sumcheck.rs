//! Sums over the boolean cube, and why an honest sumcheck closes.
//!
//! A sumcheck fixes the last variable first. Its claim before a round is the sum
//! over the variables that are left; an honest message is that sum as a polynomial
//! in the variable that the round fixes.

use vstd::prelude::*;
use vstd::arithmetic::power2::{lemma_pow2_unfold, pow2};
use crate::batch_eval::reversed;
use crate::eval_gadgets::{equal_at, inner, lemma_tensor_len, tensor};
use crate::field::{
    group_field_units, lemma_plus_assoc, lemma_plus_comm, lemma_plus_is_zero, lemma_plus_swap,
    lemma_times_assoc, lemma_times_comm, lemma_times_plus, F128,
};
use crate::multilinear::{folded, lemma_mle_folded, mle};
use crate::round_poly::{completed, poly_at, poly_claim, tail_sum};

verus! {

// ---------------------------------------------------------------------------
// Polynomials
// ---------------------------------------------------------------------------

/// `(a + b) w` is `a w + b w`.
pub proof fn lemma_plus_times(a: F128, b: F128, w: F128)
    ensures
        a.plus(b).times(w) == a.times(w).plus(b.times(w)),
{
    lemma_times_comm(a.plus(b), w);
    lemma_times_plus(w, a, b);
    lemma_times_comm(w, a);
    lemma_times_comm(w, b);
}

/// The coefficients of a sum.
pub proof fn lemma_poly_sum(c: Seq<F128>, e: Seq<F128>) -> (k: Seq<F128>)
    requires
        c.len() == e.len(),
        c.len() >= 1,
    ensures
        k.len() == c.len(),
        forall|x: F128| #[trigger] poly_at(k, x) == poly_at(c, x).plus(poly_at(e, x)),
    decreases c.len(),
{
    if c.len() == 1 {
        seq![c[0].plus(e[0])]
    } else {
        let rest = lemma_poly_sum(c.skip(1), e.skip(1));
        let k = seq![c[0].plus(e[0])] + rest;
        assert(k.skip(1) =~= rest);
        assert forall|x: F128| #[trigger] poly_at(k, x) == poly_at(c, x).plus(poly_at(e, x)) by {
            let (p, q) = (poly_at(c.skip(1), x), poly_at(e.skip(1), x));
            assert(poly_at(rest, x) == p.plus(q));
            lemma_plus_times(p, q, x);
            lemma_plus_swap(c[0], e[0], p.times(x), q.times(x));
        }
        k
    }
}

/// Coefficients with zeros added at the end.
pub proof fn lemma_poly_pad(c: Seq<F128>, n: nat) -> (k: Seq<F128>)
    requires
        1 <= c.len() <= n,
    ensures
        k.len() == n,
        forall|x: F128| #[trigger] poly_at(k, x) == poly_at(c, x),
    decreases n - c.len(),
{
    if c.len() == n {
        c
    } else {
        let more = c.push(F128::zero());
        lemma_poly_push_zero(c);
        lemma_poly_pad(more, n)
    }
}

proof fn lemma_poly_push_zero(c: Seq<F128>)
    requires
        c.len() >= 1,
    ensures
        forall|x: F128| #[trigger] poly_at(c.push(F128::zero()), x) == poly_at(c, x),
    decreases c.len(),
{
    broadcast use group_field_units;

    let more = c.push(F128::zero());
    if c.len() == 1 {
        assert(more.skip(1) =~= seq![F128::zero()]);
        assert forall|x: F128| #[trigger] poly_at(more, x) == poly_at(c, x) by {
            assert(poly_at(more.skip(1), x) == F128::zero());
        }
    } else {
        lemma_poly_push_zero(c.skip(1));
        assert(more.skip(1) =~= c.skip(1).push(F128::zero()));
        assert forall|x: F128| #[trigger] poly_at(more, x) == poly_at(c, x) by {
            assert(poly_at(c.skip(1).push(F128::zero()), x) == poly_at(c.skip(1), x));
        }
    }
}

/// The coefficients of a multiple.
pub proof fn lemma_poly_scale(c: Seq<F128>, w: F128) -> (k: Seq<F128>)
    requires
        c.len() >= 1,
    ensures
        k.len() == c.len(),
        forall|x: F128| #[trigger] poly_at(k, x) == w.times(poly_at(c, x)),
    decreases c.len(),
{
    if c.len() == 1 {
        seq![w.times(c[0])]
    } else {
        let rest = lemma_poly_scale(c.skip(1), w);
        let k = seq![w.times(c[0])] + rest;
        assert(k.skip(1) =~= rest);
        assert forall|x: F128| #[trigger] poly_at(k, x) == w.times(poly_at(c, x)) by {
            let p = poly_at(c.skip(1), x);
            assert(poly_at(rest, x) == w.times(p));
            lemma_times_assoc(w, p, x);
            lemma_times_plus(w, c[0], p.times(x));
        }
        k
    }
}

/// The coefficients of a product.
pub proof fn lemma_poly_times(c: Seq<F128>, e: Seq<F128>) -> (k: Seq<F128>)
    requires
        c.len() >= 1,
        e.len() >= 1,
    ensures
        k.len() == c.len() + e.len() - 1,
        forall|x: F128| #[trigger] poly_at(k, x) == poly_at(c, x).times(poly_at(e, x)),
    decreases c.len(),
{
    broadcast use group_field_units;

    let first = lemma_poly_scale(e, c[0]);
    if c.len() == 1 {
        first
    } else {
        let rest = lemma_poly_times(c.skip(1), e);
        let moved = seq![F128::zero()] + rest;
        assert(moved.skip(1) =~= rest);
        let wide = lemma_poly_pad(first, moved.len());
        let k = lemma_poly_sum(wide, moved);
        assert forall|x: F128| #[trigger] poly_at(k, x) == poly_at(c, x).times(poly_at(e, x)) by {
            let (p, q) = (poly_at(c.skip(1), x), poly_at(e, x));
            assert(poly_at(moved, x) == p.times(q).times(x)) by {
                assert(poly_at(rest, x) == p.times(q));
            }
            assert(poly_at(wide, x) == poly_at(first, x));
            lemma_plus_times(c[0], p.times(x), q);
            lemma_times_assoc(p, x, q);
            lemma_times_comm(x, q);
            lemma_times_assoc(p, q, x);
        }
        k
    }
}

/// A function of one variable is a polynomial of degree at most `d`.
pub open spec fn is_poly(g: spec_fn(F128) -> F128, d: nat) -> bool {
    exists|c: Seq<F128>| #[trigger] gives(c, g, d)
}

pub open spec fn gives(c: Seq<F128>, g: spec_fn(F128) -> F128, d: nat) -> bool {
    c.len() == d + 1 && forall|x: F128| #[trigger] g(x) == poly_at(c, x)
}

pub proof fn lemma_is_sum(
    f: spec_fn(F128) -> F128,
    g: spec_fn(F128) -> F128,
    h: spec_fn(F128) -> F128,
    d: nat,
)
    requires
        is_poly(f, d),
        is_poly(g, d),
        forall|x: F128| #[trigger] h(x) == f(x).plus(g(x)),
    ensures
        is_poly(h, d),
{
    let c = choose|c: Seq<F128>| #[trigger] gives(c, f, d);
    let e = choose|c: Seq<F128>| #[trigger] gives(c, g, d);
    let k = lemma_poly_sum(c, e);
    assert(gives(k, h, d)) by {
        assert forall|x: F128| #[trigger] h(x) == poly_at(k, x) by {
            assert(f(x) == poly_at(c, x) && g(x) == poly_at(e, x));
        }
    }
}

pub proof fn lemma_is_product(
    f: spec_fn(F128) -> F128,
    g: spec_fn(F128) -> F128,
    h: spec_fn(F128) -> F128,
    a: nat,
    b: nat,
)
    requires
        is_poly(f, a),
        is_poly(g, b),
        forall|x: F128| #[trigger] h(x) == f(x).times(g(x)),
    ensures
        is_poly(h, a + b),
{
    let c = choose|c: Seq<F128>| #[trigger] gives(c, f, a);
    let e = choose|c: Seq<F128>| #[trigger] gives(c, g, b);
    let k = lemma_poly_times(c, e);
    assert(gives(k, h, a + b)) by {
        assert forall|x: F128| #[trigger] h(x) == poly_at(k, x) by {
            assert(f(x) == poly_at(c, x) && g(x) == poly_at(e, x));
        }
    }
}

pub proof fn lemma_is_wider(f: spec_fn(F128) -> F128, a: nat, b: nat)
    requires
        is_poly(f, a),
        a <= b,
    ensures
        is_poly(f, b),
{
    let c = choose|c: Seq<F128>| #[trigger] gives(c, f, a);
    let k = lemma_poly_pad(c, b + 1);
    assert(gives(k, f, b)) by {
        assert forall|x: F128| #[trigger] f(x) == poly_at(k, x) by {
            assert(f(x) == poly_at(c, x));
        }
    }
}

// ---------------------------------------------------------------------------
// Functions of many variables
// ---------------------------------------------------------------------------

pub open spec fn joined(a: Seq<F128>, x: F128, b: Seq<F128>) -> Seq<F128> {
    a + seq![x] + b
}

/// A function along one axis.
pub open spec fn along(f: spec_fn(Seq<F128>) -> F128, a: Seq<F128>, b: Seq<F128>) -> spec_fn(
    F128,
) -> F128 {
    |x: F128| f(joined(a, x, b))
}

/// Along every axis a function of `n` variables is a polynomial of degree at most
/// `d`.
pub open spec fn degree(f: spec_fn(Seq<F128>) -> F128, n: nat, d: nat) -> bool {
    forall|a: Seq<F128>, b: Seq<F128>|
        a.len() + 1 + b.len() == n ==> is_poly(#[trigger] along(f, a, b), d)
}

/// Along an axis a function is `u + v x`.
pub open spec fn lines(
    f: spec_fn(Seq<F128>) -> F128,
    a: Seq<F128>,
    b: Seq<F128>,
    u: F128,
    v: F128,
) -> bool {
    forall|x: F128| f(#[trigger] joined(a, x, b)) == u.plus(v.times(x))
}

pub open spec fn axis(
    f: spec_fn(Seq<F128>) -> F128,
    a: Seq<F128>,
    b: Seq<F128>,
    lo: int,
    hi: int,
) -> bool {
    exists|u: F128, v: F128| #[trigger]
        lines(f, a, b, u, v) && (lo <= a.len() < hi || v == F128::zero())
}

/// A function of `n` variables that is affine in each of the variables from `lo` to
/// `hi`, and does not depend on the others.
pub open spec fn affine(f: spec_fn(Seq<F128>) -> F128, n: nat, lo: int, hi: int) -> bool {
    forall|a: Seq<F128>, b: Seq<F128>|
        a.len() + 1 + b.len() == n ==> #[trigger] axis(f, a, b, lo, hi)
}

pub proof fn lemma_affine_same(
    f: spec_fn(Seq<F128>) -> F128,
    g: spec_fn(Seq<F128>) -> F128,
    n: nat,
    lo: int,
    hi: int,
)
    requires
        affine(f, n, lo, hi),
        forall|x: Seq<F128>| x.len() == n ==> #[trigger] g(x) == f(x),
    ensures
        affine(g, n, lo, hi),
{
    assert forall|a: Seq<F128>, b: Seq<F128>| a.len() + 1 + b.len() == n implies #[trigger] axis(
        g,
        a,
        b,
        lo,
        hi,
    ) by {
        assert(axis(f, a, b, lo, hi));
        let (u, v) = choose|u: F128, v: F128| #[trigger]
            lines(f, a, b, u, v) && (lo <= a.len() < hi || v == F128::zero());
        assert(lines(g, a, b, u, v)) by {
            assert forall|x: F128| g(#[trigger] joined(a, x, b)) == u.plus(v.times(x)) by {
                assert(joined(a, x, b).len() == n);
                assert(g(joined(a, x, b)) == f(joined(a, x, b)));
            }
        }
    }
}

pub proof fn lemma_affine_wider(
    f: spec_fn(Seq<F128>) -> F128,
    n: nat,
    lo: int,
    hi: int,
    low: int,
    high: int,
)
    requires
        affine(f, n, lo, hi),
        low <= lo,
        hi <= high,
    ensures
        affine(f, n, low, high),
{
    assert forall|a: Seq<F128>, b: Seq<F128>| a.len() + 1 + b.len() == n implies #[trigger] axis(
        f,
        a,
        b,
        low,
        high,
    ) by {
        assert(axis(f, a, b, lo, hi));
        let (u, v) = choose|u: F128, v: F128| #[trigger]
            lines(f, a, b, u, v) && (lo <= a.len() < hi || v == F128::zero());
        assert(lines(f, a, b, u, v));
    }
}

/// A constant.
pub proof fn lemma_affine_constant(f: spec_fn(Seq<F128>) -> F128, n: nat, k: F128, lo: int)
    requires
        forall|x: Seq<F128>| x.len() == n ==> #[trigger] f(x) == k,
    ensures
        affine(f, n, lo, lo),
{
    broadcast use group_field_units;

    assert forall|a: Seq<F128>, b: Seq<F128>| a.len() + 1 + b.len() == n implies #[trigger] axis(
        f,
        a,
        b,
        lo,
        lo,
    ) by {
        assert(lines(f, a, b, k, F128::zero())) by {
            assert forall|x: F128| f(#[trigger] joined(a, x, b)) == k.plus(
                F128::zero().times(x),
            ) by {
                assert(joined(a, x, b).len() == n);
            }
        }
    }
}

/// `p + q x_i`.
pub proof fn lemma_affine_variable(
    f: spec_fn(Seq<F128>) -> F128,
    n: nat,
    i: int,
    p: F128,
    q: F128,
)
    requires
        0 <= i < n,
        forall|x: Seq<F128>| x.len() == n ==> #[trigger] f(x) == p.plus(q.times(x[i])),
    ensures
        affine(f, n, i, i + 1),
{
    broadcast use group_field_units;

    assert forall|a: Seq<F128>, b: Seq<F128>| a.len() + 1 + b.len() == n implies #[trigger] axis(
        f,
        a,
        b,
        i,
        i + 1,
    ) by {
        if a.len() == i {
            assert(lines(f, a, b, p, q)) by {
                assert forall|x: F128| f(#[trigger] joined(a, x, b)) == p.plus(q.times(x)) by {
                    assert(joined(a, x, b).len() == n);
                    assert(joined(a, x, b)[i] == x);
                }
            }
        } else {
            let k = p.plus(q.times(joined(a, F128::zero(), b)[i]));
            assert(lines(f, a, b, k, F128::zero())) by {
                assert forall|x: F128| f(#[trigger] joined(a, x, b)) == k.plus(
                    F128::zero().times(x),
                ) by {
                    assert(joined(a, x, b).len() == n);
                    assert(joined(a, x, b)[i] == joined(a, F128::zero(), b)[i]);
                }
            }
        }
    }
}

pub proof fn lemma_affine_sum(
    f: spec_fn(Seq<F128>) -> F128,
    g: spec_fn(Seq<F128>) -> F128,
    h: spec_fn(Seq<F128>) -> F128,
    n: nat,
    lo: int,
    hi: int,
)
    requires
        affine(f, n, lo, hi),
        affine(g, n, lo, hi),
        forall|x: Seq<F128>| x.len() == n ==> #[trigger] h(x) == f(x).plus(g(x)),
    ensures
        affine(h, n, lo, hi),
{
    broadcast use group_field_units;

    assert forall|a: Seq<F128>, b: Seq<F128>| a.len() + 1 + b.len() == n implies #[trigger] axis(
        h,
        a,
        b,
        lo,
        hi,
    ) by {
        assert(axis(f, a, b, lo, hi) && axis(g, a, b, lo, hi));
        let (u, v) = choose|u: F128, v: F128| #[trigger]
            lines(f, a, b, u, v) && (lo <= a.len() < hi || v == F128::zero());
        let (p, q) = choose|u: F128, v: F128| #[trigger]
            lines(g, a, b, u, v) && (lo <= a.len() < hi || v == F128::zero());
        assert(lines(h, a, b, u.plus(p), v.plus(q))) by {
            assert forall|x: F128| h(#[trigger] joined(a, x, b)) == u.plus(p).plus(
                v.plus(q).times(x),
            ) by {
                let y = joined(a, x, b);
                assert(y.len() == n);
                assert(f(y) == u.plus(v.times(x)) && g(y) == p.plus(q.times(x)));
                lemma_plus_times(v, q, x);
                lemma_plus_swap(u, p, v.times(x), q.times(x));
            }
        }
    }
}

/// Functions of different variables, multiplied.
pub proof fn lemma_affine_product(
    f: spec_fn(Seq<F128>) -> F128,
    g: spec_fn(Seq<F128>) -> F128,
    h: spec_fn(Seq<F128>) -> F128,
    n: nat,
    lo: int,
    mid: int,
    hi: int,
)
    requires
        lo <= mid <= hi,
        affine(f, n, lo, mid),
        affine(g, n, mid, hi),
        forall|x: Seq<F128>| x.len() == n ==> #[trigger] h(x) == f(x).times(g(x)),
    ensures
        affine(h, n, lo, hi),
{
    broadcast use group_field_units;

    assert forall|a: Seq<F128>, b: Seq<F128>| a.len() + 1 + b.len() == n implies #[trigger] axis(
        h,
        a,
        b,
        lo,
        hi,
    ) by {
        assert(axis(f, a, b, lo, mid) && axis(g, a, b, mid, hi));
        let (u, v) = choose|u: F128, v: F128| #[trigger]
            lines(f, a, b, u, v) && (lo <= a.len() < mid || v == F128::zero());
        let (p, q) = choose|u: F128, v: F128| #[trigger]
            lines(g, a, b, u, v) && (mid <= a.len() < hi || v == F128::zero());
        let (r, s) = (u.times(p), if a.len() < mid {
            v.times(p)
        } else {
            u.times(q)
        });
        assert(lines(h, a, b, r, s)) by {
            assert forall|x: F128| h(#[trigger] joined(a, x, b)) == r.plus(s.times(x)) by {
                let y = joined(a, x, b);
                assert(y.len() == n);
                assert(f(y) == u.plus(v.times(x)) && g(y) == p.plus(q.times(x)));
                if a.len() < mid {
                    lemma_plus_times(u, v.times(x), p);
                    lemma_times_assoc(v, x, p);
                    lemma_times_comm(x, p);
                    lemma_times_assoc(v, p, x);
                } else {
                    lemma_times_plus(u, p, q.times(x));
                    lemma_times_assoc(u, q, x);
                }
            }
        }
    }
}

/// An affine function has degree one.
pub proof fn lemma_affine_degree(f: spec_fn(Seq<F128>) -> F128, n: nat, lo: int, hi: int)
    requires
        affine(f, n, lo, hi),
    ensures
        degree(f, n, 1),
{
    assert forall|a: Seq<F128>, b: Seq<F128>| a.len() + 1 + b.len() == n implies is_poly(
        #[trigger] along(f, a, b),
        1,
    ) by {
        assert(axis(f, a, b, lo, hi));
        let (u, v) = choose|u: F128, v: F128| #[trigger]
            lines(f, a, b, u, v) && (lo <= a.len() < hi || v == F128::zero());
        let c = seq![u, v];
        assert(gives(c, along(f, a, b), 1)) by {
            assert(c.skip(1) =~= seq![v]);
            reveal_with_fuel(poly_at, 3);
            assert forall|x: F128| #[trigger] along(f, a, b)(x) == poly_at(c, x) by {
                assert(f(joined(a, x, b)) == u.plus(v.times(x)));
            }
        }
    }
}

pub proof fn lemma_degree_sum(
    f: spec_fn(Seq<F128>) -> F128,
    g: spec_fn(Seq<F128>) -> F128,
    h: spec_fn(Seq<F128>) -> F128,
    n: nat,
    d: nat,
)
    requires
        degree(f, n, d),
        degree(g, n, d),
        forall|x: Seq<F128>| x.len() == n ==> #[trigger] h(x) == f(x).plus(g(x)),
    ensures
        degree(h, n, d),
{
    assert forall|a: Seq<F128>, b: Seq<F128>| a.len() + 1 + b.len() == n implies is_poly(
        #[trigger] along(h, a, b),
        d,
    ) by {
        assert forall|x: F128| #[trigger]
            along(h, a, b)(x) == along(f, a, b)(x).plus(along(g, a, b)(x)) by {
            assert(joined(a, x, b).len() == n);
        }
        lemma_is_sum(along(f, a, b), along(g, a, b), along(h, a, b), d);
    }
}

pub proof fn lemma_degree_product(
    f: spec_fn(Seq<F128>) -> F128,
    g: spec_fn(Seq<F128>) -> F128,
    h: spec_fn(Seq<F128>) -> F128,
    n: nat,
    d: nat,
    e: nat,
)
    requires
        degree(f, n, d),
        degree(g, n, e),
        forall|x: Seq<F128>| x.len() == n ==> #[trigger] h(x) == f(x).times(g(x)),
    ensures
        degree(h, n, d + e),
{
    assert forall|a: Seq<F128>, b: Seq<F128>| a.len() + 1 + b.len() == n implies is_poly(
        #[trigger] along(h, a, b),
        d + e,
    ) by {
        assert forall|x: F128| #[trigger]
            along(h, a, b)(x) == along(f, a, b)(x).times(along(g, a, b)(x)) by {
            assert(joined(a, x, b).len() == n);
        }
        lemma_is_product(along(f, a, b), along(g, a, b), along(h, a, b), d, e);
    }
}

pub proof fn lemma_degree_wider(f: spec_fn(Seq<F128>) -> F128, n: nat, d: nat, e: nat)
    requires
        degree(f, n, d),
        d <= e,
    ensures
        degree(f, n, e),
{
    assert forall|a: Seq<F128>, b: Seq<F128>| a.len() + 1 + b.len() == n implies is_poly(
        #[trigger] along(f, a, b),
        e,
    ) by {
        lemma_is_wider(along(f, a, b), d, e);
    }
}

// ---------------------------------------------------------------------------
// Sums over the cube
// ---------------------------------------------------------------------------

/// The sum of a function over the values zero and one of its first `n` variables.
pub open spec fn cube_sum(f: spec_fn(Seq<F128>) -> F128, n: nat, tail: Seq<F128>) -> F128
    decreases n,
{
    if n == 0 {
        f(tail)
    } else {
        cube_sum(f, (n - 1) as nat, seq![F128::zero()] + tail).plus(
            cube_sum(f, (n - 1) as nat, seq![F128::one()] + tail),
        )
    }
}

/// Every coordinate is zero or one.
pub open spec fn on_cube(x: Seq<F128>) -> bool {
    forall|i: int| 0 <= i < x.len() ==> (#[trigger] x[i]).is_bit()
}

/// Functions that agree where the sum reads them have one sum.
pub proof fn lemma_cube_same(
    f: spec_fn(Seq<F128>) -> F128,
    g: spec_fn(Seq<F128>) -> F128,
    n: nat,
    tail: Seq<F128>,
)
    requires
        forall|x: Seq<F128>|
            x.len() == n + tail.len() && x.subrange(n as int, x.len() as int) == tail
                ==> #[trigger] f(x) == g(x),
    ensures
        cube_sum(f, n, tail) == cube_sum(g, n, tail),
    decreases n,
{
    if n == 0 {
        assert(tail.subrange(0, tail.len() as int) =~= tail);
    } else {
        let m = (n - 1) as nat;
        lemma_cube_down(n, tail, F128::zero());
        lemma_cube_down(n, tail, F128::one());
        lemma_cube_same(f, g, m, seq![F128::zero()] + tail);
        lemma_cube_same(f, g, m, seq![F128::one()] + tail);
    }
}

proof fn lemma_cube_down(n: nat, tail: Seq<F128>, v: F128)
    requires
        n >= 1,
    ensures
        forall|x: Seq<F128>|
            x.len() == n + tail.len() && x.subrange(n - 1, x.len() as int) == seq![v] + tail
                ==> #[trigger] x.subrange(n as int, x.len() as int) == tail,
{
    assert forall|x: Seq<F128>|
        x.len() == n + tail.len() && x.subrange(n - 1, x.len() as int) == seq![v]
            + tail implies #[trigger] x.subrange(n as int, x.len() as int) == tail by {
        let y = x.subrange(n - 1, x.len() as int);
        assert(x.subrange(n as int, x.len() as int) =~= y.subrange(1, y.len() as int));
        assert((seq![v] + tail).subrange(1, y.len() as int) =~= tail);
    }
}

pub proof fn lemma_cube_plus(
    f: spec_fn(Seq<F128>) -> F128,
    g: spec_fn(Seq<F128>) -> F128,
    h: spec_fn(Seq<F128>) -> F128,
    n: nat,
    tail: Seq<F128>,
)
    requires
        forall|x: Seq<F128>|
            x.len() == n + tail.len() ==> #[trigger] h(x) == f(x).plus(g(x)),
    ensures
        cube_sum(h, n, tail) == cube_sum(f, n, tail).plus(cube_sum(g, n, tail)),
    decreases n,
{
    if n > 0 {
        let m = (n - 1) as nat;
        let (a, b) = (seq![F128::zero()] + tail, seq![F128::one()] + tail);
        lemma_cube_plus(f, g, h, m, a);
        lemma_cube_plus(f, g, h, m, b);
        lemma_plus_swap(
            cube_sum(f, m, a),
            cube_sum(g, m, a),
            cube_sum(f, m, b),
            cube_sum(g, m, b),
        );
    }
}

pub proof fn lemma_cube_scale(
    f: spec_fn(Seq<F128>) -> F128,
    h: spec_fn(Seq<F128>) -> F128,
    k: F128,
    n: nat,
    tail: Seq<F128>,
)
    requires
        forall|x: Seq<F128>| x.len() == n + tail.len() ==> #[trigger] h(x) == k.times(f(x)),
    ensures
        cube_sum(h, n, tail) == k.times(cube_sum(f, n, tail)),
    decreases n,
{
    if n > 0 {
        let m = (n - 1) as nat;
        let (a, b) = (seq![F128::zero()] + tail, seq![F128::one()] + tail);
        lemma_cube_scale(f, h, k, m, a);
        lemma_cube_scale(f, h, k, m, b);
        lemma_times_plus(k, cube_sum(f, m, a), cube_sum(f, m, b));
    }
}

/// A function that is zero on the cube has the sum zero.
pub proof fn lemma_cube_zero(f: spec_fn(Seq<F128>) -> F128, n: nat, tail: Seq<F128>)
    requires
        on_cube(tail),
        forall|x: Seq<F128>|
            x.len() == n + tail.len() && on_cube(x) ==> #[trigger] f(x) == F128::zero(),
    ensures
        cube_sum(f, n, tail) == F128::zero(),
    decreases n,
{
    broadcast use group_field_units;

    if n > 0 {
        lemma_cube_zero(f, (n - 1) as nat, seq![F128::zero()] + tail);
        lemma_cube_zero(f, (n - 1) as nat, seq![F128::one()] + tail);
    }
}

/// A function of two points, with the second fixed.
pub open spec fn at_second(h: spec_fn(Seq<F128>, Seq<F128>) -> F128, y: Seq<F128>) -> spec_fn(
    Seq<F128>,
) -> F128 {
    |x: Seq<F128>| h(x, y)
}

/// A function of two points, with the first fixed.
pub open spec fn at_first(h: spec_fn(Seq<F128>, Seq<F128>) -> F128, x: Seq<F128>) -> spec_fn(
    Seq<F128>,
) -> F128 {
    |y: Seq<F128>| h(x, y)
}

/// A sum over the second point is affine in the first where the function is.
pub proof fn lemma_cube_affine(
    h: spec_fn(Seq<F128>, Seq<F128>) -> F128,
    g: spec_fn(Seq<F128>) -> F128,
    n: nat,
    lo: int,
    hi: int,
    m: nat,
    tail: Seq<F128>,
)
    requires
        forall|y: Seq<F128>|
            y.len() == m + tail.len() ==> affine(#[trigger] at_second(h, y), n, lo, hi),
        forall|x: Seq<F128>|
            x.len() == n ==> #[trigger] g(x) == cube_sum(at_first(h, x), m, tail),
    ensures
        affine(g, n, lo, hi),
    decreases m,
{
    if m == 0 {
        let f = at_second(h, tail);
        assert(affine(f, n, lo, hi));
        assert forall|x: Seq<F128>| x.len() == n implies #[trigger] g(x) == f(x) by {
            assert(g(x) == cube_sum(at_first(h, x), 0, tail));
        }
        lemma_affine_same(f, g, n, lo, hi);
    } else {
        let k = (m - 1) as nat;
        let (a, b) = (seq![F128::zero()] + tail, seq![F128::one()] + tail);
        let p = |x: Seq<F128>| cube_sum(at_first(h, x), k, a);
        let q = |x: Seq<F128>| cube_sum(at_first(h, x), k, b);
        lemma_cube_affine(h, p, n, lo, hi, k, a);
        lemma_cube_affine(h, q, n, lo, hi, k, b);
        assert forall|x: Seq<F128>| x.len() == n implies #[trigger] g(x) == p(x).plus(q(x)) by {
            assert(g(x) == cube_sum(at_first(h, x), m, tail));
        }
        lemma_affine_sum(p, q, g, n, lo, hi);
    }
}

/// An equality indicator is affine in the variables that it reads.
pub proof fn lemma_equal_affine(
    p: Seq<F128>,
    f: spec_fn(Seq<F128>) -> F128,
    n: nat,
    lo: int,
    k: nat,
)
    requires
        0 <= lo,
        lo + k <= n,
        forall|x: Seq<F128>|
            x.len() == n ==> #[trigger] f(x) == equal_at(p, x.subrange(lo, n as int), k),
    ensures
        affine(f, n, lo, lo + k),
    decreases k,
{
    broadcast use group_field_units;

    if k == 0 {
        lemma_affine_constant(f, n, F128::one(), lo);
    } else {
        let m = (k - 1) as nat;
        let g = |x: Seq<F128>| equal_at(p, x.subrange(lo, n as int), m);
        let i = lo + m;
        let h = |x: Seq<F128>| p[m as int].plus(x[i]).plus(F128::one());
        lemma_equal_affine(p, g, n, lo, m);
        let q = p[m as int].plus(F128::one());
        assert forall|x: Seq<F128>| x.len() == n implies #[trigger] h(x) == q.plus(
            F128::one().times(x[i]),
        ) by {
            lemma_plus_assoc(p[m as int], x[i], F128::one());
            lemma_plus_comm(x[i], F128::one());
            lemma_plus_assoc(p[m as int], F128::one(), x[i]);
        }
        lemma_affine_variable(h, n, i, q, F128::one());
        assert forall|x: Seq<F128>| x.len() == n implies #[trigger] f(x) == g(x).times(h(x)) by {
            assert(x.subrange(lo, n as int)[m as int] == x[i]);
        }
        lemma_affine_product(g, h, f, n, lo, i, i + 1);
    }
}

/// The tensor of a point's first coordinates.
pub proof fn lemma_tensor_prefix(x: Seq<F128>, y: Seq<F128>, k: nat)
    requires
        forall|i: int| 0 <= i < k ==> #[trigger] x[i] == y[i],
    ensures
        tensor(x, k) == tensor(y, k),
    decreases k,
{
    if k > 0 {
        lemma_tensor_prefix(x, y, (k - 1) as nat);
        assert(x[k - 1] == y[k - 1]);
    }
}

/// An entry of a tensor is affine in the coordinates that it reads.
pub proof fn lemma_tensor_affine(
    f: spec_fn(Seq<F128>) -> F128,
    n: nat,
    lo: int,
    k: nat,
    i: int,
)
    requires
        0 <= lo,
        lo + k <= n,
        0 <= i < pow2(k),
        forall|x: Seq<F128>|
            x.len() == n ==> #[trigger] f(x) == tensor(x.subrange(lo, n as int), k)[i],
    ensures
        affine(f, n, lo, lo + k),
    decreases k,
{
    broadcast use group_field_units;

    vstd::arithmetic::power2::lemma2_to64();
    if k == 0 {
        lemma_affine_constant(f, n, F128::one(), lo);
    } else {
        let m = (k - 1) as nat;
        lemma_pow2_unfold(k);
        let half = pow2(m) as int;
        let j = if i < half {
            i
        } else {
            i - half
        };
        let g = |x: Seq<F128>| tensor(x.subrange(lo, n as int), m)[j];
        lemma_tensor_affine(g, n, lo, m, j);
        let one = F128::one();
        let (p, q) = if i < half {
            (one, one)
        } else {
            (F128::zero(), one)
        };
        let h = |x: Seq<F128>| p.plus(q.times(x[lo + m]));
        lemma_affine_variable(h, n, lo + m, p, q);
        assert forall|x: Seq<F128>| x.len() == n implies #[trigger] f(x) == g(x).times(h(x)) by {
            let y = x.subrange(lo, n as int);
            lemma_tensor_len(y, m);
            let t = tensor(y, m)[j];
            lemma_times_plus(t, one, x[lo + m]);
            assert(y[m as int] == x[lo + m]);
        }
        lemma_affine_product(g, h, f, n, lo, lo + m, lo + k);
    }
}

/// A sum of products goes on behind its first `h` terms.
pub proof fn lemma_inner_on(a: Seq<F128>, b: Seq<F128>, h: nat, k: nat)
    requires
        h + k <= a.len(),
        h + k <= b.len(),
    ensures
        inner(a, b, h + k) == inner(a, b, h).plus(inner(a.skip(h as int), b.skip(h as int), k)),
    decreases k,
{
    broadcast use group_field_units;

    if k > 0 {
        let j = (k - 1) as nat;
        lemma_inner_on(a, b, h, j);
        assert(a.skip(h as int)[k - 1] == a[h + k - 1]);
        assert(b.skip(h as int)[k - 1] == b[h + k - 1]);
        lemma_plus_assoc(
            inner(a, b, h),
            inner(a.skip(h as int), b.skip(h as int), j),
            a[h + k - 1].times(b[h + k - 1]),
        );
    }
}

proof fn lemma_halves(t: Seq<F128>, s: Seq<F128>, full: Seq<F128>, r: F128, h: nat, k: nat)
    requires
        t.len() == 2 * h,
        full.len() == 2 * h,
        s.len() == h,
        k <= h,
        forall|i: int| 0 <= i < h ==> #[trigger] full[i] == s[i].plus(s[i].times(r)),
        forall|i: int| 0 <= i < h ==> #[trigger] full.skip(h as int)[i] == s[i].times(r),
    ensures
        inner(t, full, k).plus(inner(t.skip(h as int), full.skip(h as int), k)) == inner(
            folded(t, r),
            s,
            k,
        ),
    decreases k,
{
    broadcast use group_field_units;

    if k > 0 {
        let j = (k - 1) as nat;
        lemma_halves(t, s, full, r, h, j);
        let (a, b, c) = (t[k - 1], t.skip(h as int)[k - 1], s[k - 1]);
        assert(full[k - 1] == c.plus(c.times(r)));
        assert(full.skip(h as int)[k - 1] == c.times(r));
        assert(b == t[k - 1 + h]);
        let high = full.skip(h as int);
        lemma_plus_swap(
            inner(t, full, j),
            a.times(c.plus(c.times(r))),
            inner(t.skip(h as int), high, j),
            b.times(c.times(r)),
        );
        // a (c + c r) + b (c r) is (a + r (a + b)) c.
        lemma_times_plus(a, c, c.times(r));
        lemma_plus_assoc(a.times(c), a.times(c.times(r)), b.times(c.times(r)));
        lemma_plus_times(a, b, c.times(r));
        lemma_times_comm(c, r);
        lemma_times_assoc(a.plus(b), r, c);
        lemma_times_comm(a.plus(b), r);
        lemma_plus_times(a, r.times(a.plus(b)), c);
    }
}

/// The multilinear extension of a table is its sum against the tensor of the point.
pub proof fn lemma_mle_tensor(t: Seq<F128>, point: Seq<F128>)
    requires
        t.len() == pow2(point.len()),
    ensures
        mle(t, point) == inner(t, tensor(point, point.len()), t.len()),
    decreases point.len(),
{
    broadcast use group_field_units;

    vstd::arithmetic::power2::lemma2_to64();
    let n = point.len();
    if n == 0 {
        reveal_with_fuel(inner, 2);
        assert(tensor(point, 0)[0] == F128::one());
    } else {
        let m = (n - 1) as nat;
        lemma_pow2_unfold(n);
        let half = pow2(m);
        let r = point.last();
        let p = point.drop_last();
        lemma_mle_folded(t, point);
        lemma_mle_tensor(folded(t, r), p);
        let s = tensor(p, m);
        lemma_tensor_prefix(point, p, m);
        lemma_tensor_len(p, m);
        let full = tensor(point, n);
        lemma_tensor_len(point, n);
        lemma_halves(t, s, full, r, half, half);
        lemma_inner_on(t, full, half, half);
    }
}

/// Functions that are affine in every coordinate and agree on the cube agree.
pub proof fn lemma_affine_unique(
    f: spec_fn(Seq<F128>) -> F128,
    h: spec_fn(Seq<F128>) -> F128,
    n: nat,
    p: Seq<F128>,
)
    requires
        affine(f, n, 0, n as int),
        affine(h, n, 0, n as int),
        p.len() == n,
        forall|x: Seq<F128>| x.len() == n && on_cube(x) ==> #[trigger] f(x) == h(x),
    ensures
        f(p) == h(p),
{
    broadcast use {group_field_units, lemma_plus_is_zero};

    let ef = |x: Seq<F128>| equal_at(p, x, n).times(f(x));
    let eh = |x: Seq<F128>| equal_at(p, x, n).times(h(x));
    lemma_interpolates(p, f, ef, n, n, Seq::empty());
    lemma_interpolates(p, h, eh, n, n, Seq::empty());
    assert(p.take(n as int) + Seq::<F128>::empty() =~= p);
    let d = |x: Seq<F128>| ef(x).plus(eh(x));
    lemma_cube_plus(ef, eh, d, n, Seq::empty());
    assert forall|x: Seq<F128>|
        x.len() == n + Seq::<F128>::empty().len() && on_cube(x) implies #[trigger] d(x)
        == F128::zero() by {
        assert(f(x) == h(x));
    }
    lemma_cube_zero(d, n, Seq::empty());
    lemma_plus_is_zero(f(p), h(p));
}

/// The equality indicator is symmetric.
pub proof fn lemma_equal_comm(p: Seq<F128>, r: Seq<F128>, n: nat)
    ensures
        equal_at(p, r, n) == equal_at(r, p, n),
    decreases n,
{
    if n > 0 {
        lemma_equal_comm(p, r, (n - 1) as nat);
        lemma_plus_comm(p[n - 1], r[n - 1]);
    }
}

/// The equality indicator of points that agree with others.
pub proof fn lemma_equal_prefix(p: Seq<F128>, x: Seq<F128>, y: Seq<F128>, n: nat)
    requires
        forall|i: int| 0 <= i < n ==> #[trigger] x[i] == y[i],
    ensures
        equal_at(p, x, n) == equal_at(p, y, n),
        equal_at(x, p, n) == equal_at(y, p, n),
    decreases n,
{
    if n > 0 {
        lemma_equal_prefix(p, x, y, (n - 1) as nat);
        assert(x[n - 1] == y[n - 1]);
    }
}

/// The equality indicator goes on behind its first `m` coordinates.
pub proof fn lemma_equal_split(p: Seq<F128>, y: Seq<F128>, m: nat, k: nat)
    requires
        m + k <= p.len(),
        m + k <= y.len(),
    ensures
        equal_at(p, y, m + k) == equal_at(p, y, m).times(
            equal_at(p.subrange(m as int, p.len() as int), y.subrange(m as int, y.len() as int), k),
        ),
    decreases k,
{
    broadcast use group_field_units;

    if k > 0 {
        let j = (k - 1) as nat;
        lemma_equal_split(p, y, m, j);
        let (a, b) = (p.subrange(m as int, p.len() as int), y.subrange(m as int, y.len() as int));
        assert(a[k - 1] == p[m + k - 1] && b[k - 1] == y[m + k - 1]);
        lemma_times_assoc(
            equal_at(p, y, m),
            equal_at(a, b, j),
            p[m + k - 1].plus(y[m + k - 1]).plus(F128::one()),
        );
    }
}

/// A function that is affine in its first `k` variables is the sum of its values on
/// their cube under the equality indicator.
pub proof fn lemma_interpolates(
    p: Seq<F128>,
    h: spec_fn(Seq<F128>) -> F128,
    f: spec_fn(Seq<F128>) -> F128,
    n: nat,
    k: nat,
    tail: Seq<F128>,
)
    requires
        k <= p.len(),
        n == k + tail.len(),
        forall|a: Seq<F128>, b: Seq<F128>|
            a.len() + 1 + b.len() == n && a.len() < k ==> #[trigger] axis(h, a, b, 0, k as int),
        forall|x: Seq<F128>| x.len() == n ==> #[trigger] f(x) == equal_at(p, x, k).times(h(x)),
    ensures
        cube_sum(f, k, tail) == h(p.take(k as int) + tail),
    decreases k,
{
    broadcast use group_field_units;

    if k == 0 {
        assert(p.take(0) + tail =~= tail);
    } else {
        let m = (k - 1) as nat;
        let q = p[m as int];
        let g = |x: Seq<F128>| q.plus(x[m as int]).plus(F128::one()).times(h(x));
        let (a, b) = (seq![F128::zero()] + tail, seq![F128::one()] + tail);
        assert forall|x: Seq<F128>| x.len() == n implies #[trigger] f(x) == equal_at(
            p,
            x,
            m,
        ).times(g(x)) by {
            lemma_times_assoc(equal_at(p, x, m), q.plus(x[m as int]).plus(F128::one()), h(x));
        }
        assert forall|c: Seq<F128>, d: Seq<F128>|
            c.len() + 1 + d.len() == n && c.len() < m implies #[trigger] axis(
            g,
            c,
            d,
            0,
            m as int,
        ) by {
            assert(axis(h, c, d, 0, k as int));
            let (u, v) = choose|u: F128, v: F128| #[trigger]
                lines(h, c, d, u, v) && (0 <= c.len() < k || v == F128::zero());
            let w = q.plus(joined(c, F128::zero(), d)[m as int]).plus(F128::one());
            assert(lines(g, c, d, w.times(u), w.times(v))) by {
                assert forall|x: F128| g(#[trigger] joined(c, x, d)) == w.times(u).plus(
                    w.times(v).times(x),
                ) by {
                    let y = joined(c, x, d);
                    assert(y[m as int] == joined(c, F128::zero(), d)[m as int]);
                    assert(h(y) == u.plus(v.times(x)));
                    lemma_times_plus(w, u, v.times(x));
                    lemma_times_assoc(w, v, x);
                }
            }
        }
        lemma_interpolates(p, g, f, n, m, a);
        lemma_interpolates(p, g, f, n, m, b);
        let head = p.take(m as int);
        let (x0, x1) = (head + a, head + b);
        assert(x0 =~= joined(head, F128::zero(), tail));
        assert(x1 =~= joined(head, F128::one(), tail));
        assert(p.take(k as int) + tail =~= joined(head, q, tail));
        assert(axis(h, head, tail, 0, k as int));
        let (u, v) = choose|u: F128, v: F128| #[trigger]
            lines(h, head, tail, u, v) && (0 <= head.len() < k || v == F128::zero());
        assert(h(joined(head, F128::zero(), tail)) == u.plus(v.times(F128::zero())));
        assert(h(joined(head, F128::one(), tail)) == u.plus(v.times(F128::one())));
        assert(h(joined(head, q, tail)) == u.plus(v.times(q)));
        let one = F128::one();
        assert(x0[m as int] == F128::zero() && x1[m as int] == one);
        // (q + 1) u + q (u + v)
        lemma_plus_is_zero(q, one);
        assert(q.plus(one).plus(one) == q);
        lemma_plus_times(q, one, u);
        lemma_times_plus(q, u, v);
        let (s, t) = (q.times(u), q.times(v));
        lemma_plus_comm(s, u);
        lemma_plus_assoc(u, s, s.plus(t));
        lemma_plus_is_zero(s, t);
        lemma_times_comm(q, v);
    }
}

// ---------------------------------------------------------------------------
// Rounds
// ---------------------------------------------------------------------------

/// The equality with a point, scaled, times an affine function: its degree, and its
/// sum, which is that function at the point.
pub proof fn lemma_selected(
    w: F128,
    p: Seq<F128>,
    h: spec_fn(Seq<F128>) -> F128,
    f: spec_fn(Seq<F128>) -> F128,
    n: nat,
)
    requires
        p.len() == n,
        affine(h, n, 0, n as int),
        forall|x: Seq<F128>|
            x.len() == n ==> #[trigger] f(x) == w.times(equal_at(p, x, n)).times(h(x)),
    ensures
        degree(f, n, 2),
        cube_sum(f, n, Seq::empty()) == w.times(h(p)),
{
    let c = |x: Seq<F128>| w;
    lemma_affine_constant(c, n, w, 0);
    let e = |x: Seq<F128>| equal_at(p, x, n);
    assert forall|x: Seq<F128>| x.len() == n implies #[trigger] e(x) == equal_at(
        p,
        x.subrange(0, n as int),
        n,
    ) by {
        assert(x.subrange(0, n as int) =~= x);
    }
    lemma_equal_affine(p, e, n, 0, n);
    let we = |x: Seq<F128>| w.times(e(x));
    lemma_affine_product(c, e, we, n, 0, 0, n as int);
    lemma_affine_degree(we, n, 0, n as int);
    lemma_affine_degree(h, n, 0, n as int);
    lemma_degree_product(we, h, f, n, 1, 1);
    let eh = |x: Seq<F128>| equal_at(p, x, n).times(h(x));
    lemma_interpolates(p, h, eh, n, n, Seq::empty());
    assert(p.take(n as int) + Seq::<F128>::empty() =~= p);
    assert forall|x: Seq<F128>| x.len() == n + Seq::<F128>::empty().len() implies #[trigger] f(x)
        == w.times(eh(x)) by {
        lemma_times_assoc(w, equal_at(p, x, n), h(x));
    }
    lemma_cube_scale(eh, f, w, n, Seq::empty());
}

/// The sum over the variables before one is a polynomial in it.
proof fn lemma_cube_poly(
    f: spec_fn(Seq<F128>) -> F128,
    g: spec_fn(F128) -> F128,
    n: nat,
    d: nat,
    m: nat,
    mid: Seq<F128>,
    tail: Seq<F128>,
)
    requires
        degree(f, n, d),
        m + mid.len() + 1 + tail.len() == n,
        forall|x: F128| #[trigger] g(x) == cube_sum(f, m, joined(mid, x, tail)),
    ensures
        is_poly(g, d),
    decreases m,
{
    if m == 0 {
        let line = along(f, mid, tail);
        assert(is_poly(line, d));
        let c = choose|c: Seq<F128>| #[trigger] gives(c, line, d);
        assert(gives(c, g, d)) by {
            assert forall|x: F128| #[trigger] g(x) == poly_at(c, x) by {
                assert(line(x) == poly_at(c, x));
            }
        }
    } else {
        let k = (m - 1) as nat;
        let (a, b) = (seq![F128::zero()] + mid, seq![F128::one()] + mid);
        let p = |x: F128| cube_sum(f, k, joined(a, x, tail));
        let q = |x: F128| cube_sum(f, k, joined(b, x, tail));
        lemma_cube_poly(f, p, n, d, k, a, tail);
        lemma_cube_poly(f, q, n, d, k, b, tail);
        assert forall|x: F128| #[trigger] g(x) == p(x).plus(q(x)) by {
            let y = joined(mid, x, tail);
            assert(seq![F128::zero()] + y =~= joined(a, x, tail));
            assert(seq![F128::one()] + y =~= joined(b, x, tail));
        }
        lemma_is_sum(p, q, g, d);
    }
}

/// What a round is about: the sum with one more variable fixed.
pub open spec fn round_sum(f: spec_fn(Seq<F128>) -> F128, m: nat, tail: Seq<F128>) -> spec_fn(
    F128,
) -> F128 {
    |x: F128| cube_sum(f, m, seq![x] + tail)
}

/// The honest message of a round, by its coefficients.
pub open spec fn round_coeffs(
    f: spec_fn(Seq<F128>) -> F128,
    d: nat,
    m: nat,
    tail: Seq<F128>,
) -> Seq<F128> {
    choose|c: Seq<F128>| #[trigger] gives(c, round_sum(f, m, tail), d)
}

pub proof fn lemma_round(f: spec_fn(Seq<F128>) -> F128, n: nat, d: nat, m: nat, tail: Seq<F128>)
    requires
        degree(f, n, d),
        m + 1 + tail.len() == n,
    ensures
        gives(round_coeffs(f, d, m, tail), round_sum(f, m, tail), d),
        cube_sum(f, m + 1, tail) == poly_at(round_coeffs(f, d, m, tail), F128::zero()).plus(
            poly_at(round_coeffs(f, d, m, tail), F128::one()),
        ),
        forall|r: F128|
            cube_sum(f, m, #[trigger] (seq![r] + tail)) == poly_at(
                round_coeffs(f, d, m, tail),
                r,
            ),
{
    let g = round_sum(f, m, tail);
    let none = Seq::<F128>::empty();
    assert forall|x: F128| #[trigger] g(x) == cube_sum(f, m, joined(none, x, tail)) by {
        assert(joined(none, x, tail) =~= seq![x] + tail);
    }
    lemma_cube_poly(f, g, n, d, m, none, tail);
    let c = round_coeffs(f, d, m, tail);
    assert(gives(c, g, d));
    assert(g(F128::zero()) == poly_at(c, F128::zero()));
    assert(g(F128::one()) == poly_at(c, F128::one()));
    assert forall|r: F128|
        cube_sum(f, m, #[trigger] (seq![r] + tail)) == poly_at(c, r) by {
        assert(g(r) == poly_at(c, r));
    }
}

/// What is fixed after `k` challenges: the last variables, the latest first.
pub open spec fn fixed(challenges: Seq<F128>, k: int) -> Seq<F128> {
    reversed(challenges.take(k))
}

pub proof fn lemma_fixed_step(challenges: Seq<F128>, k: int)
    requires
        0 <= k < challenges.len(),
    ensures
        fixed(challenges, k + 1) == seq![challenges[k]] + fixed(challenges, k),
        fixed(challenges, k).len() == k,
{
    assert(fixed(challenges, k + 1) =~= seq![challenges[k]] + fixed(challenges, k));
}

/// The coefficients that a proof sends of a polynomial: all but the linear one.
pub open spec fn sent(c: Seq<F128>) -> Seq<F128> {
    seq![c[0]] + c.skip(2)
}

/// The polynomial that is sent is the one that is completed, where its values at
/// zero and one add up to the claim.
pub proof fn lemma_sent(c: Seq<F128>, claim: F128)
    requires
        c.len() >= 2,
        poly_at(c, F128::zero()).plus(poly_at(c, F128::one())) == claim,
    ensures
        completed(sent(c), claim) == c,
{
    broadcast use {group_field_units, lemma_plus_is_zero};

    let s = sent(c);
    crate::round_poly::lemma_poly_one(c);
    crate::round_poly::lemma_tail_skip(s, 1, 0);
    crate::round_poly::lemma_tail_skip(c, 2, 0);
    assert(s.skip(1) =~= c.skip(2));
    let t = tail_sum(c, 2);
    assert(tail_sum(s, 1) == t);
    reveal_with_fuel(tail_sum, 3);
    assert(tail_sum(c, 0) == c[0].plus(c[1].plus(t)));
    assert(poly_at(c, F128::zero()) == c[0]);
    assert(claim == c[1].plus(t));
    assert(claim.plus(t) == c[1]);
    assert(completed(s, claim) =~= c);
}

/// The honest messages of a sumcheck over `n` variables. A message depends on the
/// challenges before it alone.
pub open spec fn honest_polys(
    f: spec_fn(Seq<F128>) -> F128,
    d: nat,
    n: nat,
    challenges: Seq<F128>,
) -> Seq<Seq<F128>> {
    Seq::new(n, |k: int| sent(round_coeffs(f, d, (n - k - 1) as nat, fixed(challenges, k))))
}

/// Completeness of a sumcheck: whatever the challenges, honest messages take the
/// sum of a function over the cube to its value at the point that the challenges
/// make.
pub proof fn lemma_sumcheck_complete(
    f: spec_fn(Seq<F128>) -> F128,
    d: nat,
    n: nat,
    challenges: Seq<F128>,
    k: nat,
)
    requires
        d >= 1,
        degree(f, n, d),
        challenges.len() == n,
        k <= n,
    ensures
        poly_claim(
            honest_polys(f, d, n, challenges),
            cube_sum(f, n, Seq::empty()),
            challenges,
            k,
        ) == cube_sum(f, (n - k) as nat, fixed(challenges, k as int)),
        k == n ==> cube_sum(f, (n - k) as nat, fixed(challenges, k as int)) == f(
            reversed(challenges),
        ),
        k < n ==> honest_polys(f, d, n, challenges)[k as int].len() == d,
    decreases k,
{
    let polys = honest_polys(f, d, n, challenges);
    if k < n {
        lemma_fixed_step(challenges, k as int);
        lemma_round(f, n, d, (n - k - 1) as nat, fixed(challenges, k as int));
    }
    if k == 0 {
        assert(fixed(challenges, 0) =~= Seq::empty());
    } else {
        let j = (k - 1) as nat;
        lemma_sumcheck_complete(f, d, n, challenges, j);
        let tail = fixed(challenges, j as int);
        let m = (n - k) as nat;
        lemma_fixed_step(challenges, j as int);
        lemma_round(f, n, d, m, tail);
        let c = round_coeffs(f, d, m, tail);
        assert(polys[j as int] == sent(c));
        lemma_sent(c, cube_sum(f, m + 1, tail));
    }
    if k == n {
        assert(challenges.take(n as int) =~= challenges);
    }
}

} // verus!
