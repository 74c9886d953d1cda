//! What the batched sumchecks are for: claims that are true of a column are
//! accepted with the column's value at the last point, and every claim enters with
//! a weight of its own.

use vstd::prelude::*;
use crate::batch_eval::{
    batch_checks, claim_after, columns_final, columns_inner, columns_weights, indicators, lagrange,
    lemma_lagrange, lemma_two_three, level_digit, levels_of, linear_checks, multi_checks, quotient,
    relation_value, relation_values, reversed, rlc_weight, rlc_weights,
};
use crate::eval_gadgets::{equal_at, index_point, inner};
use crate::field::{
    group_field_units, lemma_plus_comm, lemma_plus_is_zero, lemma_plus_swap, lemma_times_assoc,
    lemma_times_comm, lemma_times_is_zero, lemma_times_plus, F128,
};
use crate::relations::power;
use crate::round_poly::poly_at;
use crate::sumcheck::{
    affine, cube_sum, degree, fixed, gives, is_poly, lemma_affine_constant, lemma_affine_degree,
    lemma_cube_plus, lemma_degree_sum, lemma_fixed_step, lemma_is_product, lemma_is_sum,
    lemma_plus_times, lemma_round, lemma_selected, round_coeffs, round_sum,
};

verus! {

// ---------------------------------------------------------------------------
// Interpolation
// ---------------------------------------------------------------------------

proof fn lemma_three_coeffs(c: Seq<F128>, x: F128)
    requires
        c.len() == 3,
    ensures
        poly_at(c, x) == c[0].plus(c[1].plus(c[2].times(x)).times(x)),
{
    broadcast use group_field_units;

    reveal_with_fuel(poly_at, 4);
    let low = c.skip(1);
    assert(low.skip(1) =~= seq![c[2]]);
}

/// Quadratics that agree at zero, one and two agree.
proof fn lemma_quadratics_agree(c: Seq<F128>, k: Seq<F128>, x: F128)
    requires
        c.len() == 3,
        k.len() == 3,
        poly_at(c, F128::zero()) == poly_at(k, F128::zero()),
        poly_at(c, F128::one()) == poly_at(k, F128::one()),
        poly_at(c, F128::of_nat(2)) == poly_at(k, F128::of_nat(2)),
    ensures
        poly_at(c, x) == poly_at(k, x),
{
    broadcast use {group_field_units, lemma_plus_is_zero};

    let (o, i, two, three) = (F128::zero(), F128::one(), F128::of_nat(2), F128::of_nat(3));
    lemma_two_three();
    lemma_three_coeffs(c, o);
    lemma_three_coeffs(k, o);
    lemma_three_coeffs(c, i);
    lemma_three_coeffs(k, i);
    lemma_three_coeffs(c, two);
    lemma_three_coeffs(k, two);
    lemma_three_coeffs(c, x);
    lemma_three_coeffs(k, x);
    assert(c[0] == k[0]);
    // The other coefficients differ by a and b: a + b and a + 2 b are zero.
    let (a, b) = (c[1].plus(k[1]), c[2].plus(k[2]));
    lemma_cancel(c[0], c[1].plus(c[2]), k[1].plus(k[2]));
    lemma_plus_swap(c[1], c[2], k[1], k[2]);
    lemma_plus_is_zero(c[1].plus(c[2]), k[1].plus(k[2]));
    assert(a.plus(b) == o);
    lemma_plus_is_zero(a, b);
    let (p, q) = (c[1].plus(c[2].times(two)), k[1].plus(k[2].times(two)));
    lemma_cancel(c[0], p.times(two), q.times(two));
    lemma_times_assoc(p, two, three);
    lemma_times_assoc(q, two, three);
    assert(p == q);
    lemma_plus_swap(c[1], c[2].times(two), k[1], k[2].times(two));
    lemma_plus_times(c[2], k[2], two);
    lemma_plus_is_zero(p, q);
    assert(a.plus(b.times(two)) == o);
    lemma_plus_is_zero(a, b.times(two));
    assert(b == b.times(two));
    lemma_times_plus(b, two, i);
    lemma_plus_is_zero(b.times(two), b);
    assert(b.times(three) == o);
    lemma_times_assoc(b, three, two);
    assert(b == o);
}

proof fn lemma_cancel(a: F128, b: F128, c: F128)
    requires
        a.plus(b) == a.plus(c),
    ensures
        b == c,
{
    lemma_plus_is_zero(a, b);
    lemma_plus_is_zero(a, c);
}

proof fn lemma_line(p: F128) -> (f: spec_fn(F128) -> F128)
    ensures
        is_poly(f, 1),
        forall|x: F128| #[trigger] f(x) == x.plus(p),
{
    broadcast use group_field_units;

    let f = |x: F128| x.plus(p);
    let c = seq![p, F128::one()];
    assert forall|x: F128| #[trigger] f(x) == poly_at(c, x) by {
        reveal_with_fuel(poly_at, 3);
        assert(c.skip(1) =~= seq![F128::one()]);
        lemma_plus_comm(x, p);
    }
    assert(gives(c, f, 1));
    f
}

proof fn lemma_flat(p: F128) -> (f: spec_fn(F128) -> F128)
    ensures
        is_poly(f, 0),
        forall|x: F128| #[trigger] f(x) == p,
{
    let f = |x: F128| p;
    let c = seq![p];
    assert forall|x: F128| #[trigger] f(x) == poly_at(c, x) by {
        reveal_with_fuel(poly_at, 2);
    }
    assert(gives(c, f, 0));
    f
}

/// A value times two lines.
proof fn lemma_basis(k: F128, p: F128, q: F128) -> (h: spec_fn(F128) -> F128)
    ensures
        is_poly(h, 2),
        forall|x: F128| #[trigger] h(x) == k.times(x.plus(p).times(x.plus(q))),
{
    let (a, b, c) = (lemma_line(p), lemma_line(q), lemma_flat(k));
    let ab = |x: F128| a(x).times(b(x));
    lemma_is_product(a, b, ab, 1, 1);
    let h = |x: F128| c(x).times(ab(x));
    lemma_is_product(c, ab, h, 0, 2);
    h
}

/// Interpolation is exact: from the values of a quadratic at zero, one and two it
/// gives the quadratic at every point.
pub proof fn lemma_lagrange_exact(g: spec_fn(F128) -> F128, r: F128)
    requires
        is_poly(g, 2),
    ensures
        lagrange(g(F128::zero()), g(F128::one()), g(F128::of_nat(2)), r) == g(r),
{
    broadcast use group_field_units;

    let (o, i, two, three) = (F128::zero(), F128::one(), F128::of_nat(2), F128::of_nat(3));
    let (e0, e1, e2) = (g(o), g(i), g(two));
    lemma_lagrange(e0, e1, e2);
    let (a, b, c) = (
        lemma_basis(e0.times(three), i, two),
        lemma_basis(e1.times(two), o, two),
        lemma_basis(e2, o, i),
    );
    let ab = |x: F128| a(x).plus(b(x));
    lemma_is_sum(a, b, ab, 2);
    let h = |x: F128| ab(x).plus(c(x));
    lemma_is_sum(ab, c, h, 2);
    assert forall|x: F128| #[trigger] h(x) == lagrange(e0, e1, e2, x) by {
        let (r1, r2) = (x.plus(i), x.plus(two));
        assert(a(x) == e0.times(three).times(r1.times(r2)));
        assert(b(x) == e1.times(two).times(x.times(r2)));
        assert(c(x) == e2.times(x.times(r1)));
        lemma_times_assoc(e0, three, r1.times(r2));
        lemma_times_assoc(e0, r1.times(r2), three);
        lemma_times_comm(three, r1.times(r2));
        lemma_times_assoc(e1, two, x.times(r2));
        lemma_times_assoc(e1, x.times(r2), two);
        lemma_times_comm(two, x.times(r2));
    }
    let k = choose|k: Seq<F128>| #[trigger] gives(k, h, 2);
    let l = choose|l: Seq<F128>| #[trigger] gives(l, g, 2);
    assert(h(o) == poly_at(k, o) && h(i) == poly_at(k, i) && h(two) == poly_at(k, two));
    assert(g(o) == poly_at(l, o) && g(i) == poly_at(l, i) && g(two) == poly_at(l, two));
    lemma_quadratics_agree(k, l, r);
    assert(h(r) == poly_at(k, r) && g(r) == poly_at(l, r));
}

// ---------------------------------------------------------------------------
// Honest rounds
// ---------------------------------------------------------------------------

/// The honest messages of rounds that send values at one and two.
pub open spec fn honest_pairs(
    f: spec_fn(Seq<F128>) -> F128,
    n: nat,
    challenges: Seq<F128>,
) -> Seq<(F128, F128)> {
    Seq::new(
        n,
        |k: int|
            {
                let h = round_sum(f, (n - k - 1) as nat, fixed(challenges, k));
                (h(F128::one()), h(F128::of_nat(2)))
            },
    )
}

/// Completeness of such rounds.
pub proof fn lemma_pairs_complete(
    f: spec_fn(Seq<F128>) -> F128,
    n: nat,
    challenges: Seq<F128>,
    k: nat,
)
    requires
        degree(f, n, 2),
        challenges.len() == n,
        k <= n,
    ensures
        claim_after(
            honest_pairs(f, n, challenges),
            cube_sum(f, n, Seq::empty()),
            challenges,
            k,
        ) == cube_sum(f, (n - k) as nat, fixed(challenges, k as int)),
        k == n ==> cube_sum(f, (n - k) as nat, fixed(challenges, k as int)) == f(
            reversed(challenges),
        ),
    decreases k,
{
    broadcast use lemma_plus_is_zero;

    if k == 0 {
        assert(fixed(challenges, 0) =~= Seq::empty());
    } else {
        let j = (k - 1) as nat;
        lemma_pairs_complete(f, n, challenges, j);
        let tail = fixed(challenges, j as int);
        let m = (n - k) as nat;
        let r = challenges[j as int];
        lemma_fixed_step(challenges, j as int);
        lemma_round(f, n, 2, m, tail);
        let h = round_sum(f, m, tail);
        let c = round_coeffs(f, 2, m, tail);
        assert(gives(c, h, 2));
        lemma_lagrange_exact(h, r);
        assert(h(F128::zero()) == poly_at(c, F128::zero()));
        assert(h(F128::one()) == poly_at(c, F128::one()));
        assert(honest_pairs(f, n, challenges)[j as int] == (h(F128::one()), h(F128::of_nat(2))));
        assert(cube_sum(f, m + 1, tail) == h(F128::zero()).plus(h(F128::one())));
    }
    if k == n {
        assert(challenges.take(n as int) =~= challenges);
    }
}

// ---------------------------------------------------------------------------
// Completeness
// ---------------------------------------------------------------------------

/// A column, by its extension to all points of `n` coordinates.
pub open spec fn extended(g: spec_fn(Seq<F128>) -> F128, n: nat) -> bool {
    affine(g, n, 0, n as int)
}

/// Claims that are true of a column: each value is the column at its point.
pub open spec fn true_of(
    g: spec_fn(Seq<F128>) -> F128,
    points: Seq<Seq<F128>>,
    values: Seq<F128>,
    n: nat,
) -> bool {
    &&& points.len() == values.len()
    &&& forall|i: int|
        0 <= i < points.len() ==> (#[trigger] points[i]).len() == n && values[i] == g(points[i])
}

/// What a sumcheck over one column sums: the column against the weighted points.
pub open spec fn batch_terms(
    g: spec_fn(Seq<F128>) -> F128,
    weights: Seq<F128>,
    points: Seq<Seq<F128>>,
    m: nat,
) -> spec_fn(Seq<F128>) -> F128 {
    |x: Seq<F128>| inner(weights, indicators(points, x), m).times(g(x))
}

proof fn lemma_zero_terms(f: spec_fn(Seq<F128>) -> F128, n: nat)
    requires
        forall|x: Seq<F128>| x.len() == n ==> #[trigger] f(x) == F128::zero(),
    ensures
        degree(f, n, 2),
        cube_sum(f, n, Seq::empty()) == F128::zero(),
{
    lemma_affine_constant(f, n, F128::zero(), 0);
    lemma_affine_degree(f, n, 0, 0);
    crate::sumcheck::lemma_degree_wider(f, n, 1, 2);
    crate::sumcheck::lemma_cube_zero(f, n, Seq::empty());
}

proof fn lemma_batch_terms(
    g: spec_fn(Seq<F128>) -> F128,
    weights: Seq<F128>,
    points: Seq<Seq<F128>>,
    values: Seq<F128>,
    n: nat,
    m: nat,
)
    requires
        extended(g, n),
        true_of(g, points, values, n),
        m <= points.len(),
    ensures
        degree(batch_terms(g, weights, points, m), n, 2),
        cube_sum(batch_terms(g, weights, points, m), n, Seq::empty()) == inner(weights, values, m),
    decreases m,
{
    broadcast use group_field_units;

    let f = batch_terms(g, weights, points, m);
    if m == 0 {
        lemma_zero_terms(f, n);
    } else {
        let k = (m - 1) as nat;
        lemma_batch_terms(g, weights, points, values, n, k);
        let before = batch_terms(g, weights, points, k);
        let (w, p) = (weights[k as int], points[k as int]);
        let last = |x: Seq<F128>| w.times(equal_at(p, x, n)).times(g(x));
        lemma_selected(w, p, g, last, n);
        assert forall|x: Seq<F128>| x.len() == n implies #[trigger] f(x) == before(x).plus(
            last(x),
        ) by {
            lemma_plus_times(
                inner(weights, indicators(points, x), k),
                w.times(equal_at(p, x, n)),
                g(x),
            );
        }
        lemma_degree_sum(before, last, f, n, 2);
        lemma_cube_plus(before, last, f, n, Seq::empty());
    }
}

/// Completeness over one column: claims that are true of it are accepted with its
/// value at the last point, whatever the challenges.
pub proof fn lemma_honest_batch_accepted(
    g: spec_fn(Seq<F128>) -> F128,
    points: Seq<Seq<F128>>,
    values: Seq<F128>,
    levels: Seq<F128>,
    challenges: Seq<F128>,
)
    requires
        extended(g, challenges.len()),
        true_of(g, points, values, challenges.len()),
    ensures
        batch_checks(
            honest_pairs(
                batch_terms(g, rlc_weights(levels, values.len()), points, values.len()),
                challenges.len(),
                challenges,
            ),
            g(reversed(challenges)),
            points,
            values,
            levels,
            challenges,
        ),
{
    reveal(batch_checks);
    let n = challenges.len();
    let weights = rlc_weights(levels, values.len());
    lemma_batch_terms(g, weights, points, values, n, values.len());
    lemma_pairs_complete(batch_terms(g, weights, points, values.len()), n, challenges, n);
}

/// The value of the first `n` terms of a relation over a column: its entries at the
/// terms' indices under their coefficients.
pub open spec fn relation_of(
    g: spec_fn(Seq<F128>) -> F128,
    terms: Seq<(nat, F128)>,
    n: nat,
    count: nat,
) -> F128
    decreases count,
{
    if count == 0 {
        F128::zero()
    } else {
        relation_of(g, terms, n, (count - 1) as nat).plus(
            terms[count - 1].1.times(g(index_point(terms[count - 1].0, n))),
        )
    }
}

/// Relations that are true of a column.
pub open spec fn relations_true_of(
    g: spec_fn(Seq<F128>) -> F128,
    terms: Seq<Seq<(nat, F128)>>,
    values: Seq<F128>,
    n: nat,
) -> bool {
    &&& terms.len() == values.len()
    &&& forall|i: int|
        0 <= i < terms.len() ==> #[trigger] values[i] == relation_of(
            g,
            terms[i],
            n,
            terms[i].len(),
        )
}

proof fn lemma_relation_terms(
    g: spec_fn(Seq<F128>) -> F128,
    w: F128,
    terms: Seq<(nat, F128)>,
    f: spec_fn(Seq<F128>) -> F128,
    n: nat,
    count: nat,
)
    requires
        extended(g, n),
        count <= terms.len(),
        forall|x: Seq<F128>|
            x.len() == n ==> #[trigger] f(x) == w.times(relation_value(terms, x, count)).times(g(x)),
    ensures
        degree(f, n, 2),
        cube_sum(f, n, Seq::empty()) == w.times(relation_of(g, terms, n, count)),
    decreases count,
{
    broadcast use group_field_units;

    if count == 0 {
        lemma_zero_terms(f, n);
    } else {
        let k = (count - 1) as nat;
        let before = |x: Seq<F128>| w.times(relation_value(terms, x, k)).times(g(x));
        lemma_relation_terms(g, w, terms, before, n, k);
        let (index, coeff) = terms[k as int];
        let p = index_point(index, n);
        let wc = w.times(coeff);
        let last = |x: Seq<F128>| wc.times(equal_at(p, x, n)).times(g(x));
        lemma_selected(wc, p, g, last, n);
        assert forall|x: Seq<F128>| x.len() == n implies #[trigger] f(x) == before(x).plus(
            last(x),
        ) by {
            let (v, e) = (relation_value(terms, x, k), equal_at(p, x, n));
            lemma_times_plus(w, v, e.times(coeff));
            lemma_times_comm(e, coeff);
            lemma_times_assoc(w, coeff, e);
            lemma_plus_times(w.times(v), wc.times(e), g(x));
        }
        lemma_degree_sum(before, last, f, n, 2);
        lemma_cube_plus(before, last, f, n, Seq::empty());
        lemma_times_assoc(w, coeff, g(p));
        lemma_times_plus(w, relation_of(g, terms, n, k), coeff.times(g(p)));
    }
}

/// What a sumcheck over linear relations sums.
pub open spec fn linear_terms_of(
    g: spec_fn(Seq<F128>) -> F128,
    weights: Seq<F128>,
    terms: Seq<Seq<(nat, F128)>>,
    m: nat,
) -> spec_fn(Seq<F128>) -> F128 {
    |x: Seq<F128>| inner(weights, relation_values(terms, x), m).times(g(x))
}

proof fn lemma_linear_terms(
    g: spec_fn(Seq<F128>) -> F128,
    weights: Seq<F128>,
    terms: Seq<Seq<(nat, F128)>>,
    values: Seq<F128>,
    n: nat,
    m: nat,
)
    requires
        extended(g, n),
        relations_true_of(g, terms, values, n),
        m <= terms.len(),
    ensures
        degree(linear_terms_of(g, weights, terms, m), n, 2),
        cube_sum(linear_terms_of(g, weights, terms, m), n, Seq::empty()) == inner(
            weights,
            values,
            m,
        ),
    decreases m,
{
    broadcast use group_field_units;

    let f = linear_terms_of(g, weights, terms, m);
    if m == 0 {
        lemma_zero_terms(f, n);
    } else {
        let k = (m - 1) as nat;
        lemma_linear_terms(g, weights, terms, values, n, k);
        let before = linear_terms_of(g, weights, terms, k);
        let (w, t) = (weights[k as int], terms[k as int]);
        let last = |x: Seq<F128>| w.times(relation_value(t, x, t.len())).times(g(x));
        lemma_relation_terms(g, w, t, last, n, t.len());
        assert forall|x: Seq<F128>| x.len() == n implies #[trigger] f(x) == before(x).plus(
            last(x),
        ) by {
            lemma_plus_times(
                inner(weights, relation_values(terms, x), k),
                w.times(relation_value(t, x, t.len())),
                g(x),
            );
        }
        lemma_degree_sum(before, last, f, n, 2);
        lemma_cube_plus(before, last, f, n, Seq::empty());
        assert(values[k as int] == relation_of(g, t, n, t.len()));
    }
}

/// Completeness over linear relations: relations that are true of a column are
/// accepted with its value at the last point, whatever the challenges.
pub proof fn lemma_honest_linear_accepted(
    g: spec_fn(Seq<F128>) -> F128,
    terms: Seq<Seq<(nat, F128)>>,
    values: Seq<F128>,
    levels: Seq<F128>,
    challenges: Seq<F128>,
)
    requires
        extended(g, challenges.len()),
        relations_true_of(g, terms, values, challenges.len()),
    ensures
        linear_checks(
            honest_pairs(
                linear_terms_of(g, rlc_weights(levels, values.len()), terms, values.len()),
                challenges.len(),
                challenges,
            ),
            g(reversed(challenges)),
            terms,
            values,
            levels,
            challenges,
        ),
{
    reveal(linear_checks);
    let n = challenges.len();
    let weights = rlc_weights(levels, values.len());
    lemma_linear_terms(g, weights, terms, values, n, values.len());
    lemma_pairs_complete(linear_terms_of(g, weights, terms, values.len()), n, challenges, n);
}

/// What a sumcheck over several columns sums: every column against its own weighted
/// points.
pub open spec fn multi_terms(
    gs: Seq<spec_fn(Seq<F128>) -> F128>,
    weights: Seq<Seq<F128>>,
    points: Seq<Seq<Seq<F128>>>,
    k: nat,
) -> spec_fn(Seq<F128>) -> F128
    decreases k,
{
    |x: Seq<F128>|
        if k == 0 {
            F128::zero()
        } else {
            multi_terms(gs, weights, points, (k - 1) as nat)(x).plus(
                batch_terms(gs[k - 1], weights[k - 1], points[k - 1], points[k - 1].len())(x),
            )
        }
}

/// The columns at a point.
pub open spec fn values_at(gs: Seq<spec_fn(Seq<F128>) -> F128>, x: Seq<F128>) -> Seq<F128> {
    Seq::new(gs.len(), |i: int| gs[i](x))
}

/// Claims that are true of columns.
pub open spec fn all_true_of(
    gs: Seq<spec_fn(Seq<F128>) -> F128>,
    points: Seq<Seq<Seq<F128>>>,
    values: Seq<Seq<F128>>,
    n: nat,
) -> bool {
    &&& points.len() == gs.len()
    &&& values.len() == gs.len()
    &&& forall|i: int| 0 <= i < gs.len() ==> extended(#[trigger] gs[i], n)
    &&& forall|i: int| 0 <= i < gs.len() ==> true_of(#[trigger] gs[i], points[i], values[i], n)
}

proof fn lemma_multi_terms(
    gs: Seq<spec_fn(Seq<F128>) -> F128>,
    weights: Seq<Seq<F128>>,
    points: Seq<Seq<Seq<F128>>>,
    values: Seq<Seq<F128>>,
    n: nat,
    k: nat,
)
    requires
        all_true_of(gs, points, values, n),
        k <= gs.len(),
    ensures
        degree(multi_terms(gs, weights, points, k), n, 2),
        cube_sum(multi_terms(gs, weights, points, k), n, Seq::empty()) == columns_inner(
            weights,
            values,
            k,
        ),
        forall|x: Seq<F128>|
            x.len() == n ==> #[trigger] multi_terms(gs, weights, points, k)(x) == columns_final(
                weights,
                points,
                x,
                values_at(gs, x),
                k,
            ),
    decreases k,
{
    let f = multi_terms(gs, weights, points, k);
    if k == 0 {
        lemma_zero_terms(f, n);
    } else {
        let j = (k - 1) as nat;
        lemma_multi_terms(gs, weights, points, values, n, j);
        let before = multi_terms(gs, weights, points, j);
        let g = gs[j as int];
        let last = batch_terms(g, weights[j as int], points[j as int], points[j as int].len());
        lemma_batch_terms(
            g,
            weights[j as int],
            points[j as int],
            values[j as int],
            n,
            points[j as int].len(),
        );
        lemma_degree_sum(before, last, f, n, 2);
        lemma_cube_plus(before, last, f, n, Seq::empty());
    }
}

/// Completeness over several columns: claims that are true of them are accepted with
/// their values at the last point, whatever the challenges.
pub proof fn lemma_honest_multi_accepted(
    gs: Seq<spec_fn(Seq<F128>) -> F128>,
    points: Seq<Seq<Seq<F128>>>,
    values: Seq<Seq<F128>>,
    levels: Seq<Seq<F128>>,
    challenges: Seq<F128>,
)
    requires
        all_true_of(gs, points, values, challenges.len()),
    ensures
        multi_checks(
            honest_pairs(
                multi_terms(gs, columns_weights(levels, values), points, values.len()),
                challenges.len(),
                challenges,
            ),
            values_at(gs, reversed(challenges)),
            points,
            values,
            levels,
            challenges,
        ),
{
    reveal(multi_checks);
    let n = challenges.len();
    let weights = columns_weights(levels, values);
    lemma_multi_terms(gs, weights, points, values, n, values.len());
    lemma_pairs_complete(multi_terms(gs, weights, points, values.len()), n, challenges, n);
}

// ---------------------------------------------------------------------------
// Every claim enters
// ---------------------------------------------------------------------------

/// The part of a round's claim that reaches the next.
pub open spec fn passed_on(challenges: Seq<F128>, n: nat) -> F128
    decreases n,
{
    if n == 0 {
        F128::one()
    } else {
        let r = challenges[n - 1];
        passed_on(challenges, (n - 1) as nat).times(
            r.plus(F128::one()).times(r.plus(F128::of_nat(2))),
        ).times(F128::of_nat(3))
    }
}

/// Rounds carry a difference between claims on.
pub proof fn lemma_rounds_apart(
    rounds: Seq<(F128, F128)>,
    a: F128,
    b: F128,
    challenges: Seq<F128>,
    n: nat,
)
    ensures
        claim_after(rounds, a, challenges, n).plus(claim_after(rounds, b, challenges, n)) == a.plus(
            b,
        ).times(passed_on(challenges, n)),
    decreases n,
{
    broadcast use {group_field_units, lemma_plus_is_zero};

    if n > 0 {
        let m = (n - 1) as nat;
        lemma_rounds_apart(rounds, a, b, challenges, m);
        let (x, y) = (claim_after(rounds, a, challenges, m), claim_after(rounds, b, challenges, m));
        let (e1, e2) = rounds[n - 1];
        let (two, three) = (F128::of_nat(2), F128::of_nat(3));
        let r = challenges[n - 1];
        let (r1, r2) = (r.plus(F128::one()), r.plus(two));
        let (s, t) = (e1.times(r.times(r2)).times(two), e2.times(r.times(r1)));
        let k = r1.times(r2);
        let (p, q) = (x.plus(e1).times(k).times(three), y.plus(e1).times(k).times(three));
        lemma_plus_swap(p.plus(s), t, q.plus(s), t);
        lemma_plus_swap(p, s, q, s);
        lemma_plus_times(x.plus(e1).times(k), y.plus(e1).times(k), three);
        lemma_plus_times(x.plus(e1), y.plus(e1), k);
        lemma_plus_swap(x, e1, y, e1);
        let d = a.plus(b);
        let before = passed_on(challenges, m);
        lemma_times_assoc(d, before, k);
        lemma_times_assoc(d, before.times(k), three);
    }
}

/// A claim's value enters a batch: under one proof and the same challenges, of two
/// lists of values that differ in one entry alone at most one is accepted, unless
/// that entry's weight or what the rounds pass on is zero.
pub proof fn lemma_batch_value_binds(
    rounds: Seq<(F128, F128)>,
    b_final: F128,
    points: Seq<Seq<F128>>,
    values: Seq<F128>,
    levels: Seq<F128>,
    challenges: Seq<F128>,
    i: int,
    other: F128,
)
    requires
        0 <= i < values.len(),
        batch_checks(rounds, b_final, points, values, levels, challenges),
        batch_checks(rounds, b_final, points, values.update(i, other), levels, challenges),
        rlc_weight(levels, i as nat, levels.len()) != F128::zero(),
        passed_on(challenges, rounds.len()) != F128::zero(),
    ensures
        values[i] == other,
{
    reveal(batch_checks);
    let m = values.len();
    let weights = rlc_weights(levels, m);
    let changed = values.update(i, other);
    let (a, b) = (inner(weights, values, m), inner(weights, changed, m));
    lemma_rounds_apart(rounds, a, b, challenges, rounds.len());
    lemma_plus_is_zero(
        claim_after(rounds, a, challenges, rounds.len()),
        claim_after(rounds, b, challenges, rounds.len()),
    );
    lemma_times_is_zero(a.plus(b), passed_on(challenges, rounds.len()));
    lemma_inner_apart(weights, values, i, other, m);
    lemma_times_is_zero(weights[i], values[i].plus(other));
    lemma_plus_is_zero(values[i], other);
}

proof fn lemma_inner_apart(w: Seq<F128>, v: Seq<F128>, i: int, other: F128, n: nat)
    requires
        0 <= i < v.len(),
        n <= v.len(),
    ensures
        inner(w, v, n).plus(inner(w, v.update(i, other), n)) == if i < n {
            w[i].times(v[i].plus(other))
        } else {
            F128::zero()
        },
    decreases n,
{
    broadcast use {group_field_units, lemma_plus_is_zero};

    if n > 0 {
        let m = (n - 1) as nat;
        let u = v.update(i, other);
        lemma_inner_apart(w, v, i, other, m);
        lemma_plus_swap(
            inner(w, v, m),
            w[m as int].times(v[m as int]),
            inner(w, u, m),
            w[m as int].times(u[m as int]),
        );
        if m == i {
            lemma_times_plus(w[i], v[i], other);
        }
    }
}

// ---------------------------------------------------------------------------
// Weights
// ---------------------------------------------------------------------------

/// The weight of the first claim is one.
pub proof fn lemma_weight_first(cs: Seq<F128>, n: nat)
    ensures
        rlc_weight(cs, 0, n) == F128::one(),
    decreases n,
{
    broadcast use group_field_units;

    if n > 0 {
        lemma_weight_first(cs, (n - 1) as nat);
        lemma_quotient_zero((n - 1) as nat);
        reveal_with_fuel(power, 2);
    }
}

proof fn lemma_quotient_zero(j: nat)
    ensures
        quotient(0, j) == 0,
    decreases j,
{
    if j > 0 {
        lemma_quotient_zero((j - 1) as nat);
    }
}

proof fn lemma_quotient_shift(v: nat, j: nat)
    ensures
        quotient(v, j + 1) == quotient(v / 64, j),
    decreases j,
{
    reveal_with_fuel(quotient, 2);
    if j > 0 {
        lemma_quotient_shift(v, (j - 1) as nat);
    }
}

/// The weight of claim `i` is the first challenge to the power of its lowest digit,
/// times the weight that the other challenges give to `i` without that digit.
pub proof fn lemma_weight_digits(cs: Seq<F128>, i: nat, n: nat)
    requires
        1 <= n <= cs.len(),
    ensures
        rlc_weight(cs, i, n) == power(cs[0], i % 64).times(
            rlc_weight(cs.skip(1), i / 64, (n - 1) as nat),
        ),
    decreases n,
{
    broadcast use group_field_units;

    reveal_with_fuel(rlc_weight, 2);
    if n == 1 {
        assert(quotient(i, 0) == i);
    } else {
        let m = (n - 1) as nat;
        lemma_weight_digits(cs, i, m);
        lemma_quotient_shift(i, (m - 1) as nat);
        assert(cs.skip(1)[m - 1] == cs[m as int]);
        lemma_times_assoc(
            power(cs[0], i % 64),
            rlc_weight(cs.skip(1), i / 64, (m - 1) as nat),
            power(cs[m as int], level_digit(i, m)),
        );
    }
}

/// A batch has as many levels as its indices have digits: no two of them agree in all
/// the digits that have a challenge.
pub proof fn lemma_levels_tell_apart(m: nat, i: nat, j: nat)
    requires
        i < m,
        j < m,
        forall|l: nat| l < levels_of(m) ==> level_digit(i, l) == #[trigger] level_digit(j, l),
    ensures
        i == j,
    decreases m,
{
    reveal_with_fuel(levels_of, 2);
    assert(level_digit(i, 0) == level_digit(j, 0));
    assert(quotient(i, 0) == i && quotient(j, 0) == j);
    if m > 64 {
        let n = ((m - 1) / 64 + 1) as nat;
        assert forall|l: nat| l < levels_of(n) implies level_digit(i / 64, l)
            == #[trigger] level_digit(j / 64, l) by {
            lemma_quotient_shift(i, l);
            lemma_quotient_shift(j, l);
            assert(level_digit(i, l + 1) == level_digit(j, l + 1));
        }
        lemma_levels_tell_apart(n, i / 64, j / 64);
    }
}

} // verus!
