//! What a matrix fold is for: an honest fold of true claims is accepted and ends on
//! a true claim, and the values that are folded enter the check.

use vstd::prelude::*;
use vstd::arithmetic::power2::pow2;
use crate::eval_gadgets::{equal_at, inner, tensor};
use crate::field::{
    group_field_units, lemma_plus_comm, lemma_plus_is_zero, lemma_plus_swap, lemma_times_assoc,
    lemma_times_comm, lemma_times_is_zero, lemma_times_plus, F128,
};
use crate::matrix_fold::{
    columns_check, fold_accepts, folded_claim, folded_point, quadratic, rows_check, FoldValues,
};
use crate::round_poly::poly_at;
use crate::batch_eval::reversed;
use crate::sumcheck::{
    affine, along, at_first, at_second, cube_sum, degree, fixed, gives, is_poly, joined,
    lemma_affine_constant, lemma_affine_degree, lemma_affine_product, lemma_affine_sum,
    lemma_affine_variable, lemma_affine_wider, lemma_cube_affine, lemma_cube_plus, lemma_cube_same,
    lemma_degree_product, lemma_degree_sum, lemma_equal_affine, lemma_equal_prefix,
    lemma_fixed_step, lemma_plus_times, lemma_round, lemma_selected, lemma_tensor_affine,
    lemma_tensor_prefix, round_coeffs,
};

verus! {

// ---------------------------------------------------------------------------
// The values that are folded
// ---------------------------------------------------------------------------

/// The product of the first `n` challenges.
pub open spec fn product_of(challenges: Seq<F128>, n: nat) -> F128
    decreases n,
{
    if n == 0 {
        F128::one()
    } else {
        product_of(challenges, (n - 1) as nat).times(challenges[n - 1])
    }
}

/// Rounds carry a difference between claims on, under the product of their
/// challenges.
pub proof fn lemma_claims_apart(
    rounds: Seq<Seq<F128>>,
    a: F128,
    b: F128,
    challenges: Seq<F128>,
    n: nat,
)
    ensures
        folded_claim(rounds, a, challenges, n).plus(folded_claim(rounds, b, challenges, n))
            == a.plus(b).times(product_of(challenges, n)),
    decreases n,
{
    broadcast use {group_field_units, lemma_plus_is_zero};

    if n > 0 {
        let m = (n - 1) as nat;
        lemma_claims_apart(rounds, a, b, challenges, m);
        let (x, y) = (
            folded_claim(rounds, a, challenges, m),
            folded_claim(rounds, b, challenges, m),
        );
        let (w, r) = (rounds[n - 1], challenges[n - 1]);
        let t = w[1].times(r);
        let (p, q) = (t.plus(x.plus(w[1])), t.plus(y.plus(w[1])));
        // p + q is x + y.
        lemma_plus_swap(t, x.plus(w[1]), t, y.plus(w[1]));
        lemma_plus_swap(x, w[1], y, w[1]);
        assert(p.plus(q) == x.plus(y));
        lemma_plus_swap(p.times(r), w[0], q.times(r), w[0]);
        lemma_plus_times(p, q, r);
        lemma_times_assoc(a.plus(b), product_of(challenges, m), r);
    }
}

/// The incoming value enters a fold: under one proof and the same challenges, of
/// two incoming claims that differ in value alone at most one is accepted, unless
/// its gate or a challenge of the first sumcheck is zero.
pub proof fn lemma_incoming_value_binds(
    v: FoldValues,
    other: F128,
    k_log: int,
    k_skip: int,
    draws: Seq<F128>,
)
    requires
        k_log >= 0,
        fold_accepts(v, k_log, k_skip, draws),
        fold_accepts(FoldValues { in_value: other, ..v }, k_log, k_skip, draws),
        v.gate != F128::zero(),
        draws[0] != F128::zero(),
        product_of(draws.subrange(1, k_log + 2), (k_log + 1) as nat) != F128::zero(),
    ensures
        v.in_value == other,
{
    broadcast use lemma_plus_is_zero;

    let rho = draws.subrange(1, k_log + 2);
    let n = (k_log + 1) as nat;
    let gg = draws[0].times(v.gate);
    let (a, b) = (v.value.plus(gg.times(v.in_value)), v.value.plus(gg.times(other)));
    lemma_claims_apart(v.first, a, b, rho, n);
    lemma_times_is_zero(a.plus(b), product_of(rho, n));
    lemma_times_is_zero(draws[0], v.gate);
    lemma_plus_is_zero(a, b);
    assert(a == b);
    assert(v.value.plus(a) == gg.times(v.in_value));
    assert(v.value.plus(b) == gg.times(other));
    lemma_times_plus(gg, v.in_value, other);
    lemma_times_is_zero(gg, v.in_value.plus(other));
    lemma_plus_is_zero(gg.times(v.in_value), gg.times(other));
    lemma_plus_is_zero(v.in_value, other);
}

/// The fresh value enters a fold in the same way, whatever its gate.
pub proof fn lemma_fresh_value_binds(
    v: FoldValues,
    other: F128,
    k_log: int,
    k_skip: int,
    draws: Seq<F128>,
)
    requires
        k_log >= 0,
        fold_accepts(v, k_log, k_skip, draws),
        fold_accepts(FoldValues { value: other, ..v }, k_log, k_skip, draws),
        product_of(draws.subrange(1, k_log + 2), (k_log + 1) as nat) != F128::zero(),
    ensures
        v.value == other,
{
    broadcast use lemma_plus_is_zero;

    let rho = draws.subrange(1, k_log + 2);
    let n = (k_log + 1) as nat;
    let t = draws[0].times(v.gate).times(v.in_value);
    let (a, b) = (v.value.plus(t), other.plus(t));
    lemma_claims_apart(v.first, a, b, rho, n);
    lemma_times_is_zero(a.plus(b), product_of(rho, n));
    lemma_plus_is_zero(a, b);
    assert(a.plus(t) == v.value && b.plus(t) == other);
}

// ---------------------------------------------------------------------------
// True claims
// ---------------------------------------------------------------------------

/// A matrix by its extension: affine in every row and column coordinate.
pub open spec fn extended_matrix(
    m: spec_fn(Seq<F128>, Seq<F128>) -> F128,
    k_log: int,
) -> bool {
    &&& forall|y: Seq<F128>|
        y.len() == k_log ==> affine(#[trigger] at_second(m, y), (k_log + 1) as nat, 0, k_log + 1)
    &&& forall|x: Seq<F128>|
        x.len() == k_log + 1 ==> affine(#[trigger] at_first(m, x), k_log as nat, 0, k_log)
}

/// The weight of a row: its low coordinates under the table `lambda`, the next
/// against `x_rest`, and the last, which tells the two stacked matrices apart,
/// `alpha` for the first and one for the second.
pub open spec fn row_weight(
    lambda: Seq<F128>,
    x_rest: Seq<F128>,
    alpha: F128,
    k_log: int,
    k_skip: int,
    x: Seq<F128>,
) -> F128 {
    table_at_point(lambda, x, k_skip).times(
        equal_at(x_rest, x.subrange(k_skip, k_log + 1), (k_log - k_skip) as nat),
    ).times(alpha.plus(alpha.plus(F128::one()).times(x[k_log])))
}

/// The weight of a column.
pub open spec fn column_weight(
    z_partial: Seq<F128>,
    r_rest: Seq<F128>,
    k_log: int,
    k_skip: int,
    y: Seq<F128>,
) -> F128 {
    table_at_point(z_partial, y, k_skip).times(
        equal_at(r_rest, y.subrange(k_skip, k_log), (k_log - k_skip) as nat),
    )
}

/// A table at a point of `k` coordinates: its entries under the equality indicators
/// of their indices.
pub open spec fn table_at_point(t: Seq<F128>, x: Seq<F128>, k: int) -> F128 {
    inner(t, tensor(x, k as nat), t.len())
}

/// The value of a fresh claim: all the entries of the matrix, under the weights of
/// their rows and columns.
pub open spec fn fresh_value(
    m: spec_fn(Seq<F128>, Seq<F128>) -> F128,
    v: FoldValues,
    k_log: int,
    k_skip: int,
) -> F128 {
    cube_sum(
        |x: Seq<F128>|
            row_weight(v.lambda, v.x_rest, v.alpha, k_log, k_skip, x).times(
                rows_at(m, v, k_log, k_skip, x),
            ),
        (k_log + 1) as nat,
        Seq::empty(),
    )
}

/// The rows of a matrix against the column weights.
pub open spec fn rows_at(
    m: spec_fn(Seq<F128>, Seq<F128>) -> F128,
    v: FoldValues,
    k_log: int,
    k_skip: int,
    x: Seq<F128>,
) -> F128 {
    cube_sum(at_first(weighed_entries(m, v, k_log, k_skip), x), k_log as nat, Seq::empty())
}

pub open spec fn weighed_entries(
    m: spec_fn(Seq<F128>, Seq<F128>) -> F128,
    v: FoldValues,
    k_log: int,
    k_skip: int,
) -> spec_fn(Seq<F128>, Seq<F128>) -> F128 {
    |x: Seq<F128>, y: Seq<F128>|
        column_weight(v.z_partial, v.r_rest, k_log, k_skip, y).times(m(x, y))
}

/// A table at a point is affine in the coordinates that it reads.
pub proof fn lemma_table_affine(
    t: Seq<F128>,
    f: spec_fn(Seq<F128>) -> F128,
    n: nat,
    k: nat,
    count: nat,
)
    requires
        k <= n,
        count <= pow2(k),
        forall|x: Seq<F128>| x.len() == n ==> #[trigger] f(x) == inner(t, tensor(x, k), count),
    ensures
        affine(f, n, 0, k as int),
    decreases count,
{
    broadcast use group_field_units;

    if count == 0 {
        lemma_affine_constant(f, n, F128::zero(), 0);
        lemma_affine_wider(f, n, 0, 0, 0, k as int);
    } else {
        let m = (count - 1) as nat;
        let g = |x: Seq<F128>| inner(t, tensor(x, k), m);
        lemma_table_affine(t, g, n, k, m);
        let e = |x: Seq<F128>| tensor(x, k)[m as int];
        assert forall|x: Seq<F128>| x.len() == n implies #[trigger] e(x) == tensor(
            x.subrange(0, n as int),
            k,
        )[m as int] by {
            assert(x.subrange(0, n as int) =~= x);
        }
        lemma_tensor_affine(e, n, 0, k, m as int);
        let w = t[m as int];
        let c = |x: Seq<F128>| w;
        lemma_affine_constant(c, n, w, 0);
        let s = |x: Seq<F128>| w.times(e(x));
        lemma_affine_product(c, e, s, n, 0, 0, k as int);
        lemma_affine_sum(g, s, f, n, 0, k as int);
    }
}

proof fn lemma_row_weight_affine(v: FoldValues, k_log: int, k_skip: int)
    requires
        0 <= k_skip <= k_log,
        v.lambda.len() == pow2(k_skip as nat),
    ensures
        affine(
            |x: Seq<F128>| row_weight(v.lambda, v.x_rest, v.alpha, k_log, k_skip, x),
            (k_log + 1) as nat,
            0,
            k_log + 1,
        ),
{
    let n = (k_log + 1) as nat;
    let a = |x: Seq<F128>| table_at_point(v.lambda, x, k_skip);
    lemma_table_affine(v.lambda, a, n, k_skip as nat, v.lambda.len());
    let b = |x: Seq<F128>|
        equal_at(v.x_rest, x.subrange(k_skip, k_log + 1), (k_log - k_skip) as nat);
    lemma_equal_affine(v.x_rest, b, n, k_skip, (k_log - k_skip) as nat);
    let ab = |x: Seq<F128>| a(x).times(b(x));
    lemma_affine_product(a, b, ab, n, 0, k_skip, k_log);
    let q = v.alpha.plus(F128::one());
    let c = |x: Seq<F128>| v.alpha.plus(q.times(x[k_log]));
    lemma_affine_variable(c, n, k_log, v.alpha, q);
    let f = |x: Seq<F128>| row_weight(v.lambda, v.x_rest, v.alpha, k_log, k_skip, x);
    lemma_affine_product(ab, c, f, n, 0, k_log, k_log + 1);
}

proof fn lemma_column_weight_affine(v: FoldValues, k_log: int, k_skip: int)
    requires
        0 <= k_skip <= k_log,
        v.z_partial.len() == pow2(k_skip as nat),
    ensures
        affine(
            |y: Seq<F128>| column_weight(v.z_partial, v.r_rest, k_log, k_skip, y),
            k_log as nat,
            0,
            k_log,
        ),
{
    let n = k_log as nat;
    let a = |y: Seq<F128>| table_at_point(v.z_partial, y, k_skip);
    lemma_table_affine(v.z_partial, a, n, k_skip as nat, v.z_partial.len());
    let b = |y: Seq<F128>|
        equal_at(v.r_rest, y.subrange(k_skip, k_log), (k_log - k_skip) as nat);
    lemma_equal_affine(v.r_rest, b, n, k_skip, (k_log - k_skip) as nat);
    let f = |y: Seq<F128>| column_weight(v.z_partial, v.r_rest, k_log, k_skip, y);
    lemma_affine_product(a, b, f, n, 0, k_skip, k_log);
}

// ---------------------------------------------------------------------------
// Honest rounds
// ---------------------------------------------------------------------------

/// The honest messages of quadratic rounds: the constant and the quadratic
/// coefficient.
pub open spec fn honest_rounds(
    f: spec_fn(Seq<F128>) -> F128,
    n: nat,
    challenges: Seq<F128>,
) -> Seq<Seq<F128>> {
    Seq::new(
        n,
        |k: int|
            {
                let c = round_coeffs(f, 2, (n - k - 1) as nat, fixed(challenges, k));
                seq![c[0], c[2]]
            },
    )
}

/// A round takes the values at zero and one of a quadratic to its value at the
/// challenge.
proof fn lemma_quadratic_round(c: Seq<F128>, claim: F128, r: F128)
    requires
        c.len() == 3,
        poly_at(c, F128::zero()).plus(poly_at(c, F128::one())) == claim,
    ensures
        quadratic(seq![c[0], c[2]], claim, r) == poly_at(c, r),
{
    broadcast use {group_field_units, lemma_plus_is_zero};

    reveal_with_fuel(poly_at, 4);
    let low = c.skip(1);
    assert(low.skip(1) =~= seq![c[2]]);
    assert(low[0] == c[1]);
    assert(poly_at(low, r) == c[1].plus(c[2].times(r)));
    assert(poly_at(low, F128::one()) == c[1].plus(c[2]));
    assert(claim == c[1].plus(c[2]));
    assert(claim.plus(c[2]) == c[1]);
    lemma_plus_comm(c[1], c[2].times(r));
    lemma_plus_comm(c[0], c[2].times(r).plus(c[1]).times(r));
}

/// Completeness of quadratic rounds.
pub proof fn lemma_rounds_complete(
    f: spec_fn(Seq<F128>) -> F128,
    n: nat,
    challenges: Seq<F128>,
    k: nat,
)
    requires
        degree(f, n, 2),
        challenges.len() == n,
        k <= n,
    ensures
        folded_claim(
            honest_rounds(f, n, challenges),
            cube_sum(f, n, Seq::empty()),
            challenges,
            k,
        ) == cube_sum(f, (n - k) as nat, fixed(challenges, k as int)),
        k == n ==> cube_sum(f, (n - k) as nat, fixed(challenges, k as int)) == f(
            reversed(challenges),
        ),
    decreases k,
{
    if k == 0 {
        assert(fixed(challenges, 0) =~= Seq::empty());
    } else {
        let j = (k - 1) as nat;
        lemma_rounds_complete(f, n, challenges, j);
        let tail = fixed(challenges, j as int);
        let m = (n - k) as nat;
        lemma_fixed_step(challenges, j as int);
        lemma_round(f, n, 2, m, tail);
        let c = round_coeffs(f, 2, m, tail);
        assert(honest_rounds(f, n, challenges)[j as int] == seq![c[0], c[2]]);
        lemma_quadratic_round(c, cube_sum(f, m + 1, tail), challenges[j as int]);
    }
    if k == n {
        assert(challenges.take(n as int) =~= challenges);
    }
}

// ---------------------------------------------------------------------------
// Points the other way round
// ---------------------------------------------------------------------------

/// A function of points read from the last coordinate to the first.
pub open spec fn turned(f: spec_fn(Seq<F128>) -> F128) -> spec_fn(Seq<F128>) -> F128 {
    |x: Seq<F128>| f(reversed(x))
}

proof fn lemma_turned_degree(f: spec_fn(Seq<F128>) -> F128, n: nat, d: nat)
    requires
        degree(f, n, d),
    ensures
        degree(turned(f), n, d),
{
    let g = turned(f);
    assert forall|a: Seq<F128>, b: Seq<F128>| a.len() + 1 + b.len() == n implies is_poly(
        #[trigger] along(g, a, b),
        d,
    ) by {
        let (p, q) = (reversed(b), reversed(a));
        assert(is_poly(along(f, p, q), d));
        let c = choose|c: Seq<F128>| gives(c, along(f, p, q), d);
        assert(gives(c, along(g, a, b), d)) by {
            assert forall|x: F128| #[trigger] poly_at(c, x) == along(g, a, b)(x) by {
                assert(along(f, p, q)(x) == poly_at(c, x));
                assert(reversed(joined(a, x, b)) =~= joined(p, x, q));
            }
        }
    }
}

/// A function behind a fixed first coordinate.
pub open spec fn behind(f: spec_fn(Seq<F128>) -> F128, v: F128) -> spec_fn(Seq<F128>) -> F128 {
    |x: Seq<F128>| f(seq![v] + x)
}

proof fn lemma_cube_first(f: spec_fn(Seq<F128>) -> F128, n: nat, tail: Seq<F128>)
    requires
        n >= 1,
    ensures
        cube_sum(f, n, tail) == cube_sum(behind(f, F128::zero()), (n - 1) as nat, tail).plus(
            cube_sum(behind(f, F128::one()), (n - 1) as nat, tail),
        ),
    decreases n,
{
    reveal_with_fuel(cube_sum, 2);
    let (o, e) = (F128::zero(), F128::one());
    let m = (n - 1) as nat;
    if m > 0 {
        let (s, t) = (seq![o] + tail, seq![e] + tail);
        lemma_cube_first(f, m, s);
        lemma_cube_first(f, m, t);
        let k = (m - 1) as nat;
        lemma_plus_swap(
            cube_sum(behind(f, o), k, s),
            cube_sum(behind(f, e), k, s),
            cube_sum(behind(f, o), k, t),
            cube_sum(behind(f, e), k, t),
        );
    }
}

/// A sum over the cube is the same in either direction.
proof fn lemma_cube_turned(f: spec_fn(Seq<F128>) -> F128, n: nat)
    ensures
        cube_sum(turned(f), n, Seq::empty()) == cube_sum(f, n, Seq::empty()),
    decreases n,
{
    if n == 0 {
        assert(reversed(Seq::<F128>::empty()) =~= Seq::empty());
    } else {
        let (o, e) = (F128::zero(), F128::one());
        let m = (n - 1) as nat;
        lemma_cube_first(f, n, Seq::empty());
        lemma_cube_turned(behind(f, o), m);
        lemma_cube_turned(behind(f, e), m);
        lemma_cube_turned_end(f, m, o);
        lemma_cube_turned_end(f, m, e);
        assert(seq![o] + Seq::<F128>::empty() =~= seq![o]);
        assert(seq![e] + Seq::<F128>::empty() =~= seq![e]);
    }
}

proof fn lemma_cube_turned_end(f: spec_fn(Seq<F128>) -> F128, m: nat, v: F128)
    ensures
        cube_sum(turned(f), m, seq![v]) == cube_sum(turned(behind(f, v)), m, Seq::empty()),
{
    let g = turned(behind(f, v));
    let h = |x: Seq<F128>| g(x.drop_last());
    assert forall|x: Seq<F128>|
        x.len() == m + 1 && x.subrange(m as int, x.len() as int) == seq![v] implies #[trigger] turned(
        f,
    )(x) == h(x) by {
        assert(x[m as int] == x.subrange(m as int, x.len() as int)[0]);
        assert(reversed(x) =~= seq![v] + reversed(x.drop_last()));
    }
    lemma_cube_same(turned(f), h, m, seq![v]);
    assert(Seq::<F128>::empty().push(v) =~= seq![v]);
    lemma_cube_dropped(g, h, m, Seq::empty(), v);
}

proof fn lemma_cube_dropped(
    g: spec_fn(Seq<F128>) -> F128,
    h: spec_fn(Seq<F128>) -> F128,
    m: nat,
    tail: Seq<F128>,
    v: F128,
)
    requires
        forall|x: Seq<F128>| #[trigger] h(x) == g(x.drop_last()),
    ensures
        cube_sum(h, m, tail.push(v)) == cube_sum(g, m, tail),
    decreases m,
{
    if m == 0 {
        assert(tail.push(v).drop_last() =~= tail);
    } else {
        let (s, t) = (seq![F128::zero()] + tail, seq![F128::one()] + tail);
        lemma_cube_dropped(g, h, (m - 1) as nat, s, v);
        lemma_cube_dropped(g, h, (m - 1) as nat, t, v);
        assert(seq![F128::zero()] + tail.push(v) =~= s.push(v));
        assert(seq![F128::one()] + tail.push(v) =~= t.push(v));
    }
}

// ---------------------------------------------------------------------------
// An honest fold
// ---------------------------------------------------------------------------

/// What the first sumcheck of a fold sums over the rows: the rows under their
/// weights, and the column of the incoming point against its row.
pub open spec fn row_terms(
    m: spec_fn(Seq<F128>, Seq<F128>) -> F128,
    v: FoldValues,
    k_log: int,
    k_skip: int,
    gamma: F128,
) -> spec_fn(Seq<F128>) -> F128 {
    let row = v.in_point.subrange(0, k_log + 1);
    let col = v.in_point.subrange(k_log + 1, 2 * k_log + 1);
    |x: Seq<F128>|
        row_weight(v.lambda, v.x_rest, v.alpha, k_log, k_skip, x).times(
            rows_at(m, v, k_log, k_skip, x),
        ).plus(
            gamma.times(v.gate).times(equal_at(row, x, (k_log + 1) as nat)).times(m(x, col)),
        )
}

/// What the second sums over the columns.
pub open spec fn column_terms(
    m: spec_fn(Seq<F128>, Seq<F128>) -> F128,
    v: FoldValues,
    k_log: int,
    k_skip: int,
    rho: Seq<F128>,
    delta: F128,
) -> spec_fn(Seq<F128>) -> F128 {
    let col = v.in_point.subrange(k_log + 1, 2 * k_log + 1);
    |y: Seq<F128>|
        column_weight(v.z_partial, v.r_rest, k_log, k_skip, y).plus(
            delta.times(v.gate).times(equal_at(col, y, k_log as nat)),
        ).times(m(rho, y))
}

/// The claims `v` with the messages that an honest prover of the matrix `m` answers
/// the challenges `draws` with.
pub open spec fn honest_fold(
    m: spec_fn(Seq<F128>, Seq<F128>) -> F128,
    v: FoldValues,
    k_log: int,
    k_skip: int,
    draws: Seq<F128>,
) -> FoldValues {
    let rho = draws.subrange(1, k_log + 2);
    let sigma = draws.subrange(k_log + 3, 2 * k_log + 3);
    let col = v.in_point.subrange(k_log + 1, 2 * k_log + 1);
    FoldValues {
        first: honest_rounds(
            turned(row_terms(m, v, k_log, k_skip, draws[0])),
            (k_log + 1) as nat,
            rho,
        ),
        g_v: rows_at(m, v, k_log, k_skip, rho),
        g_e: m(rho, col),
        second: honest_rounds(
            turned(column_terms(m, v, k_log, k_skip, rho, draws[k_log + 2])),
            k_log as nat,
            sigma,
        ),
        end: m(rho, sigma),
        ..v
    }
}

/// The claims of a fold are true of the matrix `m`: the fresh value is the weighted
/// sum of its entries, and where its gate is open the incoming value is the matrix
/// at the incoming point.
pub open spec fn true_claims(
    m: spec_fn(Seq<F128>, Seq<F128>) -> F128,
    v: FoldValues,
    k_log: int,
    k_skip: int,
) -> bool {
    &&& 0 <= k_skip <= k_log
    &&& extended_matrix(m, k_log)
    &&& v.lambda.len() == pow2(k_skip as nat)
    &&& v.z_partial.len() == pow2(k_skip as nat)
    &&& v.in_point.len() == 2 * k_log + 1
    &&& v.value == fresh_value(m, v, k_log, k_skip)
    &&& v.gate != F128::zero() ==> v.in_value == m(
        v.in_point.subrange(0, k_log + 1),
        v.in_point.subrange(k_log + 1, 2 * k_log + 1),
    )
}

proof fn lemma_rows_affine(
    m: spec_fn(Seq<F128>, Seq<F128>) -> F128,
    v: FoldValues,
    k_log: int,
    k_skip: int,
)
    requires
        0 <= k_skip <= k_log,
        extended_matrix(m, k_log),
    ensures
        affine(
            |x: Seq<F128>| rows_at(m, v, k_log, k_skip, x),
            (k_log + 1) as nat,
            0,
            k_log + 1,
        ),
{
    let n = (k_log + 1) as nat;
    let h = weighed_entries(m, v, k_log, k_skip);
    assert forall|y: Seq<F128>| y.len() == k_log + Seq::<F128>::empty().len() implies affine(
        #[trigger] at_second(h, y),
        n,
        0,
        k_log + 1,
    ) by {
        let w = column_weight(v.z_partial, v.r_rest, k_log, k_skip, y);
        let c = |x: Seq<F128>| w;
        lemma_affine_constant(c, n, w, 0);
        assert(affine(at_second(m, y), n, 0, k_log + 1));
        lemma_affine_product(c, at_second(m, y), at_second(h, y), n, 0, 0, k_log + 1);
    }
    lemma_cube_affine(
        h,
        |x: Seq<F128>| rows_at(m, v, k_log, k_skip, x),
        n,
        0,
        k_log + 1,
        k_log as nat,
        Seq::empty(),
    );
}

proof fn lemma_row_terms(
    m: spec_fn(Seq<F128>, Seq<F128>) -> F128,
    v: FoldValues,
    k_log: int,
    k_skip: int,
    gamma: F128,
)
    requires
        true_claims(m, v, k_log, k_skip),
    ensures
        degree(row_terms(m, v, k_log, k_skip, gamma), (k_log + 1) as nat, 2),
        cube_sum(row_terms(m, v, k_log, k_skip, gamma), (k_log + 1) as nat, Seq::empty())
            == v.value.plus(gamma.times(v.gate).times(v.in_value)),
{
    broadcast use group_field_units;

    let n = (k_log + 1) as nat;
    let row = v.in_point.subrange(0, k_log + 1);
    let col = v.in_point.subrange(k_log + 1, 2 * k_log + 1);
    let gg = gamma.times(v.gate);
    lemma_row_weight_affine(v, k_log, k_skip);
    lemma_rows_affine(m, v, k_log, k_skip);
    let a = |x: Seq<F128>| row_weight(v.lambda, v.x_rest, v.alpha, k_log, k_skip, x);
    let b = |x: Seq<F128>| rows_at(m, v, k_log, k_skip, x);
    let ab = |x: Seq<F128>|
        row_weight(v.lambda, v.x_rest, v.alpha, k_log, k_skip, x).times(
            rows_at(m, v, k_log, k_skip, x),
        );
    lemma_affine_degree(a, n, 0, k_log + 1);
    lemma_affine_degree(b, n, 0, k_log + 1);
    lemma_degree_product(a, b, ab, n, 1, 1);
    let h = at_second(m, col);
    assert(affine(h, n, 0, k_log + 1));
    let f = |x: Seq<F128>| gg.times(equal_at(row, x, n)).times(h(x));
    lemma_selected(gg, row, h, f, n);
    lemma_degree_sum(ab, f, row_terms(m, v, k_log, k_skip, gamma), n, 2);
    lemma_cube_plus(ab, f, row_terms(m, v, k_log, k_skip, gamma), n, Seq::empty());
    assert(gg.times(h(row)) == gg.times(v.in_value)) by {
        lemma_times_comm(gg, v.in_value);
        lemma_times_comm(gg, h(row));
    }
}

proof fn lemma_column_terms(
    m: spec_fn(Seq<F128>, Seq<F128>) -> F128,
    v: FoldValues,
    k_log: int,
    k_skip: int,
    rho: Seq<F128>,
    delta: F128,
)
    requires
        true_claims(m, v, k_log, k_skip),
        rho.len() == k_log + 1,
    ensures
        degree(column_terms(m, v, k_log, k_skip, rho, delta), k_log as nat, 2),
        cube_sum(column_terms(m, v, k_log, k_skip, rho, delta), k_log as nat, Seq::empty())
            == rows_at(m, v, k_log, k_skip, rho).plus(
            delta.times(v.gate).times(m(rho, v.in_point.subrange(k_log + 1, 2 * k_log + 1))),
        ),
{
    let n = k_log as nat;
    let col = v.in_point.subrange(k_log + 1, 2 * k_log + 1);
    let dg = delta.times(v.gate);
    lemma_column_weight_affine(v, k_log, k_skip);
    let a = |y: Seq<F128>| column_weight(v.z_partial, v.r_rest, k_log, k_skip, y);
    let h = at_first(m, rho);
    assert(affine(h, n, 0, k_log));
    let ah = at_first(weighed_entries(m, v, k_log, k_skip), rho);
    lemma_affine_degree(a, n, 0, k_log);
    lemma_affine_degree(h, n, 0, k_log);
    lemma_degree_product(a, h, ah, n, 1, 1);
    let f = |y: Seq<F128>| dg.times(equal_at(col, y, n)).times(h(y));
    lemma_selected(dg, col, h, f, n);
    let t = column_terms(m, v, k_log, k_skip, rho, delta);
    assert forall|y: Seq<F128>| y.len() == n implies #[trigger] t(y) == ah(y).plus(f(y)) by {
        lemma_plus_times(a(y), dg.times(equal_at(col, y, n)), h(y));
    }
    lemma_degree_sum(ah, f, t, n, 2);
    lemma_cube_plus(ah, f, t, n, Seq::empty());
}

proof fn lemma_turned_rounds(
    f: spec_fn(Seq<F128>) -> F128,
    n: nat,
    challenges: Seq<F128>,
    claim: F128,
)
    requires
        degree(f, n, 2),
        challenges.len() == n,
        cube_sum(f, n, Seq::empty()) == claim,
    ensures
        folded_claim(honest_rounds(turned(f), n, challenges), claim, challenges, n) == f(challenges),
{
    lemma_turned_degree(f, n, 2);
    lemma_cube_turned(f, n);
    lemma_rounds_complete(turned(f), n, challenges, n);
    assert(reversed(reversed(challenges)) =~= challenges);
}

/// Completeness of a fold: whatever the challenges, the honest messages for claims
/// that are true of a matrix are accepted, and the folded claim is then true of the
/// matrix too.
pub proof fn lemma_honest_fold_accepted(
    m: spec_fn(Seq<F128>, Seq<F128>) -> F128,
    v: FoldValues,
    k_log: int,
    k_skip: int,
    draws: Seq<F128>,
)
    requires
        true_claims(m, v, k_log, k_skip),
        draws.len() == 2 * k_log + 3,
    ensures
        fold_accepts(honest_fold(m, v, k_log, k_skip, draws), k_log, k_skip, draws),
        honest_fold(m, v, k_log, k_skip, draws).end == m(
            folded_point(k_log, draws).subrange(0, k_log + 1),
            folded_point(k_log, draws).subrange(k_log + 1, 2 * k_log + 1),
        ),
{
    let w = honest_fold(m, v, k_log, k_skip, draws);
    let rho = draws.subrange(1, k_log + 2);
    let sigma = draws.subrange(k_log + 3, 2 * k_log + 3);
    let (gamma, delta) = (draws[0], draws[k_log + 2]);
    assert(folded_point(k_log, draws).subrange(0, k_log + 1) =~= rho);
    assert(folded_point(k_log, draws).subrange(k_log + 1, 2 * k_log + 1) =~= sigma);
    lemma_row_terms(m, v, k_log, k_skip, gamma);
    lemma_turned_rounds(
        row_terms(m, v, k_log, k_skip, gamma),
        (k_log + 1) as nat,
        rho,
        v.value.plus(gamma.times(v.gate).times(v.in_value)),
    );
    lemma_tensor_prefix(rho, rho.subrange(0, k_skip), k_skip as nat);
    lemma_equal_prefix(
        v.x_rest,
        rho.subrange(k_skip, k_log + 1),
        rho.subrange(k_skip, k_log),
        (k_log - k_skip) as nat,
    );
    lemma_times_comm(v.alpha.plus(F128::one()), rho[k_log]);
    assert(rows_check(w, k_log, k_skip, gamma, rho));
    lemma_column_terms(m, v, k_log, k_skip, rho, delta);
    lemma_turned_rounds(
        column_terms(m, v, k_log, k_skip, rho, delta),
        k_log as nat,
        sigma,
        w.g_v.plus(delta.times(v.gate).times(w.g_e)),
    );
    lemma_tensor_prefix(sigma, sigma.subrange(0, k_skip), k_skip as nat);
    assert(columns_check(w, k_log, k_skip, delta, sigma));
}

} // verus!
