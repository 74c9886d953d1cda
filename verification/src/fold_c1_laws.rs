//! What holds of a matrix fold in the extension: the values that are folded enter
//! the check, and on values of the base field it is the fold of the base field.

use vstd::prelude::*;
use vstd::arithmetic::power2::{lemma_pow2_unfold, pow2};
use crate::eval_gadgets::equal_at;
use crate::extension::{lemma_base_times, Extension, F256};
use crate::field::{
    group_field_units, lemma_plus_comm, lemma_plus_is_zero, lemma_plus_swap, lemma_times_plus, F128,
};
use crate::fold_laws::{honest_fold, lemma_honest_fold_accepted, true_claims};
use crate::matrix_fold::{fold_accepts, folded_claim, folded_point, weighed, FoldValues};
use crate::matrix_fold_c1::{
    c1_columns_end, c1_fold_accepts, c1_folded_point, c1_rows_end, ext_equal_at, ext_folded,
    ext_folded_claim, ext_mle, C1FoldValues,
};
use crate::multilinear::{folded, lemma_mle_folded, mle};
use crate::sumcheck::{lemma_mle_tensor, lemma_plus_times};

verus! {

// ---------------------------------------------------------------------------
// The extension
// ---------------------------------------------------------------------------

/// Multiplication distributes over addition.
pub proof fn lemma_ext_plus(e: Extension, a: F256, b: F256, c: F256)
    ensures
        e.times(a, b.plus(c)) == e.times(a, b).plus(e.times(a, c)),
        e.times(b.plus(c), a) == e.times(b, a).plus(e.times(c, a)),
{
    lemma_times_plus(a.lo, b.lo, c.lo);
    lemma_times_plus(a.lo, b.hi, c.hi);
    lemma_times_plus(a.hi, b.lo, c.lo);
    lemma_times_plus(a.hi, b.hi, c.hi);
    let (h, k) = (a.hi.times(b.hi), a.hi.times(c.hi));
    lemma_plus_times(h, k, e.norm);
    lemma_plus_times(h, k, e.trace);
    lemma_plus_swap(a.lo.times(b.lo), a.lo.times(c.lo), h.times(e.norm), k.times(e.norm));
    let (p, q) = (a.lo.times(b.hi), a.lo.times(c.hi));
    let (r, s) = (a.hi.times(b.lo), a.hi.times(c.lo));
    lemma_plus_swap(p, q, r, s);
    lemma_plus_swap(p.plus(r), q.plus(s), h.times(e.trace), k.times(e.trace));
    crate::extension::lemma_ext_comm(e, a, b.plus(c));
    crate::extension::lemma_ext_comm(e, a, b);
    crate::extension::lemma_ext_comm(e, a, c);
}

proof fn lemma_ext_swap(a: F256, b: F256, c: F256, d: F256)
    ensures
        a.plus(b).plus(c.plus(d)) == a.plus(c).plus(b.plus(d)),
{
    lemma_plus_swap(a.lo, b.lo, c.lo, d.lo);
    lemma_plus_swap(a.hi, b.hi, c.hi, d.hi);
}

broadcast proof fn lemma_ext_sums(x: F256, y: F256)
    ensures
        #![trigger x.plus(y)]
        x.plus(y) == F256::spec_zero() <==> x == y,
        x.plus(y).plus(y) == x,
        x.plus(x.plus(y)) == y,
        x.plus(y) == y.plus(x),
{
    lemma_plus_is_zero(x.lo, y.lo);
    lemma_plus_is_zero(x.hi, y.hi);
    lemma_plus_comm(x.lo, y.lo);
    lemma_plus_comm(x.hi, y.hi);
}

proof fn lemma_ext_zero_sum(x: F256)
    ensures
        F256::spec_zero().plus(x) == x,
        x.plus(F256::spec_zero()) == x,
{
    broadcast use group_field_units;

}

// ---------------------------------------------------------------------------
// The values that are folded
// ---------------------------------------------------------------------------

/// A difference under the first `n` challenges, one after another.
pub open spec fn under(e: Extension, d: F256, challenges: Seq<F256>, n: nat) -> F256
    decreases n,
{
    if n == 0 {
        d
    } else {
        e.times(under(e, d, challenges, (n - 1) as nat), challenges[n - 1])
    }
}

/// An element that takes nothing but zero to zero. In a field, every element but
/// zero does.
pub open spec fn regular(e: Extension, r: F256) -> bool {
    forall|d: F256| #[trigger] e.times(d, r) == F256::spec_zero() ==> d == F256::spec_zero()
}

/// Rounds carry a difference between claims on, under their challenges.
pub proof fn lemma_c1_claims_apart(
    e: Extension,
    rounds: Seq<Seq<F256>>,
    a: F256,
    b: F256,
    challenges: Seq<F256>,
    n: nat,
)
    ensures
        ext_folded_claim(e, rounds, a, challenges, n).plus(
            ext_folded_claim(e, rounds, b, challenges, n),
        ) == under(e, a.plus(b), challenges, n),
    decreases n,
{
    if n > 0 {
        let m = (n - 1) as nat;
        lemma_c1_claims_apart(e, rounds, a, b, challenges, m);
        let (x, y) = (
            ext_folded_claim(e, rounds, a, challenges, m),
            ext_folded_claim(e, rounds, b, challenges, m),
        );
        let (w, r) = (rounds[n - 1], challenges[n - 1]);
        let t = e.times(w[1], r);
        let (p, q) = (t.plus(x.plus(w[1])), t.plus(y.plus(w[1])));
        lemma_ext_swap(t, x.plus(w[1]), t, y.plus(w[1]));
        lemma_ext_swap(x, w[1], y, w[1]);
        lemma_ext_sums(t, t);
        lemma_ext_sums(w[1], w[1]);
        lemma_ext_zero_sum(x.plus(y));
        assert(p.plus(q) == x.plus(y));
        lemma_ext_swap(e.times(p, r), w[0], e.times(q, r), w[0]);
        lemma_ext_sums(w[0], w[0]);
        lemma_ext_plus(e, r, p, q);
        lemma_ext_zero_sum(e.times(p, r).plus(e.times(q, r)));
    }
}

proof fn lemma_under_zero(e: Extension, d: F256, challenges: Seq<F256>, n: nat)
    requires
        under(e, d, challenges, n) == F256::spec_zero(),
        forall|i: int| 0 <= i < n ==> regular(e, #[trigger] challenges[i]),
    ensures
        d == F256::spec_zero(),
    decreases n,
{
    if n > 0 {
        assert(regular(e, challenges[n - 1]));
        lemma_under_zero(e, d, challenges, (n - 1) as nat);
    }
}

/// The incoming value enters a fold: under one proof and the same challenges, of
/// two incoming claims that differ in value alone at most one is accepted, unless
/// the gated challenge or a challenge of the first sumcheck is zero.
pub proof fn lemma_c1_incoming_value_binds(
    e: Extension,
    v: C1FoldValues,
    other: F256,
    k_log: int,
    k_skip: int,
    draws: Seq<F256>,
)
    requires
        k_log >= 0,
        draws.len() == 2 * k_log + 3,
        c1_fold_accepts(e, v, k_log, k_skip, draws),
        c1_fold_accepts(e, C1FoldValues { in_value: other, ..v }, k_log, k_skip, draws),
        v.gate == F128::one(),
        forall|i: int| 0 <= i < k_log + 2 ==> regular(e, #[trigger] draws[i]),
    ensures
        v.in_value == other,
{
    broadcast use group_field_units;

    reveal(c1_rows_end);
    let w = C1FoldValues { in_value: other, ..v };
    let rho = draws.subrange(1, k_log + 2);
    let n = (k_log + 1) as nat;
    let gg = draws[0].scaled(v.gate);
    assert(gg == draws[0]);
    let (p, q) = (e.times(gg, v.in_value), e.times(gg, other));
    let (a, b) = (v.value.plus(p), v.value.plus(q));
    assert(c1_rows_end(e, v, k_log, k_skip, gg, rho) == c1_rows_end(
        e,
        w,
        k_log,
        k_skip,
        gg,
        rho,
    ));
    lemma_c1_claims_apart(e, v.first, a, b, rho, n);
    lemma_ext_sums(
        ext_folded_claim(e, v.first, a, rho, n),
        ext_folded_claim(e, v.first, b, rho, n),
    );
    assert forall|i: int| 0 <= i < n implies regular(e, #[trigger] rho[i]) by {
        assert(rho[i] == draws[i + 1]);
    }
    lemma_under_zero(e, a.plus(b), rho, n);
    lemma_ext_swap(v.value, p, v.value, q);
    lemma_ext_sums(v.value, v.value);
    lemma_ext_zero_sum(p.plus(q));
    lemma_ext_plus(e, gg, v.in_value, other);
    crate::extension::lemma_ext_comm(e, gg, v.in_value.plus(other));
    assert(regular(e, draws[0]));
    lemma_ext_sums(v.in_value, other);
}

/// A fold takes the sum of the fresh value and the gated incoming one under the
/// first challenge: what moves between the two leaves the outcome as it is.
pub proof fn lemma_c1_values_trade(
    e: Extension,
    v: C1FoldValues,
    d: F256,
    k_log: int,
    k_skip: int,
    draws: Seq<F256>,
)
    ensures
        c1_fold_accepts(e, v, k_log, k_skip, draws) <==> c1_fold_accepts(
            e,
            C1FoldValues {
                value: v.value.plus(e.times(draws[0].scaled(v.gate), d)),
                in_value: v.in_value.plus(d),
                ..v
            },
            k_log,
            k_skip,
            draws,
        ),
{
    reveal(c1_rows_end);
    reveal(c1_columns_end);
    let gg = draws[0].scaled(v.gate);
    let (p, q) = (e.times(gg, v.in_value), e.times(gg, d));
    lemma_ext_plus(e, gg, v.in_value, d);
    lemma_ext_sums(p, q);
    lemma_ext_swap(v.value, q, q, p);
    lemma_ext_swap(v.value, q, p, q);
    lemma_ext_sums(q, q);
    lemma_ext_zero_sum(v.value.plus(p));
}

// ---------------------------------------------------------------------------
// Values of the base field
// ---------------------------------------------------------------------------

pub open spec fn lifted(s: Seq<F128>) -> Seq<F256> {
    Seq::new(s.len(), |i: int| F256::of_base(s[i]))
}

pub open spec fn lifted_rounds(s: Seq<Seq<F128>>) -> Seq<Seq<F256>> {
    Seq::new(s.len(), |i: int| lifted(s[i]))
}

/// A fold's values, in the extension.
pub open spec fn lifted_fold(v: FoldValues) -> C1FoldValues {
    C1FoldValues {
        alpha: F256::of_base(v.alpha),
        lambda: lifted(v.lambda),
        x_rest: lifted(v.x_rest),
        r_rest: lifted(v.r_rest),
        z_partial: lifted(v.z_partial),
        value: F256::of_base(v.value),
        in_point: lifted(v.in_point),
        in_value: F256::of_base(v.in_value),
        gate: v.gate,
        first: lifted_rounds(v.first),
        g_v: F256::of_base(v.g_v),
        g_e: F256::of_base(v.g_e),
        second: lifted_rounds(v.second),
        end: F256::of_base(v.end),
    }
}

/// The lengths that a fold's values have.
pub open spec fn fold_shape(v: FoldValues, k_log: int, k_skip: int) -> bool {
    &&& 0 <= k_skip <= k_log
    &&& v.lambda.len() == pow2(k_skip as nat)
    &&& v.z_partial.len() == pow2(k_skip as nat)
    &&& v.x_rest.len() == k_log - k_skip
    &&& v.r_rest.len() == k_log - k_skip
    &&& v.in_point.len() == 2 * k_log + 1
    &&& v.first.len() == k_log + 1
    &&& v.second.len() == k_log
    &&& forall|i: int| 0 <= i < v.first.len() ==> (#[trigger] v.first[i]).len() == 2
    &&& forall|i: int| 0 <= i < v.second.len() ==> (#[trigger] v.second[i]).len() == 2
}

broadcast proof fn lemma_base_plus(x: F128, y: F128)
    ensures
        #![trigger F256::of_base(x).plus(F256::of_base(y))]
        F256::of_base(x).plus(F256::of_base(y)) == F256::of_base(x.plus(y)),
{
    broadcast use group_field_units;

}

broadcast proof fn lemma_base_product(e: Extension, x: F128, y: F128)
    ensures
        #![trigger e.times(F256::of_base(x), F256::of_base(y))]
        e.times(F256::of_base(x), F256::of_base(y)) == F256::of_base(x.times(y)),
{
    lemma_base_times(e, x, y);
}

proof fn lemma_lifted_claim(
    e: Extension,
    rounds: Seq<Seq<F128>>,
    claim: F128,
    challenges: Seq<F128>,
    n: nat,
)
    requires
        n <= rounds.len(),
        n <= challenges.len(),
        forall|i: int| 0 <= i < n ==> (#[trigger] rounds[i]).len() == 2,
    ensures
        ext_folded_claim(
            e,
            lifted_rounds(rounds),
            F256::of_base(claim),
            lifted(challenges),
            n,
        ) == F256::of_base(folded_claim(rounds, claim, challenges, n)),
    decreases n,
{
    broadcast use {lemma_base_plus, lemma_base_product};

    if n > 0 {
        let m = (n - 1) as nat;
        lemma_lifted_claim(e, rounds, claim, challenges, m);
        assert(rounds[n - 1].len() == 2);
        let w = lifted_rounds(rounds)[n - 1];
        let (w0, w1) = (rounds[n - 1][0], rounds[n - 1][1]);
        assert(w[0] == F256::of_base(w0) && w[1] == F256::of_base(w1));
        let c = folded_claim(rounds, claim, challenges, m);
        let r = challenges[n - 1];
        assert(lifted(challenges)[n - 1] == F256::of_base(r));
        assert(e.times(w[1], F256::of_base(r)) == F256::of_base(w1.times(r)));
        assert(F256::of_base(c).plus(w[1]) == F256::of_base(c.plus(w1)));
    }
}

proof fn lemma_lifted_equal(e: Extension, x: Seq<F128>, y: Seq<F128>, n: nat)
    requires
        n <= x.len(),
        n <= y.len(),
    ensures
        ext_equal_at(e, lifted(x), lifted(y), n) == F256::of_base(equal_at(x, y, n)),
    decreases n,
{
    broadcast use {lemma_base_plus, lemma_base_product};

    if n > 0 {
        let m = (n - 1) as nat;
        lemma_lifted_equal(e, x, y, m);
        let (a, b) = (x[n - 1], y[n - 1]);
        assert(lifted(x)[n - 1] == F256::of_base(a) && lifted(y)[n - 1] == F256::of_base(b));
        assert(F256::spec_one() == F256::of_base(F128::one()));
        assert(F256::of_base(a).plus(F256::of_base(b)) == F256::of_base(a.plus(b)));
    }
}

/// The extension of a table of the base field.
proof fn lemma_lifted_mle(e: Extension, t: Seq<F128>, point: Seq<F128>)
    requires
        t.len() == pow2(point.len()),
    ensures
        ext_mle(e, lifted(t), lifted(point)) == F256::of_base(mle(t, point)),
    decreases point.len(),
{
    broadcast use {lemma_base_plus, lemma_base_product};

    vstd::arithmetic::power2::lemma2_to64();
    let n = point.len();
    if n > 0 {
        let m = (n - 1) as nat;
        lemma_pow2_unfold(n);
        let half = pow2(m);
        let r = point.last();
        let g = folded(t, r);
        let p = point.drop_last();
        assert(lifted(point).last() == F256::of_base(r));
        assert(lifted(point).drop_last() =~= lifted(p));
        assert(ext_folded(e, lifted(t), F256::of_base(r)) =~= lifted(g)) by {
            assert forall|i: int| 0 <= i < half implies #[trigger] ext_folded(
                e,
                lifted(t),
                F256::of_base(r),
            )[i] == F256::of_base(g[i]) by {
                let (a, b) = (t[i], t[i + half]);
                assert(F256::of_base(a).plus(F256::of_base(b)) == F256::of_base(a.plus(b)));
            }
        }
        lemma_lifted_mle(e, g, p);
        lemma_mle_folded(t, point);
    }
}

/// On values and challenges of the base field, a fold in the extension is the fold
/// in the base field, and its point is the same.
pub proof fn lemma_c1_fold_of_base(
    e: Extension,
    v: FoldValues,
    k_log: int,
    k_skip: int,
    draws: Seq<F128>,
)
    requires
        fold_shape(v, k_log, k_skip),
        draws.len() == 2 * k_log + 3,
    ensures
        c1_fold_accepts(e, lifted_fold(v), k_log, k_skip, lifted(draws)) <==> fold_accepts(
            v,
            k_log,
            k_skip,
            draws,
        ),
        c1_folded_point(k_log, lifted(draws)) == lifted(folded_point(k_log, draws)),
{
    broadcast use {group_field_units, lemma_base_plus, lemma_base_product};

    reveal(c1_rows_end);
    reveal(c1_columns_end);
    let w = lifted_fold(v);
    let ld = lifted(draws);
    assert(c1_folded_point(k_log, ld) =~= lifted(folded_point(k_log, draws)));
    let rho = draws.subrange(1, k_log + 2);
    let sigma = draws.subrange(k_log + 3, 2 * k_log + 3);
    assert(ld.subrange(1, k_log + 2) =~= lifted(rho));
    assert(ld.subrange(k_log + 3, 2 * k_log + 3) =~= lifted(sigma));
    let rest = (k_log - k_skip) as nat;
    // The first sumcheck.
    let gg = draws[0].times(v.gate);
    assert(ld[0].scaled(v.gate) == F256::of_base(gg));
    let (a, b) = (rho.subrange(0, k_skip), rho.subrange(k_skip, k_log));
    assert(lifted(rho).subrange(0, k_skip) =~= lifted(a));
    assert(lifted(rho).subrange(k_skip, k_log) =~= lifted(b));
    lemma_lifted_mle(e, v.lambda, a);
    lemma_mle_tensor(v.lambda, a);
    lemma_lifted_equal(e, v.x_rest, b, rest);
    let row = v.in_point.subrange(0, k_log + 1);
    assert(w.in_point.subrange(0, k_log + 1) =~= lifted(row));
    lemma_lifted_equal(e, row, rho, (k_log + 1) as nat);
    assert(lifted(rho)[k_log] == F256::of_base(rho[k_log]));
    let one = F128::one();
    assert(F256::spec_one() == F256::of_base(one));
    assert(w.alpha.plus(F256::of_base(one)) == F256::of_base(v.alpha.plus(one)));
    let claim = v.value.plus(gg.times(v.in_value));
    lemma_lifted_claim(e, v.first, claim, rho, (k_log + 1) as nat);
    assert(e.times(F256::of_base(gg), w.in_value) == F256::of_base(gg.times(v.in_value)));
    assert(w.value.plus(F256::of_base(gg.times(v.in_value))) == F256::of_base(claim));
    let fresh = weighed(v.lambda, a).times(equal_at(v.x_rest, b, rest)).times(
        v.alpha.plus(rho[k_log].times(v.alpha.plus(one))),
    );
    let incoming = equal_at(row, rho, (k_log + 1) as nat);
    assert(c1_rows_end(e, w, k_log, k_skip, F256::of_base(gg), lifted(rho)) == F256::of_base(
        fresh.times(v.g_v).plus(gg.times(incoming).times(v.g_e)),
    ));
    // The second.
    let dg = draws[k_log + 2].times(v.gate);
    assert(ld[k_log + 2].scaled(v.gate) == F256::of_base(dg));
    let (c, d) = (sigma.subrange(0, k_skip), sigma.subrange(k_skip, k_log));
    assert(lifted(sigma).subrange(0, k_skip) =~= lifted(c));
    assert(lifted(sigma).subrange(k_skip, k_log) =~= lifted(d));
    lemma_lifted_mle(e, v.z_partial, c);
    lemma_mle_tensor(v.z_partial, c);
    lemma_lifted_equal(e, v.r_rest, d, rest);
    let col = v.in_point.subrange(k_log + 1, 2 * k_log + 1);
    assert(w.in_point.subrange(k_log + 1, 2 * k_log + 1) =~= lifted(col));
    lemma_lifted_equal(e, col, sigma, k_log as nat);
    let next = v.g_v.plus(dg.times(v.g_e));
    lemma_lifted_claim(e, v.second, next, sigma, k_log as nat);
    assert(e.times(F256::of_base(dg), w.g_e) == F256::of_base(dg.times(v.g_e)));
    assert(w.g_v.plus(F256::of_base(dg.times(v.g_e))) == F256::of_base(next));
    let weight = weighed(v.z_partial, c).times(equal_at(v.r_rest, d, rest)).plus(
        dg.times(equal_at(col, sigma, k_log as nat)),
    );
    assert(c1_columns_end(e, w, k_log, k_skip, F256::of_base(dg), lifted(sigma))
        == F256::of_base(weight.times(v.end)));
}

/// Completeness: the honest messages for claims that are true of a matrix are
/// accepted in the extension too.
pub proof fn lemma_c1_honest_fold_accepted(
    e: Extension,
    m: spec_fn(Seq<F128>, Seq<F128>) -> F128,
    v: FoldValues,
    k_log: int,
    k_skip: int,
    draws: Seq<F128>,
)
    requires
        true_claims(m, v, k_log, k_skip),
        v.x_rest.len() == k_log - k_skip,
        v.r_rest.len() == k_log - k_skip,
        draws.len() == 2 * k_log + 3,
    ensures
        c1_fold_accepts(
            e,
            lifted_fold(honest_fold(m, v, k_log, k_skip, draws)),
            k_log,
            k_skip,
            lifted(draws),
        ),
{
    let w = honest_fold(m, v, k_log, k_skip, draws);
    assert forall|i: int| 0 <= i < w.first.len() implies (#[trigger] w.first[i]).len() == 2 by {}
    assert forall|i: int| 0 <= i < w.second.len() implies (#[trigger] w.second[i]).len() == 2 by {}
    lemma_honest_fold_accepted(m, v, k_log, k_skip, draws);
    lemma_c1_fold_of_base(e, w, k_log, k_skip, draws);
}

} // verus!
