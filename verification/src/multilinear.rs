//! Multilinear extensions of tables, and the additive transform.

use vstd::prelude::*;
use vstd::arithmetic::power2::{lemma_pow2_pos, lemma_pow2_unfold, pow2};
use crate::bits::lemma_lins_index;
use crate::circuit::{
    all_below, group_circuit, group_lin, lemma_prefix_refl, lemma_prefix_trans, lins, mul_rows,
    prefix, sat, FieldR1csBuilder, Lin, LinExpr, Row,
};
use crate::field::{lemma_plus_swap, lemma_times_assoc, lemma_times_comm, lemma_times_plus, F128};
use crate::gadget::{
    computed, holds_past, lemma_computed_refl, lemma_computed_trans, lemma_mul_past,
    lemma_past_split, lemma_sat_past, times,
};

verus! {

broadcast use {group_circuit, lemma_computed_trans};

/// The multilinear extension of a table at a point; the last coordinate tells
/// the halves of the table apart.
pub open spec fn mle(evals: Seq<F128>, point: Seq<F128>) -> F128
    decreases point.len(),
{
    if point.len() == 0 {
        evals[0]
    } else {
        let half = (evals.len() / 2) as int;
        let low = mle(evals.take(half), point.drop_last());
        let high = mle(evals.skip(half), point.drop_last());
        low.plus(point.last().times(low.plus(high)))
    }
}

/// A table between two tables.
pub open spec fn between(a: Seq<F128>, b: Seq<F128>, r: F128) -> Seq<F128> {
    Seq::new(a.len(), |i: int| a[i].plus(r.times(a[i].plus(b[i]))))
}

/// The last coordinate fixed.
pub open spec fn folded(evals: Seq<F128>, r: F128) -> Seq<F128> {
    let half = (evals.len() / 2) as int;
    between(evals.take(half), evals.skip(half), r)
}

proof fn lemma_between_scalar(a: F128, b: F128, c: F128, d: F128, r: F128, s: F128)
    ensures
        a.plus(r.times(a.plus(b))).plus(
            s.times(a.plus(r.times(a.plus(b))).plus(c.plus(r.times(c.plus(d))))),
        ) == a.plus(s.times(a.plus(c))).plus(
            r.times(a.plus(s.times(a.plus(c))).plus(b.plus(s.times(b.plus(d))))),
        ),
{
    let (ab, cd, ac, bd) = (a.plus(b), c.plus(d), a.plus(c), b.plus(d));
    // left: a + r ab + s (ac + r (ab + cd))
    lemma_plus_swap(a, r.times(ab), c, r.times(cd));
    lemma_times_plus(r, ab, cd);
    lemma_times_plus(s, ac, r.times(ab.plus(cd)));
    // right: a + s ac + r (ab + s (ac + bd))
    lemma_plus_swap(a, s.times(ac), b, s.times(bd));
    lemma_times_plus(s, ac, bd);
    lemma_times_plus(r, ab, s.times(ac.plus(bd)));
    lemma_plus_swap(a, b, c, d);
    let all = ab.plus(cd);
    assert(all == ac.plus(bd));
    lemma_times_assoc(s, r, all);
    lemma_times_assoc(r, s, all);
    lemma_times_comm(r, s);
    lemma_plus_swap(a, r.times(ab), s.times(ac), s.times(r.times(all)));
    lemma_plus_swap(a, s.times(ac), r.times(ab), r.times(s.times(all)));
}

/// The extension of a table between two tables is between their extensions.
pub proof fn lemma_mle_between(a: Seq<F128>, b: Seq<F128>, r: F128, point: Seq<F128>)
    requires
        a.len() == b.len(),
        a.len() == pow2(point.len()),
    ensures
        mle(between(a, b, r), point) == mle(a, point).plus(
            r.times(mle(a, point).plus(mle(b, point))),
        ),
    decreases point.len(),
{
    lemma_pow2_pos(point.len());
    if point.len() > 0 {
        lemma_pow2_unfold(point.len());
        let half = (a.len() / 2) as int;
        let p = point.drop_last();
        let m = between(a, b, r);
        lemma_mle_between(a.take(half), b.take(half), r, p);
        lemma_mle_between(a.skip(half), b.skip(half), r, p);
        assert(m.take(half) =~= between(a.take(half), b.take(half), r));
        assert(m.skip(half) =~= between(a.skip(half), b.skip(half), r));
        lemma_between_scalar(
            mle(a.take(half), p),
            mle(b.take(half), p),
            mle(a.skip(half), p),
            mle(b.skip(half), p),
            r,
            point.last(),
        );
    }
}

/// Fixing the last coordinate of the table, then extending, is extending.
pub proof fn lemma_mle_folded(evals: Seq<F128>, point: Seq<F128>)
    requires
        point.len() > 0,
        evals.len() == pow2(point.len()),
    ensures
        mle(folded(evals, point.last()), point.drop_last()) == mle(evals, point),
        folded(evals, point.last()).len() == pow2((point.len() - 1) as nat),
{
    lemma_pow2_unfold(point.len());
    let half = (evals.len() / 2) as int;
    lemma_mle_between(evals.take(half), evals.skip(half), point.last(), point.drop_last());
}

// ---------------------------------------------------------------------------
// In the trace
// ---------------------------------------------------------------------------

/// The rows that fix the last coordinate of the first `n` pairs, and the
/// results.
pub open spec fn fold_rows(c: Seq<Row>, evals: Seq<Lin>, r: Lin, n: nat) -> (Seq<Row>, Seq<Lin>)
    decreases n,
{
    if n == 0 {
        (c, Seq::empty())
    } else {
        let (c1, out) = fold_rows(c, evals, r, (n - 1) as nat);
        let half = (evals.len() / 2) as int;
        let (c2, m) = mul_rows(c1, r, evals[n - 1].plus(evals[n - 1 + half]));
        (c2, out.push(evals[n - 1].plus(m)))
    }
}

/// The rows of an extension, and its expression.
pub open spec fn mle_rows(c: Seq<Row>, evals: Seq<Lin>, point: Seq<Lin>) -> (Seq<Row>, Lin)
    decreases point.len(),
{
    if point.len() == 0 {
        (c, evals[0])
    } else {
        let (c1, out) = fold_rows(c, evals, point.last(), evals.len() / 2);
        mle_rows(c1, out, point.drop_last())
    }
}

pub open spec fn evals_at(s: Seq<Lin>, z: Seq<F128>) -> Seq<F128> {
    Seq::new(s.len(), |i: int| s[i].eval(z))
}

proof fn lemma_fold_past(c: Seq<Row>, evals: Seq<Lin>, r: Lin, n: nat, z: Seq<F128>)
    requires
        n <= evals.len() / 2,
    ensures
        prefix(c, fold_rows(c, evals, r, n).0),
        fold_rows(c, evals, r, n).1.len() == n,
        holds_past(fold_rows(c, evals, r, n).0, c.len(), z) ==> forall|i: int|
            0 <= i < n ==> (#[trigger] fold_rows(c, evals, r, n).1[i]).eval(z) == folded(
                evals_at(evals, z),
                r.eval(z),
            )[i],
    decreases n,
{
    broadcast use {lemma_prefix_trans, group_lin};

    if n == 0 {
        lemma_prefix_refl(c);
    } else {
        let (c1, out) = fold_rows(c, evals, r, (n - 1) as nat);
        let half = (evals.len() / 2) as int;
        let d = evals[n - 1].plus(evals[n - 1 + half]);
        lemma_fold_past(c, evals, r, (n - 1) as nat, z);
        lemma_mul_past(c1, r, d, z);
        let (rows, now) = fold_rows(c, evals, r, n);
        if holds_past(rows, c.len(), z) {
            lemma_past_split(rows, c1, c.len(), z);
            let e = evals_at(evals, z);
            assert(e.skip(half)[n - 1] == e[n - 1 + half]);
            assert forall|i: int| 0 <= i < n implies (#[trigger] now[i]).eval(z) == folded(
                e,
                r.eval(z),
            )[i] by {
                if i < n - 1 {
                    assert(now[i] == out[i]);
                }
            }
        }
    }
}

/// Rows that hold make the expression the extension of the table at the point.
pub proof fn lemma_mle_past(c: Seq<Row>, evals: Seq<Lin>, point: Seq<Lin>, z: Seq<F128>)
    requires
        evals.len() == pow2(point.len()),
    ensures
        prefix(c, mle_rows(c, evals, point).0),
        holds_past(mle_rows(c, evals, point).0, c.len(), z) ==> mle_rows(c, evals, point).1.eval(z)
            == mle(evals_at(evals, z), evals_at(point, z)),
    decreases point.len(),
{
    broadcast use lemma_prefix_trans;

    lemma_pow2_pos(point.len());
    if point.len() == 0 {
        lemma_prefix_refl(c);
    } else {
        lemma_pow2_unfold(point.len());
        let half = evals.len() / 2;
        let r = point.last();
        let (c1, out) = fold_rows(c, evals, r, half);
        lemma_fold_past(c, evals, r, half, z);
        lemma_mle_past(c1, out, point.drop_last(), z);
        let rows = mle_rows(c, evals, point).0;
        assert(prefix(c1, rows));
        if holds_past(rows, c.len(), z) {
            lemma_past_split(rows, c1, c.len(), z);
            let (e, p) = (evals_at(evals, z), evals_at(point, z));
            lemma_mle_folded(e, p);
            assert(evals_at(out, z) =~= folded(e, r.eval(z)));
            assert(evals_at(point.drop_last(), z) =~= p.drop_last());
        }
    }
}

/// Soundness: the expression is the extension of the table at the point.
pub proof fn lemma_mle_sound(c: Seq<Row>, evals: Seq<Lin>, point: Seq<Lin>, z: Seq<F128>)
    requires
        evals.len() == pow2(point.len()),
        sat(mle_rows(c, evals, point).0, z),
    ensures
        sat(c, z),
        mle_rows(c, evals, point).1.eval(z) == mle(evals_at(evals, z), evals_at(point, z)),
{
    lemma_mle_past(c, evals, point, z);
    lemma_sat_past(mle_rows(c, evals, point).0, c.len(), z);
    crate::circuit::lemma_sat_prefix(c, mle_rows(c, evals, point).0, z);
}

/// The extension of a table at a point, one product for every entry but one.
pub fn mle_evaluate_small_trace(
    b: &mut FieldR1csBuilder,
    evals: &Vec<LinExpr>,
    point: &Vec<LinExpr>,
) -> (r: LinExpr)
    requires
        old(b)@.wf(),
        all_below(lins(evals@), old(b)@.rows.len()),
        all_below(lins(point@), old(b)@.rows.len()),
        evals@.len() == pow2(point@.len()),
    ensures
        (final(b)@.rows, r@) == mle_rows(old(b)@.rows, lins(evals@), lins(point@)),
        computed(old(b)@, final(b)@),
        r@.below(final(b)@.rows.len()),
        r@.eval(final(b)@.values) == mle(
            evals_at(lins(evals@), old(b)@.values),
            evals_at(lins(point@), old(b)@.values),
        ),
{
    let ghost b0 = b@;
    let ghost pt = lins(point@);
    let ghost ev0 = evals_at(lins(evals@), b0.values);
    let ghost pv = evals_at(pt, b0.values);
    let mut buf: Vec<LinExpr> = Vec::new();
    let mut j: usize = 0;
    while j < evals.len()
        invariant
            j <= evals@.len(),
            buf@.len() == j,
            forall|i: int| 0 <= i < j ==> (#[trigger] buf@[i])@ == evals@[i]@,
        decreases evals@.len() - j,
    {
        buf.push(evals[j].dup());
        j += 1;
    }
    let mut k: usize = point.len();
    proof {
        lemma_computed_refl(b0);
        assert(lins(buf@) =~= lins(evals@));
        assert(pt.take(k as int) =~= pt);
        assert(pv.take(k as int) =~= pv);
    }
    while k > 0
        invariant
            k <= point@.len(),
            b0.wf(),
            b@.wf(),
            computed(b0, b@),
            pt == lins(point@),
            pv == evals_at(pt, b0.values),
            all_below(pt, b0.rows.len()),
            buf@.len() == pow2(k as nat),
            all_below(lins(buf@), b@.rows.len()),
            mle_rows(b@.rows, lins(buf@), pt.take(k as int)) == mle_rows(
                b0.rows,
                lins(evals@),
                pt,
            ),
            mle(evals_at(lins(buf@), b@.values), pv.take(k as int)) == mle(ev0, pv),
        decreases k,
    {
        let r = &point[k - 1];
        let ghost b1 = b@;
        let ghost before = lins(buf@);
        let total: usize = buf.len();
        let half: usize = total / 2;
        proof {
            lemma_pow2_unfold(k as nat);
            lemma_lins_index(point@, k - 1);
            assert(pt.take(k as int).last() == r@);
            assert(pt.take(k as int).drop_last() =~= pt.take(k - 1));
            assert(pv.take(k as int).drop_last() =~= pv.take(k - 1));
            assert(pv.take(k as int).last() == r@.eval(b0.values));
        }
        let mut next: Vec<LinExpr> = Vec::new();
        let mut i: usize = 0;
        proof {
            lemma_computed_refl(b1);
        }
        while i < half
            invariant
                i <= half,
                total == buf@.len(),
                half == total / 2,
                b1.wf(),
                b@.wf(),
                computed(b1, b@),
                before == lins(buf@),
                all_below(before, b1.rows.len()),
                r@.below(b1.rows.len()),
                next@.len() == i,
                (b@.rows, lins(next@)) == fold_rows(b1.rows, before, r@, i as nat),
                forall|l: int| 0 <= l < i ==> (#[trigger] next@[l])@.below(b@.rows.len()),
                forall|l: int|
                    0 <= l < i ==> (#[trigger] next@[l])@.eval(b@.values) == folded(
                        evals_at(before, b1.values),
                        r@.eval(b1.values),
                    )[l],
            decreases half - i,
        {
            let ghost b2 = b@;
            let ghost prior = next@;
            proof {
                lemma_lins_index(buf@, i as int);
                lemma_lins_index(buf@, i + half);
                assert(before[i as int].below(b1.rows.len()));
                assert(before[i + half].below(b1.rows.len()));
            }
            let diff = buf[i].add(&buf[i + half]);
            let m = times(b, r, &diff);
            let out = buf[i].add(&m);
            next.push(out);
            proof {
                assert(lins(next@) =~= lins(prior).push(out@));
                lemma_mul_past(b2.rows, r@, diff@, b@.values);
                let e = evals_at(before, b1.values);
                assert(e.skip(half as int)[i as int] == e[i + half]);
                assert forall|l: int| 0 <= l <= i implies (#[trigger] next@[l])@.below(
                    b@.rows.len(),
                ) by {
                    if l < i {
                        assert(next@[l] == prior[l]);
                    }
                }
                assert forall|l: int| 0 <= l <= i implies (#[trigger] next@[l])@.eval(b@.values)
                    == folded(e, r@.eval(b1.values))[l] by {
                    if l < i {
                        assert(next@[l] == prior[l]);
                        assert(prior[l]@.eval(b2.values) == prior[l]@.eval(b@.values));
                    }
                }
            }
            i += 1;
        }
        proof {
            let e = evals_at(before, b1.values);
            let p = pv.take(k as int);
            lemma_mle_folded(e, p);
            assert(r@.eval(b1.values) == r@.eval(b0.values));
            assert(evals_at(lins(next@), b@.values) =~= folded(e, p.last())) by {
                assert forall|l: int| 0 <= l < half implies lins(next@)[l].eval(b@.values)
                    == folded(e, p.last())[l] by {
                    lemma_lins_index(next@, l);
                    assert(next@[l]@.eval(b@.values) == folded(e, r@.eval(b1.values))[l]);
                }
            }
            assert(all_below(lins(next@), b@.rows.len())) by {
                assert forall|l: int| 0 <= l < next@.len() implies (#[trigger] lins(
                    next@,
                )[l]).below(b@.rows.len()) by {
                    lemma_lins_index(next@, l);
                    assert(next@[l]@.below(b@.rows.len()));
                }
            }
        }
        buf = next;
        k = k - 1;
    }
    proof {
        vstd::arithmetic::power2::lemma2_to64();
        lemma_lins_index(buf@, 0);
        assert(pt.take(0).len() == 0);
    }
    buf[0].dup()
}

// ---------------------------------------------------------------------------
// The additive transform
// ---------------------------------------------------------------------------

/// The additive transform: the last basis element joins the transforms of the
/// two halves.
pub open spec fn transform(coeffs: Seq<Lin>, basis: Seq<F128>) -> Seq<Lin>
    decreases basis.len(),
{
    if basis.len() == 0 {
        coeffs
    } else {
        let half = (coeffs.len() / 2) as int;
        let low = transform(coeffs.take(half), basis.drop_last());
        let high = transform(coeffs.skip(half), basis.drop_last());
        joined(low, high, basis.last())
    }
}

/// The sums of two halves, then their multiples by a basis element plus the
/// upper half.
pub open spec fn joined(low: Seq<Lin>, high: Seq<Lin>, w: F128) -> Seq<Lin> {
    Seq::new(
        low.len() + high.len(),
        |i: int|
            if i < low.len() {
                low[i].plus(high[i])
            } else {
                low[i - low.len()].plus(high[i - low.len()]).scale(w).plus(high[i - low.len()])
            },
    )
}

/// The transform of values.
pub open spec fn transformed(coeffs: Seq<F128>, basis: Seq<F128>) -> Seq<F128>
    decreases basis.len(),
{
    if basis.len() == 0 {
        coeffs
    } else {
        let half = (coeffs.len() / 2) as int;
        let low = transformed(coeffs.take(half), basis.drop_last());
        let high = transformed(coeffs.skip(half), basis.drop_last());
        Seq::new(
            low.len() + high.len(),
            |i: int|
                if i < low.len() {
                    low[i].plus(high[i])
                } else {
                    low[i - low.len()].plus(high[i - low.len()]).times(basis.last()).plus(
                        high[i - low.len()],
                    )
                },
        )
    }
}

/// The transform of expressions evaluates to the transform of their values: it
/// is linear and adds no rows.
pub proof fn lemma_transform_eval(coeffs: Seq<Lin>, basis: Seq<F128>, z: Seq<F128>)
    requires
        coeffs.len() == pow2(basis.len()),
    ensures
        transform(coeffs, basis).len() == coeffs.len(),
        evals_at(transform(coeffs, basis), z) == transformed(evals_at(coeffs, z), basis),
    decreases basis.len(),
{
    broadcast use group_lin;

    if basis.len() > 0 {
        lemma_pow2_unfold(basis.len());
        let half = (coeffs.len() / 2) as int;
        let b = basis.drop_last();
        lemma_transform_eval(coeffs.take(half), b, z);
        lemma_transform_eval(coeffs.skip(half), b, z);
        let e = evals_at(coeffs, z);
        assert(evals_at(coeffs.take(half), z) =~= e.take(half));
        assert(evals_at(coeffs.skip(half), z) =~= e.skip(half));
        let (low, high) = (transform(coeffs.take(half), b), transform(coeffs.skip(half), b));
        assert forall|i: int| 0 <= i < half implies (#[trigger] low[i]).eval(z) == transformed(
            e.take(half),
            b,
        )[i] by {
            assert(evals_at(low, z)[i] == low[i].eval(z));
        }
        assert forall|i: int| 0 <= i < half implies (#[trigger] high[i]).eval(z) == transformed(
            e.skip(half),
            b,
        )[i] by {
            assert(evals_at(high, z)[i] == high[i].eval(z));
        }
        assert(transformed(e.take(half), b).len() == evals_at(low, z).len());
        assert(transformed(e.skip(half), b).len() == evals_at(high, z).len());
        assert(evals_at(transform(coeffs, basis), z) =~= transformed(e, basis));
    }
}

/// All blocks of `2^k` entries transformed.
spec fn staged(coeffs: Seq<Lin>, basis: Seq<F128>, k: nat) -> Seq<Lin>
    decreases k,
{
    if k == 0 {
        coeffs
    } else {
        let before = staged(coeffs, basis, (k - 1) as nat);
        let len = pow2((k - 1) as nat) as int;
        Seq::new(
            before.len(),
            |t: int|
                if t % (2 * len) < len {
                    before[t].plus(before[t + len])
                } else {
                    before[t - len].plus(before[t]).scale(basis[k - 1]).plus(before[t])
                },
        )
    }
}

proof fn lemma_staged_len(coeffs: Seq<Lin>, basis: Seq<F128>, k: nat)
    ensures
        staged(coeffs, basis, k).len() == coeffs.len(),
    decreases k,
{
    if k > 0 {
        lemma_staged_len(coeffs, basis, (k - 1) as nat);
    }
}

/// Blocks do not mix.
proof fn lemma_staged_split(coeffs: Seq<Lin>, basis: Seq<F128>, k: nat, m: nat)
    requires
        k <= m,
        coeffs.len() == 2 * pow2(m),
    ensures
        staged(coeffs, basis, k).take(pow2(m) as int) == staged(
            coeffs.take(pow2(m) as int),
            basis,
            k,
        ),
        staged(coeffs, basis, k).skip(pow2(m) as int) == staged(
            coeffs.skip(pow2(m) as int),
            basis,
            k,
        ),
    decreases k,
{
    let h = pow2(m) as int;
    let (lo, hi) = (coeffs.take(h), coeffs.skip(h));
    lemma_staged_len(coeffs, basis, k);
    lemma_staged_len(lo, basis, k);
    lemma_staged_len(hi, basis, k);
    if k > 0 {
        let j = (k - 1) as nat;
        lemma_staged_split(coeffs, basis, j, m);
        lemma_staged_len(coeffs, basis, j);
        lemma_staged_len(lo, basis, j);
        lemma_staged_len(hi, basis, j);
        let len = pow2(j) as int;
        lemma_pow2_pos(j);
        lemma_pow2_unfold(k);
        vstd::arithmetic::power2::lemma_pow2_adds(k, (m - k) as nat);
        let q = pow2((m - k) as nat) as int;
        assert(h == q * (2 * len)) by (nonlinear_arith)
            requires
                h == (2 * len) * q,
        ;
        let (all, sl, sh) = (
            staged(coeffs, basis, j),
            staged(lo, basis, j),
            staged(hi, basis, j),
        );
        assert(forall|t: int| 0 <= t < h ==> #[trigger] all[t] == all.take(h)[t]);
        assert(forall|t: int| 0 <= t < h ==> #[trigger] all.skip(h)[t] == all[t + h]);
        assert forall|t: int| 0 <= t < h implies staged(coeffs, basis, k).take(h)[t] == staged(
            lo,
            basis,
            k,
        )[t] by {
            lemma_block(t, len, q);
            if t % (2 * len) < len {
                assert(all[t + len] == all.take(h)[t + len]);
            } else {
                assert(all[t - len] == all.take(h)[t - len]);
            }
        }
        assert forall|t: int| 0 <= t < h implies staged(coeffs, basis, k).skip(h)[t] == staged(
            hi,
            basis,
            k,
        )[t] by {
            lemma_block(t, len, q);
            assert((t + h) % (2 * len) == t % (2 * len)) by {
                vstd::arithmetic::div_mod::lemma_mod_multiples_vanish(q, t, 2 * len);
                assert((2 * len) * q + t == t + h) by (nonlinear_arith)
                    requires
                        h == q * (2 * len),
                ;
            }
            if t % (2 * len) < len {
                assert(all.skip(h)[t + len] == all[t + h + len]);
            } else {
                assert(all.skip(h)[t - len] == all[t + h - len]);
            }
        }
        assert(staged(coeffs, basis, k).take(h) =~= staged(lo, basis, k));
        assert(staged(coeffs, basis, k).skip(h) =~= staged(hi, basis, k));
    }
}

/// Within a domain of whole blocks, partners are in the domain.
proof fn lemma_block(t: int, len: int, q: int)
    requires
        len > 0,
        0 <= t < q * (2 * len),
    ensures
        t % (2 * len) < len ==> t + len < q * (2 * len),
        t % (2 * len) >= len ==> t - len >= 0,
{
    let d = t / (2 * len);
    let m = t % (2 * len);
    vstd::arithmetic::div_mod::lemma_fundamental_div_mod(t, 2 * len);
    assert(t == d * (2 * len) + m) by (nonlinear_arith)
        requires
            t == (2 * len) * d + m,
    ;
    assert(d < q) by (nonlinear_arith)
        requires
            t == d * (2 * len) + m,
            t < q * (2 * len),
            m >= 0,
            len > 0,
    ;
    assert(d * (2 * len) + 2 * len <= q * (2 * len)) by (nonlinear_arith)
        requires
            d < q,
            len > 0,
    ;
    assert(d >= 0) by (nonlinear_arith)
        requires
            t == d * (2 * len) + m,
            t >= 0,
            m < 2 * len,
            len > 0,
    ;
    assert(d * (2 * len) >= 0) by (nonlinear_arith)
        requires
            d >= 0,
            len > 0,
    ;
}

proof fn lemma_staged(coeffs: Seq<Lin>, basis: Seq<F128>, k: nat)
    requires
        coeffs.len() == pow2(k),
        k <= basis.len(),
    ensures
        staged(coeffs, basis, k) == transform(coeffs, basis.take(k as int)),
        transform(coeffs, basis.take(k as int)).len() == coeffs.len(),
    decreases k,
{
    if k > 0 {
        let j = (k - 1) as nat;
        lemma_pow2_unfold(k);
        let h = pow2(j) as int;
        lemma_pow2_pos(j);
        lemma_staged_split(coeffs, basis, j, j);
        lemma_staged(coeffs.take(h), basis, j);
        lemma_staged(coeffs.skip(h), basis, j);
        let b = basis.take(k as int);
        assert(b.drop_last() =~= basis.take(j as int));
        let s = staged(coeffs, basis, j);
        lemma_staged_len(coeffs, basis, j);
        let (low, high) = (s.take(h), s.skip(h));
        assert(staged(coeffs, basis, k) =~= joined(low, high, b.last())) by {
            assert forall|t: int| 0 <= t < 2 * h implies #[trigger] staged(coeffs, basis, k)[t]
                == joined(low, high, b.last())[t] by {
                assert(t % (2 * h) == t) by (nonlinear_arith)
                    requires
                        0 <= t < 2 * h,
                ;
                if t < h {
                    assert(low[t] == s[t] && high[t] == s[t + h]);
                } else {
                    assert(low[t - h] == s[t - h] && high[t - h] == s[t]);
                }
            }
        }
    } else {
        assert(basis.take(0).len() == 0);
    }
}

/// The additive transform of expressions. It adds no rows.
pub fn forward_ntt_trace(coeffs: &Vec<LinExpr>, basis: &Vec<F128>) -> (r: Vec<LinExpr>)
    requires
        coeffs@.len() == pow2(basis@.len()),
    ensures
        lins(r@) == transform(lins(coeffs@), basis@),
{
    let n: usize = coeffs.len();
    let ghost c = lins(coeffs@);
    let mut evals: Vec<LinExpr> = Vec::new();
    let mut j: usize = 0;
    while j < n
        invariant
            j <= n,
            n == coeffs@.len(),
            evals@.len() == j,
            forall|i: int| 0 <= i < j ==> (#[trigger] evals@[i])@ == coeffs@[i]@,
        decreases n - j,
    {
        evals.push(coeffs[j].dup());
        j += 1;
    }
    let mut len: usize = 1;
    let mut k: usize = 0;
    proof {
        assert(lins(evals@) =~= c);
        vstd::arithmetic::power2::lemma2_to64();
    }
    while k < basis.len()
        invariant
            k <= basis@.len(),
            n == coeffs@.len(),
            n == pow2(basis@.len()),
            c == lins(coeffs@),
            evals@.len() == n,
            len == pow2(k as nat),
            lins(evals@) == staged(c, basis@, k as nat),
        decreases basis@.len() - k,
    {
        let ghost q = pow2((basis@.len() - k - 1) as nat) as int;
        proof {
            lemma_pow2_pos(k as nat);
            lemma_pow2_unfold((k + 1) as nat);
            vstd::arithmetic::power2::lemma_pow2_adds(
                (k + 1) as nat,
                (basis@.len() - k - 1) as nat,
            );
            crate::bits::lemma_pow2_bound((k + 1) as nat, basis@.len());
            assert(n == q * (2 * len)) by (nonlinear_arith)
                requires
                    n == (2 * len) * q,
            ;
        }
        let w = basis[k];
        let mut next: Vec<LinExpr> = Vec::new();
        let mut t: usize = 0;
        while t < n
            invariant
                t <= n,
                k < basis@.len(),
                len > 0,
                2 * len <= n,
                n == q * (2 * len),
                w == basis@[k as int],
                len == pow2(k as nat),
                evals@.len() == n,
                next@.len() == t,
                lins(evals@) == staged(c, basis@, k as nat),
                forall|i: int|
                    0 <= i < t ==> (#[trigger] next@[i])@ == staged(
                        c,
                        basis@,
                        (k + 1) as nat,
                    )[i],
            decreases n - t,
        {
            proof {
                lemma_block(t as int, len as int, q);
                lemma_staged_len(c, basis@, (k + 1) as nat);
                lemma_staged_len(c, basis@, k as nat);
                assert(forall|i: int| 0 <= i < n ==> #[trigger] lins(evals@)[i] == evals@[i]@);
            }
            let out = if t % (2 * len) < len {
                evals[t].add(&evals[t + len])
            } else {
                evals[t - len].add(&evals[t]).scale(w).add(&evals[t])
            };
            next.push(out);
            t += 1;
        }
        proof {
            lemma_staged_len(c, basis@, (k + 1) as nat);
            assert(lins(next@) =~= staged(c, basis@, (k + 1) as nat));
        }
        evals = next;
        len = 2 * len;
        k += 1;
    }
    proof {
        lemma_staged(c, basis@, basis@.len());
        assert(basis@.take(basis@.len() as int) =~= basis@);
    }
    evals
}

} // verus!
