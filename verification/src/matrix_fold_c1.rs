//! Folding claims about a matrix with challenges in the extension.

use vstd::prelude::*;
use vstd::arithmetic::power2::{lemma_pow2_unfold, pow2};
use crate::accepted_claim_batch::free_rows;
use crate::channel::{Op, RawChannelTrace};
use crate::circuit::{
    group_circuit, group_lin, mul_rows, pin_rows, Circuit, FieldR1csBuilder, Lin, LinExpr, Row,
};
use crate::extension::{
    ext_below, ext_evals, ext_lins, ext_mul_rows, lemma_ext_mul_past, mul_ext, ExtExpr, ExtLin,
    Extension, F256,
};
use crate::field::F128;
use crate::gadget::{
    all_zero, computed, enforces, holds_past, lemma_binds_grow, lemma_binds_none,
    lemma_computed_refl, lemma_computed_trans, lemma_enforces, lemma_mul_past, lemma_past_split,
    lemma_pinned_computed, lemma_pinned_none, times,
};
use crate::matrix_fold::{fold_draws, sample};
use crate::spine_replay::{lemma_equal_push, pin_equal};
use crate::structural_region::{alloc_value, allocated, lemma_allocated, lemma_allocated_none};

verus! {

broadcast use {group_circuit, lemma_computed_trans};

/// An accumulated claim in the extension.
#[derive(Debug)]
pub struct C1MatrixAccClaimTrace {
    pub point: Vec<ExtExpr>,
    pub value: ExtExpr,
}

/// A fresh claim in the extension, and the weights of its first coordinates at
/// `z_skip`.
#[derive(Debug)]
pub struct C1FreshLincheckClaimTrace {
    pub alpha: ExtExpr,
    pub z_skip: ExtExpr,
    pub lambda: Vec<ExtExpr>,
    pub x_inner_rest: Vec<ExtExpr>,
    pub r_inner_rest: Vec<ExtExpr>,
    pub z_partial: Vec<ExtExpr>,
    pub value: ExtExpr,
}

/// A fold proof in the extension.
#[derive(Debug)]
pub struct C1MatrixFoldProofTrace {
    pub phase1_rounds: Vec<[ExtExpr; 2]>,
    pub g_v: ExtExpr,
    pub g_e: ExtExpr,
    pub phase2_rounds: Vec<[ExtExpr; 2]>,
    pub final_matrix_eval: ExtExpr,
}

// ---------------------------------------------------------------------------
// Values
// ---------------------------------------------------------------------------

/// A quadratic round in the extension.
pub open spec fn ext_quadratic(e: Extension, w: Seq<F256>, claim: F256, r: F256) -> F256 {
    e.times(e.times(w[1], r).plus(claim.plus(w[1])), r).plus(w[0])
}

/// The claim after the first `n` rounds.
pub open spec fn ext_folded_claim(
    e: Extension,
    rounds: Seq<Seq<F256>>,
    claim: F256,
    challenges: Seq<F256>,
    n: nat,
) -> F256
    decreases n,
{
    if n == 0 {
        claim
    } else {
        ext_quadratic(
            e,
            rounds[n - 1],
            ext_folded_claim(e, rounds, claim, challenges, (n - 1) as nat),
            challenges[n - 1],
        )
    }
}

/// The equality indicator of two points in the extension.
pub open spec fn ext_equal_at(e: Extension, x: Seq<F256>, y: Seq<F256>, n: nat) -> F256
    decreases n,
{
    if n == 0 {
        F256::spec_one()
    } else {
        e.times(
            ext_equal_at(e, x, y, (n - 1) as nat),
            x[n - 1].plus(y[n - 1]).plus(F256::spec_one()),
        )
    }
}

/// A table with its last coordinate fixed.
pub open spec fn ext_folded(e: Extension, t: Seq<F256>, r: F256) -> Seq<F256> {
    let half = t.len() / 2;
    Seq::new(half, |i: int| t[i].plus(e.times(r, t[i].plus(t[i + half]))))
}

/// The multilinear extension of a table at a point of the extension.
pub open spec fn ext_mle(e: Extension, t: Seq<F256>, point: Seq<F256>) -> F256
    decreases point.len(),
{
    if point.len() == 0 {
        t[0]
    } else {
        ext_mle(e, ext_folded(e, t, point.last()), point.drop_last())
    }
}

/// The values of a fold.
pub struct C1FoldValues {
    pub alpha: F256,
    pub lambda: Seq<F256>,
    pub x_rest: Seq<F256>,
    pub r_rest: Seq<F256>,
    pub z_partial: Seq<F256>,
    pub value: F256,
    pub in_point: Seq<F256>,
    pub in_value: F256,
    pub gate: F128,
    pub first: Seq<Seq<F256>>,
    pub g_v: F256,
    pub g_e: F256,
    pub second: Seq<Seq<F256>>,
    pub end: F256,
}

/// What the first sumcheck ends on.
#[verifier::opaque]
pub open spec fn c1_rows_end(
    e: Extension,
    v: C1FoldValues,
    k_log: int,
    k_skip: int,
    gg: F256,
    rho: Seq<F256>,
) -> F256 {
    let fresh = e.times(
        e.times(
            ext_mle(e, v.lambda, rho.subrange(0, k_skip)),
            ext_equal_at(e, v.x_rest, rho.subrange(k_skip, k_log), (k_log - k_skip) as nat),
        ),
        v.alpha.plus(e.times(rho[k_log], v.alpha.plus(F256::spec_one()))),
    );
    let incoming = ext_equal_at(e, v.in_point.subrange(0, k_log + 1), rho, (k_log + 1) as nat);
    e.times(fresh, v.g_v).plus(e.times(e.times(gg, incoming), v.g_e))
}

/// What the second sumcheck ends on.
#[verifier::opaque]
pub open spec fn c1_columns_end(
    e: Extension,
    v: C1FoldValues,
    k_log: int,
    k_skip: int,
    dg: F256,
    sigma: Seq<F256>,
) -> F256 {
    let fresh = e.times(
        ext_mle(e, v.z_partial, sigma.subrange(0, k_skip)),
        ext_equal_at(e, v.r_rest, sigma.subrange(k_skip, k_log), (k_log - k_skip) as nat),
    );
    let incoming = ext_equal_at(
        e,
        v.in_point.subrange(k_log + 1, 2 * k_log + 1),
        sigma,
        k_log as nat,
    );
    e.times(fresh.plus(e.times(dg, incoming)), v.end)
}

/// Both sumchecks of a fold.
pub open spec fn c1_fold_checks(
    e: Extension,
    v: C1FoldValues,
    k_log: int,
    k_skip: int,
    gamma: F256,
    rho: Seq<F256>,
    delta: F256,
    sigma: Seq<F256>,
) -> bool {
    let gg = gamma.scaled(v.gate);
    let dg = delta.scaled(v.gate);
    &&& c1_rows_end(e, v, k_log, k_skip, gg, rho) == ext_folded_claim(
        e,
        v.first,
        v.value.plus(e.times(gg, v.in_value)),
        rho,
        (k_log + 1) as nat,
    )
    &&& c1_columns_end(e, v, k_log, k_skip, dg, sigma) == ext_folded_claim(
        e,
        v.second,
        v.g_v.plus(e.times(dg, v.g_e)),
        sigma,
        k_log as nat,
    )
}

// ---------------------------------------------------------------------------
// Lists of expressions
// ---------------------------------------------------------------------------

proof fn lemma_ext_grow(s: Seq<ExtLin>, m: nat, n: nat)
    requires
        ext_below(s, m),
        m <= n,
    ensures
        ext_below(s, n),
{
    assert forall|i: int| 0 <= i < s.len() implies (#[trigger] s[i]).below(n) by {
        assert(s[i].below(m));
    }
}

proof fn lemma_ext_push(s: Seq<ExtExpr>, x: ExtExpr, m: nat, n: nat)
    requires
        ext_below(ext_lins(s), m),
        m <= n,
        x@.below(n),
    ensures
        ext_below(ext_lins(s.push(x)), n),
        ext_lins(s.push(x)) == ext_lins(s).push(x@),
{
    let all = ext_lins(s.push(x));
    assert(all =~= ext_lins(s).push(x@));
    assert forall|i: int| 0 <= i < all.len() implies (#[trigger] all[i]).below(n) by {
        if i < s.len() {
            assert(ext_lins(s)[i].below(m));
        }
    }
}

proof fn lemma_ext_at(s: Seq<ExtExpr>, n: nat, i: int)
    requires
        ext_below(ext_lins(s), n),
        0 <= i < s.len(),
    ensures
        s[i]@.below(n),
        ext_lins(s)[i] == s[i]@,
{
    assert(ext_lins(s)[i].below(n));
}

fn ext_slice(v: &Vec<ExtExpr>, from: usize, to: usize, Ghost(n): Ghost<nat>) -> (r: Vec<ExtExpr>)
    requires
        from <= to <= v@.len(),
        ext_below(ext_lins(v@), n),
    ensures
        ext_lins(r@) == ext_lins(v@).subrange(from as int, to as int),
        r@.len() == to - from,
        ext_below(ext_lins(r@), n),
{
    let mut r: Vec<ExtExpr> = Vec::new();
    let mut i: usize = from;
    while i < to
        invariant
            from <= i <= to <= v@.len(),
            r@.len() == i - from,
            forall|j: int| 0 <= j < r@.len() ==> (#[trigger] r@[j])@ == v@[from + j]@,
        decreases to - i,
    {
        r.push(v[i].dup());
        i += 1;
    }
    proof {
        assert(ext_lins(r@) =~= ext_lins(v@).subrange(from as int, to as int));
        assert forall|j: int| 0 <= j < r@.len() implies (#[trigger] ext_lins(r@)[j]).below(n) by {
            assert(ext_lins(v@)[from + j].below(n));
        }
    }
    r
}

// ---------------------------------------------------------------------------
// Gadgets
// ---------------------------------------------------------------------------

/// The rows of the equality indicator of two points' first `n` coordinates, one
/// product a coordinate.
pub open spec fn ext_equality_rows(
    c: Seq<Row>,
    e: Extension,
    x: Seq<ExtLin>,
    y: Seq<ExtLin>,
    n: nat,
) -> (Seq<Row>, ExtLin)
    decreases n,
{
    if n == 0 {
        (c, ExtLin::one())
    } else {
        let (c0, acc) = ext_equality_rows(c, e, x, y, (n - 1) as nat);
        ext_mul_rows(c0, e, acc, x[n - 1].plus(y[n - 1]).plus(ExtLin::one()))
    }
}

/// The rows that fix a table's last coordinate, for its first `n` entries.
pub open spec fn ext_folded_rows(
    c: Seq<Row>,
    e: Extension,
    t: Seq<ExtLin>,
    r: ExtLin,
    n: nat,
) -> (Seq<Row>, Seq<ExtLin>)
    decreases n,
{
    if n == 0 {
        (c, Seq::empty())
    } else {
        let (c0, s) = ext_folded_rows(c, e, t, r, (n - 1) as nat);
        let i = n - 1;
        let (c1, p) = ext_mul_rows(c0, e, r, t[i].plus(t[i + t.len() / 2]));
        (c1, s.push(t[i].plus(p)))
    }
}

/// The rows of the extension of a table at a point, last coordinate first.
pub open spec fn ext_mle_rows(c: Seq<Row>, e: Extension, t: Seq<ExtLin>, point: Seq<ExtLin>) -> (
    Seq<Row>,
    ExtLin,
)
    decreases point.len(),
{
    if point.len() == 0 {
        (c, t[0])
    } else {
        let (c1, s) = ext_folded_rows(c, e, t, point.last(), t.len() / 2);
        ext_mle_rows(c1, e, s, point.drop_last())
    }
}

/// The equality indicator of two points.
fn eq_points_c1_trace(
    b: &mut FieldR1csBuilder,
    e: &Extension,
    x: &Vec<ExtExpr>,
    y: &Vec<ExtExpr>,
) -> (r: ExtExpr)
    requires
        old(b)@.wf(),
        x@.len() == y@.len(),
        ext_below(ext_lins(x@), old(b)@.rows.len()),
        ext_below(ext_lins(y@), old(b)@.rows.len()),
    ensures
        computed(old(b)@, final(b)@),
        r@.below(final(b)@.rows.len()),
        (final(b)@.rows, r@) == ext_equality_rows(
            old(b)@.rows,
            *e,
            ext_lins(x@),
            ext_lins(y@),
            x@.len(),
        ),
        forall|z: Seq<F128>| #[trigger]
            holds_past(final(b)@.rows, old(b)@.rows.len(), z) ==> r@.eval(z) == ext_equal_at(
                *e,
                ext_evals(ext_lins(x@), z),
                ext_evals(ext_lins(y@), z),
                x@.len(),
            ),
{
    broadcast use group_lin;

    let ghost b0 = b@;
    let ghost n = b0.rows.len();
    let ghost (xl, yl) = (ext_lins(x@), ext_lins(y@));
    let mut acc = ExtExpr::one();
    let one = ExtExpr::one();
    let mut i: usize = 0;
    proof {
        lemma_computed_refl(b0);
    }
    while i < x.len()
        invariant
            i <= x@.len(),
            x@.len() == y@.len(),
            n == b0.rows.len(),
            xl == ext_lins(x@),
            yl == ext_lins(y@),
            one@ == ExtLin::one(),
            ext_below(xl, n),
            ext_below(yl, n),
            b@.wf(),
            computed(b0, b@),
            acc@.below(b@.rows.len()),
            (b@.rows, acc@) == ext_equality_rows(b0.rows, *e, xl, yl, i as nat),
            forall|z: Seq<F128>| #[trigger]
                holds_past(b@.rows, n, z) ==> acc@.eval(z) == ext_equal_at(
                    *e,
                    ext_evals(xl, z),
                    ext_evals(yl, z),
                    i as nat,
                ),
        decreases x@.len() - i,
    {
        let ghost c0 = b@;
        let ghost before = acc@;
        proof {
            lemma_ext_at(x@, n, i as int);
            lemma_ext_at(y@, n, i as int);
        }
        let f = x[i].add(&y[i]).add(&one);
        acc = mul_ext(b, e, &acc, &f);
        proof {
            let rows = b@.rows;
            assert forall|z: Seq<F128>| #[trigger] holds_past(rows, n, z) implies acc@.eval(z)
                == ext_equal_at(*e, ext_evals(xl, z), ext_evals(yl, z), (i + 1) as nat) by {
                lemma_past_split(rows, c0.rows, n, z);
                lemma_ext_mul_past(c0.rows, *e, before, f@, z);
                assert(f@.eval(z) == x@[i as int]@.eval(z).plus(y@[i as int]@.eval(z)).plus(
                    F256::spec_one(),
                ));
            }
        }
        i += 1;
    }
    acc
}

/// The extension of a table at a point.
#[verifier::rlimit(40)]
fn evaluate_slice_ext_trace(
    b: &mut FieldR1csBuilder,
    e: &Extension,
    values: &Vec<ExtExpr>,
    point: &Vec<ExtExpr>,
) -> (r: ExtExpr)
    requires
        old(b)@.wf(),
        values@.len() == pow2(point@.len()),
        ext_below(ext_lins(values@), old(b)@.rows.len()),
        ext_below(ext_lins(point@), old(b)@.rows.len()),
    ensures
        computed(old(b)@, final(b)@),
        r@.below(final(b)@.rows.len()),
        (final(b)@.rows, r@) == ext_mle_rows(
            old(b)@.rows,
            *e,
            ext_lins(values@),
            ext_lins(point@),
        ),
        forall|z: Seq<F128>| #[trigger]
            holds_past(final(b)@.rows, old(b)@.rows.len(), z) ==> r@.eval(z) == ext_mle(
                *e,
                ext_evals(ext_lins(values@), z),
                ext_evals(ext_lins(point@), z),
            ),
{
    broadcast use group_lin;

    let ghost b0 = b@;
    let ghost n = b0.rows.len();
    let ghost (vl, pl) = (ext_lins(values@), ext_lins(point@));
    let mut buf = ext_slice(values, 0, values.len(), Ghost(n));
    let mut k: usize = point.len();
    proof {
        lemma_computed_refl(b0);
        assert(ext_lins(buf@) =~= vl);
        assert(pl.take(k as int) =~= pl);
        assert forall|z: Seq<F128>| #[trigger] holds_past(b@.rows, n, z) implies ext_mle(
            *e,
            ext_evals(ext_lins(buf@), z),
            ext_evals(pl, z).take(k as int),
        ) == ext_mle(*e, ext_evals(vl, z), ext_evals(pl, z)) by {
            assert(ext_evals(pl, z).take(k as int) =~= ext_evals(pl, z));
        }
    }
    while k > 0
        invariant
            k <= point@.len(),
            n == b0.rows.len(),
            pl == ext_lins(point@),
            ext_below(pl, n),
            b@.wf(),
            computed(b0, b@),
            buf@.len() == pow2(k as nat),
            ext_below(ext_lins(buf@), b@.rows.len()),
            ext_mle_rows(b@.rows, *e, ext_lins(buf@), pl.take(k as int)) == ext_mle_rows(
                b0.rows,
                *e,
                vl,
                pl,
            ),
            forall|z: Seq<F128>| #[trigger]
                holds_past(b@.rows, n, z) ==> ext_mle(
                    *e,
                    ext_evals(ext_lins(buf@), z),
                    ext_evals(pl, z).take(k as int),
                ) == ext_mle(*e, ext_evals(vl, z), ext_evals(pl, z)),
        decreases k,
    {
        let r = &point[k - 1];
        let ghost c0 = b@;
        let ghost m = c0.rows.len();
        let ghost bl = ext_lins(buf@);
        let total: usize = buf.len();
        let half: usize = total / 2;
        let mut next: Vec<ExtExpr> = Vec::new();
        proof {
            lemma_pow2_unfold(k as nat);
            lemma_ext_at(point@, n, k - 1);
            lemma_computed_refl(c0);
            assert(ext_below(ext_lins(next@), m));
            assert(ext_lins(next@) =~= Seq::empty());
        }
        while next.len() < half
            invariant
                next@.len() <= half,
                total == buf@.len(),
                half == total / 2,
                m == c0.rows.len(),
                bl == ext_lins(buf@),
                ext_below(bl, m),
                r@.below(m),
                b@.wf(),
                computed(c0, b@),
                ext_below(ext_lins(next@), b@.rows.len()),
                (b@.rows, ext_lins(next@)) == ext_folded_rows(c0.rows, *e, bl, r@, next@.len()),
                forall|z: Seq<F128>, i: int| #[trigger]
                    holds_past(b@.rows, m, z) && 0 <= i < next@.len() ==> (
                    #[trigger] next@[i])@.eval(z) == ext_folded(
                        *e,
                        ext_evals(bl, z),
                        r@.eval(z),
                    )[i],
            decreases half - next@.len(),
        {
            let i: usize = next.len();
            let ghost c1 = b@;
            let ghost prior = next@;
            proof {
                lemma_ext_at(buf@, m, i as int);
                lemma_ext_at(buf@, m, i + half);
            }
            let d = buf[i].add(&buf[i + half]);
            let p = mul_ext(b, e, r, &d);
            let out = buf[i].add(&p);
            proof {
                lemma_ext_push(next@, out, c1.rows.len(), b@.rows.len());
            }
            next.push(out);
            proof {
                let rows = b@.rows;
                assert forall|z: Seq<F128>, j: int| #[trigger]
                    holds_past(rows, m, z) && 0 <= j < next@.len() implies (
                #[trigger] next@[j])@.eval(z) == ext_folded(
                    *e,
                    ext_evals(bl, z),
                    r@.eval(z),
                )[j] by {
                    lemma_past_split(rows, c1.rows, m, z);
                    if j < i {
                        assert(next@[j] == prior[j]);
                    } else {
                        lemma_ext_mul_past(c1.rows, *e, r@, d@, z);
                        assert(d@.eval(z) == buf@[i as int]@.eval(z).plus(
                            buf@[i + half]@.eval(z),
                        ));
                        assert(out@.eval(z) == buf@[i as int]@.eval(z).plus(p@.eval(z)));
                    }
                }
            }
        }
        proof {
            let rows = b@.rows;
            assert(pl.take(k as int).last() == r@);
            assert(pl.take(k as int).drop_last() =~= pl.take(k - 1));
            assert forall|z: Seq<F128>| #[trigger] holds_past(rows, n, z) implies ext_mle(
                *e,
                ext_evals(ext_lins(next@), z),
                ext_evals(pl, z).take(k - 1),
            ) == ext_mle(*e, ext_evals(vl, z), ext_evals(pl, z)) by {
                lemma_past_split(rows, c0.rows, n, z);
                let pv = ext_evals(pl, z).take(k as int);
                assert(pv.last() == r@.eval(z));
                assert(pv.drop_last() =~= ext_evals(pl, z).take(k - 1));
                let want = ext_folded(*e, ext_evals(bl, z), r@.eval(z));
                let got = ext_evals(ext_lins(next@), z);
                assert(got =~= want) by {
                    assert forall|j: int| 0 <= j < got.len() implies got[j] == want[j] by {
                        assert(next@[j]@.eval(z) == want[j]);
                    }
                }
            }
        }
        buf = next;
        k = k - 1;
    }
    proof {
        vstd::arithmetic::power2::lemma2_to64();
        lemma_ext_at(buf@, b@.rows.len(), 0);
        assert forall|z: Seq<F128>| #[trigger] holds_past(b@.rows, n, z) implies buf@[0]@.eval(z)
            == ext_mle(*e, ext_evals(vl, z), ext_evals(pl, z)) by {
            assert(ext_evals(pl, z).take(0).len() == 0);
        }
    }
    buf[0].dup()
}

pub open spec fn ext_pairs(rounds: Seq<[ExtExpr; 2]>) -> Seq<Seq<ExtLin>> {
    Seq::new(rounds.len(), |i: int| ext_lins(rounds[i]@))
}

pub open spec fn ext_pairs_at(rounds: Seq<Seq<ExtLin>>, z: Seq<F128>) -> Seq<Seq<F256>> {
    Seq::new(rounds.len(), |i: int| ext_evals(rounds[i], z))
}

pub open spec fn ext_pairs_below(rounds: Seq<[ExtExpr; 2]>, n: nat) -> bool {
    forall|i: int| 0 <= i < rounds.len() ==> ext_below(ext_lins((#[trigger] rounds[i])@), n)
}

proof fn lemma_ext_pairs_grow(rounds: Seq<[ExtExpr; 2]>, m: nat, n: nat)
    requires
        ext_pairs_below(rounds, m),
        m <= n,
    ensures
        ext_pairs_below(rounds, n),
{
    assert forall|i: int| 0 <= i < rounds.len() implies ext_below(
        ext_lins((#[trigger] rounds[i])@),
        n,
    ) by {
        lemma_ext_grow(ext_lins(rounds[i]@), m, n);
    }
}

/// The operations that absorb expressions of the extension, low half first.
pub open spec fn ext_absorbs(s: Seq<ExtLin>, n: nat) -> Seq<Op>
    decreases n,
{
    if n == 0 {
        Seq::empty()
    } else {
        ext_absorbs(s, (n - 1) as nat).push(Op::Absorb(s[n - 1].lo)).push(
            Op::Absorb(s[n - 1].hi),
        )
    }
}

pub open spec fn ext_absorb(x: ExtLin) -> Seq<Op> {
    seq![Op::Absorb(x.lo), Op::Absorb(x.hi)]
}

pub open spec fn ext_squeeze(x: ExtLin) -> Seq<Op> {
    seq![Op::Squeeze(x.lo), Op::Squeeze(x.hi)]
}

fn observe(ch: &mut RawChannelTrace, x: &ExtExpr)
    ensures
        final(ch)@ == old(ch)@ + ext_absorb(x@),
        final(ch).challenges == old(ch).challenges,
        final(ch).squeezed == old(ch).squeezed,
{
    ch.absorb(&x.lo);
    ch.absorb(&x.hi);
    assert(ch@ =~= old(ch)@ + ext_absorb(x@));
}

fn observe_all(ch: &mut RawChannelTrace, s: &Vec<ExtExpr>)
    ensures
        final(ch)@ == old(ch)@ + ext_absorbs(ext_lins(s@), s@.len()),
        final(ch).challenges == old(ch).challenges,
        final(ch).squeezed == old(ch).squeezed,
{
    let ghost o = ch@;
    let ghost sl = ext_lins(s@);
    let mut i: usize = 0;
    assert(ch@ =~= o + ext_absorbs(sl, 0));
    while i < s.len()
        invariant
            i <= s@.len(),
            sl == ext_lins(s@),
            ch@ == o + ext_absorbs(sl, i as nat),
            ch.challenges == old(ch).challenges,
            ch.squeezed == old(ch).squeezed,
        decreases s@.len() - i,
    {
        ch.absorb(&s[i].lo);
        ch.absorb(&s[i].hi);
        i += 1;
        assert(ch@ =~= o + ext_absorbs(sl, i as nat));
    }
}

/// The next `n` challenges of a channel, as elements of the extension.
pub open spec fn ext_draws(ch: RawChannelTrace, n: nat) -> Seq<F256> {
    Seq::new(
        n,
        |i: int| F256 { lo: ch.upcoming((2 * i) as nat), hi: ch.upcoming((2 * i + 1) as nat) },
    )
}

/// The rows of a challenge, and its wires.
pub open spec fn ext_challenge_rows(c: Seq<Row>) -> (Seq<Row>, ExtLin) {
    (
        free_rows(c, 2),
        ExtLin { lo: Lin::wire(c.len() as usize), hi: Lin::wire((c.len() + 1) as usize) },
    )
}

fn sample_ext(b: &mut FieldR1csBuilder, ch: &mut RawChannelTrace) -> (r: ExtExpr)
    requires
        old(b)@.wf(),
    ensures
        computed(old(b)@, final(b)@),
        (final(b)@.rows, r@) == ext_challenge_rows(old(b)@.rows),
        r@.below(final(b)@.rows.len()),
        final(ch)@ == old(ch)@ + ext_squeeze(r@),
        r@.eval(final(b)@.values) == ext_draws(*old(ch), 1)[0],
        final(ch).after(old(ch), 2),
{
    let ghost ch0 = *ch;
    let lo = sample(b, ch);
    let ghost ch1 = *ch;
    let ghost c = b@;
    let hi = sample(b, ch);
    proof {
        reveal_with_fuel(free_rows, 3);
        assert(b@.grows(c));
        assert(ch@ =~= old(ch)@ + seq![Op::Squeeze(lo@), Op::Squeeze(hi@)]);
        assert(ch1.upcoming(0) == ch0.upcoming(1));
        assert forall|j: nat| #[trigger] ch.upcoming(j) == ch0.upcoming(j + 2) by {
            assert(ch1.upcoming(j + 1) == ch0.upcoming(j + 1 + 1));
        }
    }
    ExtExpr { lo, hi }
}

/// The operations of the first `n` rounds.
pub open spec fn ext_round_ops(rounds: Seq<Seq<ExtLin>>, challenges: Seq<ExtLin>, n: nat) -> Seq<Op>
    decreases n,
{
    if n == 0 {
        Seq::empty()
    } else {
        ext_round_ops(rounds, challenges, (n - 1) as nat) + ext_absorb(rounds[n - 1][0])
            + ext_absorb(rounds[n - 1][1]) + ext_squeeze(challenges[n - 1])
    }
}

proof fn lemma_ext_rounds_agree(
    e: Extension,
    values: Seq<Seq<F256>>,
    claim: F256,
    x: Seq<F256>,
    y: Seq<F256>,
    rounds: Seq<Seq<ExtLin>>,
    a: Seq<ExtLin>,
    b: Seq<ExtLin>,
    n: nat,
)
    requires
        n <= a.len(),
        n <= b.len(),
        n <= x.len(),
        n <= y.len(),
        forall|i: int| 0 <= i < n ==> (#[trigger] a[i]) == b[i],
        forall|i: int| 0 <= i < n ==> (#[trigger] x[i]) == y[i],
    ensures
        ext_round_ops(rounds, a, n) == ext_round_ops(rounds, b, n),
        ext_folded_claim(e, values, claim, x, n) == ext_folded_claim(e, values, claim, y, n),
    decreases n,
{
    if n > 0 {
        lemma_ext_rounds_agree(e, values, claim, x, y, rounds, a, b, (n - 1) as nat);
        assert(a[n - 1] == b[n - 1]);
        assert(x[n - 1] == y[n - 1]);
    }
}

/// Rounds under way: their rows, the claim after them, and their challenges.
pub struct C1RoundsRun {
    pub rows: Seq<Row>,
    pub claim: ExtLin,
    pub challenges: Seq<ExtLin>,
}

/// The first `n` quadratic rounds.
pub open spec fn c1_rounds_run(
    c: Seq<Row>,
    e: Extension,
    rounds: Seq<Seq<ExtLin>>,
    claim: ExtLin,
    n: nat,
) -> C1RoundsRun
    decreases n,
{
    if n == 0 {
        C1RoundsRun { rows: c, claim, challenges: Seq::empty() }
    } else {
        let run = c1_rounds_run(c, e, rounds, claim, (n - 1) as nat);
        let w = rounds[n - 1];
        let (c1, r) = ext_challenge_rows(run.rows);
        let (c2, t) = ext_mul_rows(c1, e, w[1], r);
        let (c3, s) = ext_mul_rows(c2, e, t.plus(run.claim.plus(w[1])), r);
        C1RoundsRun { rows: c3, claim: s.plus(w[0]), challenges: run.challenges.push(r) }
    }
}

/// Quadratic rounds: the claim after them, and their challenges.
#[verifier::rlimit(60)]
fn compressed_rounds_c1(
    b: &mut FieldR1csBuilder,
    ch: &mut RawChannelTrace,
    e: &Extension,
    rounds: &Vec<[ExtExpr; 2]>,
    claim: &ExtExpr,
) -> (r: (ExtExpr, Vec<ExtExpr>))
    requires
        old(b)@.wf(),
        ext_pairs_below(rounds@, old(b)@.rows.len()),
        claim@.below(old(b)@.rows.len()),
    ensures
        computed(old(b)@, final(b)@),
        r.0@.below(final(b)@.rows.len()),
        r.1@.len() == rounds@.len(),
        ext_below(ext_lins(r.1@), final(b)@.rows.len()),
        (C1RoundsRun { rows: final(b)@.rows, claim: r.0@, challenges: ext_lins(r.1@) })
            == c1_rounds_run(
            old(b)@.rows,
            *e,
            ext_pairs(rounds@),
            claim@,
            rounds@.len(),
        ),
        ext_evals(ext_lins(r.1@), final(b)@.values) == ext_draws(*old(ch), rounds@.len()),
        final(ch).after(old(ch), 2 * rounds@.len()),
        final(ch)@ == old(ch)@ + ext_round_ops(
            ext_pairs(rounds@),
            ext_lins(r.1@),
            rounds@.len(),
        ),
        forall|z: Seq<F128>| #[trigger]
            holds_past(final(b)@.rows, old(b)@.rows.len(), z) ==> r.0@.eval(z)
                == ext_folded_claim(
                *e,
                ext_pairs_at(ext_pairs(rounds@), z),
                claim@.eval(z),
                ext_evals(ext_lins(r.1@), z),
                rounds@.len(),
            ),
{
    broadcast use group_lin;

    let ghost b0 = b@;
    let ghost n = b0.rows.len();
    let ghost rl = ext_pairs(rounds@);
    let ghost o = ch@;
    let ghost ch0 = *ch;
    let mut now = claim.dup();
    let mut challenges: Vec<ExtExpr> = Vec::new();
    proof {
        lemma_computed_refl(b0);
        assert(ch@ =~= o + ext_round_ops(rl, ext_lins(challenges@), 0));
        assert(ext_lins(challenges@) =~= Seq::empty());
    }
    while challenges.len() < rounds.len()
        invariant
            challenges@.len() <= rounds@.len(),
            n == b0.rows.len(),
            rl == ext_pairs(rounds@),
            ext_pairs_below(rounds@, n),
            b@.wf(),
            computed(b0, b@),
            now@.below(b@.rows.len()),
            ext_below(ext_lins(challenges@), b@.rows.len()),
            (C1RoundsRun { rows: b@.rows, claim: now@, challenges: ext_lins(challenges@) })
                == c1_rounds_run(b0.rows, *e, rl, claim@, challenges@.len()),
            forall|k: int|
                0 <= k < challenges@.len() ==> (#[trigger] challenges@[k])@.eval(b@.values)
                    == ext_draws(ch0, rounds@.len())[k],
            ch.after(&ch0, 2 * challenges@.len()),
            ch@ == o + ext_round_ops(rl, ext_lins(challenges@), challenges@.len()),
            forall|z: Seq<F128>| #[trigger]
                holds_past(b@.rows, n, z) ==> now@.eval(z) == ext_folded_claim(
                    *e,
                    ext_pairs_at(rl, z),
                    claim@.eval(z),
                    ext_evals(ext_lins(challenges@), z),
                    challenges@.len(),
                ),
        decreases rounds@.len() - challenges@.len(),
    {
        let i: usize = challenges.len();
        let wire = &rounds[i];
        let ghost c0 = b@;
        let ghost prior = ext_lins(challenges@);
        let ghost before = now@;
        proof {
            assert(ext_below(ext_lins(rounds@[i as int]@), n));
            assert(ext_lins(wire@)[0].below(n) && ext_lins(wire@)[1].below(n));
            assert(rl[i as int] == ext_lins(wire@));
        }
        let ghost at = *ch;
        let ghost held = challenges@;
        observe(ch, &wire[0]);
        observe(ch, &wire[1]);
        let ghost asked = *ch;
        let linear = now.add(&wire[1]);
        let r = sample_ext(b, ch);
        let ghost c1 = b@;
        let t = mul_ext(b, e, &wire[1], &r);
        let ghost c2 = b@;
        let u = t.add(&linear);
        let s = mul_ext(b, e, &u, &r);
        now = s.add(&wire[0]);
        let ghost rv = r@;
        proof {
            lemma_ext_push(challenges@, r, c0.rows.len(), b@.rows.len());
            assert(forall|j: nat| #[trigger] asked.upcoming(j) == at.upcoming(j));
            lemma_ext_stable(c1, b@, rv);
            assert(rv.eval(b@.values) == ext_draws(ch0, rounds@.len())[i as int]) by {
                assert(asked.upcoming(0) == at.upcoming(0));
                assert(asked.upcoming(1) == at.upcoming(1));
                assert(at.upcoming(0) == ch0.upcoming(2 * i as nat));
                assert(at.upcoming(1) == ch0.upcoming(1 + 2 * i as nat));
            }
        }
        challenges.push(r);
        proof {
            let all = ext_lins(challenges@);
            assert(all =~= prior.push(rv));
            assert forall|k: int| 0 <= k < challenges@.len() implies (
            #[trigger] challenges@[k])@.eval(b@.values) == ext_draws(ch0, rounds@.len())[k] by {
                if k < i {
                    assert(challenges@[k] == held[k]);
                    assert(prior[k].below(c0.rows.len()));
                    lemma_ext_stable(c0, b@, prior[k]);
                }
            }
            assert forall|j: nat| #[trigger] ch.upcoming(j) == ch0.upcoming(
                j + 2 * (i + 1) as nat,
            ) by {
                assert(asked.upcoming(j + 2) == at.upcoming(j + 2));
                assert(at.upcoming(j + 2) == ch0.upcoming(j + 2 + 2 * i as nat));
            }
            let none = Seq::<Seq<F256>>::empty();
            let zero = F256::spec_zero();
            let y = Seq::<F128>::empty();
            lemma_ext_rounds_agree(
                *e,
                none,
                zero,
                ext_evals(prior, y),
                ext_evals(all, y),
                rl,
                prior,
                all,
                i as nat,
            );
            assert(ch@ =~= o + ext_round_ops(rl, all, (i + 1) as nat));
            let rows = b@.rows;
            assert forall|z: Seq<F128>| #[trigger] holds_past(rows, n, z) implies now@.eval(z)
                == ext_folded_claim(
                *e,
                ext_pairs_at(rl, z),
                claim@.eval(z),
                ext_evals(all, z),
                (i + 1) as nat,
            ) by {
                lemma_past_split(rows, c2.rows, n, z);
                lemma_past_split(c2.rows, c1.rows, n, z);
                lemma_past_split(c1.rows, c0.rows, n, z);
                lemma_ext_mul_past(c1.rows, *e, wire@[1]@, rv, z);
                lemma_ext_mul_past(c2.rows, *e, u@, rv, z);
                let bv = ext_pairs_at(rl, z);
                lemma_ext_rounds_agree(
                    *e,
                    bv,
                    claim@.eval(z),
                    ext_evals(prior, z),
                    ext_evals(all, z),
                    rl,
                    prior,
                    all,
                    i as nat,
                );
                assert(bv[i as int] == ext_evals(ext_lins(wire@), z));
                assert(bv[i as int][0] == wire@[0]@.eval(z) && bv[i as int][1]
                    == wire@[1]@.eval(z));
                assert(u@.eval(z) == t@.eval(z).plus(before.eval(z).plus(wire@[1]@.eval(z))));
                assert(now@.eval(z) == s@.eval(z).plus(wire@[0]@.eval(z)));
            }
        }
    }
    assert(ext_evals(ext_lins(challenges@), b@.values) =~= ext_draws(ch0, rounds@.len()));
    (now, challenges)
}

/// The rows of an expression of the extension times one of the base.
pub open spec fn ext_scaled_rows(c: Seq<Row>, x: ExtLin, k: Lin) -> (Seq<Row>, ExtLin) {
    let (c1, lo) = mul_rows(c, x.lo, k);
    let (c2, hi) = mul_rows(c1, x.hi, k);
    (c2, ExtLin { lo, hi })
}

/// An expression of the extension times one of the base.
fn mul_ext_base(b: &mut FieldR1csBuilder, x: &ExtExpr, k: &LinExpr) -> (r: ExtExpr)
    requires
        old(b)@.wf(),
        x@.below(old(b)@.rows.len()),
        k@.below(old(b)@.rows.len()),
    ensures
        computed(old(b)@, final(b)@),
        r@.below(final(b)@.rows.len()),
        (final(b)@.rows, r@) == ext_scaled_rows(old(b)@.rows, x@, k@),
        forall|z: Seq<F128>| #[trigger]
            holds_past(final(b)@.rows, old(b)@.rows.len(), z) ==> r@.eval(z) == x@.eval(z).scaled(
                k@.eval(z),
            ),
{
    let ghost c0 = b@;
    let lo = times(b, &x.lo, k);
    let ghost c1 = b@;
    let hi = times(b, &x.hi, k);
    let r = ExtExpr { lo, hi };
    proof {
        let rows = b@.rows;
        assert forall|z: Seq<F128>| #[trigger] holds_past(rows, c0.rows.len(), z) implies r@.eval(
            z,
        ) == x@.eval(z).scaled(k@.eval(z)) by {
            lemma_past_split(rows, c1.rows, c0.rows.len(), z);
            lemma_mul_past(c0.rows, x.lo@, k@, z);
            lemma_mul_past(c1.rows, x.hi@, k@, z);
        }
    }
    r
}

// ---------------------------------------------------------------------------
// The fold
// ---------------------------------------------------------------------------

/// The expressions of a fold.
pub struct C1FoldLins {
    pub alpha: ExtLin,
    pub lambda: Seq<ExtLin>,
    pub x_rest: Seq<ExtLin>,
    pub r_rest: Seq<ExtLin>,
    pub z_partial: Seq<ExtLin>,
    pub value: ExtLin,
    pub in_point: Seq<ExtLin>,
    pub in_value: ExtLin,
    pub gate: Lin,
    pub first: Seq<Seq<ExtLin>>,
    pub g_v: ExtLin,
    pub g_e: ExtLin,
    pub second: Seq<Seq<ExtLin>>,
    pub end: ExtLin,
}

impl C1FoldLins {
    pub open spec fn at(self, z: Seq<F128>) -> C1FoldValues {
        C1FoldValues {
            alpha: self.alpha.eval(z),
            lambda: ext_evals(self.lambda, z),
            x_rest: ext_evals(self.x_rest, z),
            r_rest: ext_evals(self.r_rest, z),
            z_partial: ext_evals(self.z_partial, z),
            value: self.value.eval(z),
            in_point: ext_evals(self.in_point, z),
            in_value: self.in_value.eval(z),
            gate: self.gate.eval(z),
            first: ext_pairs_at(self.first, z),
            g_v: self.g_v.eval(z),
            g_e: self.g_e.eval(z),
            second: ext_pairs_at(self.second, z),
            end: self.end.eval(z),
        }
    }
}

pub open spec fn c1_fold_lins(
    fresh: &C1FreshLincheckClaimTrace,
    incoming: &C1MatrixAccClaimTrace,
    gate: Lin,
    proof: &C1MatrixFoldProofTrace,
) -> C1FoldLins {
    C1FoldLins {
        alpha: fresh.alpha@,
        lambda: ext_lins(fresh.lambda@),
        x_rest: ext_lins(fresh.x_inner_rest@),
        r_rest: ext_lins(fresh.r_inner_rest@),
        z_partial: ext_lins(fresh.z_partial@),
        value: fresh.value@,
        in_point: ext_lins(incoming.point@),
        in_value: incoming.value@,
        gate,
        first: ext_pairs(proof.phase1_rounds@),
        g_v: proof.g_v@,
        g_e: proof.g_e@,
        second: ext_pairs(proof.phase2_rounds@),
        end: proof.final_matrix_eval@,
    }
}

impl C1FreshLincheckClaimTrace {
    pub open spec fn wf(&self, k_log: int, k_skip: int, n: nat) -> bool {
        &&& 0 <= k_skip <= k_log
        &&& self.x_inner_rest@.len() == k_log - k_skip
        &&& self.r_inner_rest@.len() == k_log - k_skip
        &&& self.lambda@.len() == pow2(k_skip as nat)
        &&& self.z_partial@.len() == pow2(k_skip as nat)
        &&& self.alpha@.below(n)
        &&& self.z_skip@.below(n)
        &&& self.value@.below(n)
        &&& ext_below(ext_lins(self.lambda@), n)
        &&& ext_below(ext_lins(self.x_inner_rest@), n)
        &&& ext_below(ext_lins(self.r_inner_rest@), n)
        &&& ext_below(ext_lins(self.z_partial@), n)
    }
}

impl C1MatrixAccClaimTrace {
    pub open spec fn wf(&self, k_log: int, n: nat) -> bool {
        &&& self.point@.len() == 2 * k_log + 1
        &&& ext_below(ext_lins(self.point@), n)
        &&& self.value@.below(n)
    }

    /// Fresh wires of a claim.
    pub fn allocate(b: &mut FieldR1csBuilder, point: &Vec<F256>, value: F256) -> (r:
        C1MatrixAccClaimTrace)
        requires
            old(b)@.wf(),
        ensures
            allocated(old(b)@, final(b)@, ext_values(point@.push(value), point@.len() + 1)),
            ext_lins(r.point@) == ext_wires(old(b)@.rows.len() as int, point@.len()),
            r.value@ == ext_wire(old(b)@.rows.len() as int + 2 * point@.len()),
            r.point@.len() == point@.len(),
            ext_below(ext_lins(r.point@), final(b)@.rows.len()),
            r.value@.below(final(b)@.rows.len()),
            ext_evals(ext_lins(r.point@), final(b)@.values) == point@,
            r.value@.eval(final(b)@.values) == value,
    {
        let ghost b0 = b@;
        let ghost all = point@.push(value);
        let mut wires: Vec<ExtExpr> = Vec::new();
        proof {
            lemma_allocated_none(b0);
        }
        while wires.len() < point.len()
            invariant
                wires@.len() <= point@.len(),
                all == point@.push(value),
                b@.wf(),
                allocated(b0, b@, ext_values(all, wires@.len())),
                b@.rows.len() == b0.rows.len() + 2 * wires@.len(),
                forall|i: int|
                    0 <= i < wires@.len() ==> (#[trigger] wires@[i])@ == ext_wire(
                        b0.rows.len() + 2 * i,
                    ),
                ext_below(ext_lins(wires@), b@.rows.len()),
                forall|i: int|
                    0 <= i < wires@.len() ==> (#[trigger] wires@[i])@.eval(b@.values)
                        == point@[i],
            decreases point@.len() - wires@.len(),
        {
            let i: usize = wires.len();
            let ghost c = b@;
            let ghost prior = wires@;
            let x = alloc_ext(b, point[i]);
            proof {
                lemma_ext_push(wires@, x, c.rows.len(), b@.rows.len());
                lemma_allocated(
                    b0,
                    c,
                    b@,
                    ext_values(all, i as nat),
                    ext_value(point@[i as int]),
                );
            }
            wires.push(x);
            proof {
                assert forall|k: int| 0 <= k < wires@.len() implies (#[trigger] wires@[k])@.eval(
                    b@.values,
                ) == point@[k] && wires@[k]@ == ext_wire(b0.rows.len() + 2 * k) by {
                    if k < i {
                        assert(wires@[k] == prior[k]);
                        lemma_ext_at(prior, c.rows.len(), k);
                        lemma_ext_stable(c, b@, prior[k]@);
                    }
                }
            }
        }
        let ghost c = b@;
        let last = alloc_ext(b, value);
        proof {
            lemma_allocated(b0, c, b@, ext_values(all, point@.len()), ext_value(value));
            assert(ext_lins(wires@) =~= ext_wires(b0.rows.len() as int, point@.len()));
            lemma_ext_grow(ext_lins(wires@), c.rows.len(), b@.rows.len());
            assert(ext_evals(ext_lins(wires@), b@.values) =~= point@) by {
                assert forall|k: int| 0 <= k < wires@.len() implies ext_evals(
                    ext_lins(wires@),
                    b@.values,
                )[k] == point@[k] by {
                    lemma_ext_at(wires@, c.rows.len(), k);
                    lemma_ext_stable(c, b@, wires@[k]@);
                    assert(wires@[k]@.eval(c.values) == point@[k]);
                }
            }
        }
        C1MatrixAccClaimTrace { point: wires, value: last }
    }
}

/// The two coordinates of an element.
pub open spec fn ext_value(x: F256) -> Seq<F128> {
    seq![x.lo, x.hi]
}

/// The coordinates of the first `n` elements.
pub open spec fn ext_values(s: Seq<F256>, n: nat) -> Seq<F128>
    decreases n,
{
    if n == 0 {
        Seq::empty()
    } else {
        ext_values(s, (n - 1) as nat) + ext_value(s[n - 1])
    }
}

/// Two consecutive wires.
pub open spec fn ext_wire(start: int) -> ExtLin {
    ExtLin { lo: Lin::wire(start as usize), hi: Lin::wire((start + 1) as usize) }
}

/// Consecutive wires of elements.
pub open spec fn ext_wires(start: int, n: nat) -> Seq<ExtLin> {
    Seq::new(n, |i: int| ext_wire(start + 2 * i))
}

/// The coordinates of the first `n` rounds.
pub open spec fn ext_round_values(rounds: Seq<[F256; 2]>, n: nat) -> Seq<F128>
    decreases n,
{
    if n == 0 {
        Seq::empty()
    } else {
        ext_round_values(rounds, (n - 1) as nat) + ext_value(rounds[n - 1]@[0]) + ext_value(
            rounds[n - 1]@[1],
        )
    }
}

/// Consecutive wires of rounds.
pub open spec fn ext_round_wires(start: int, n: nat) -> Seq<Seq<ExtLin>> {
    Seq::new(n, |i: int| ext_wires(start + 4 * i, 2))
}

proof fn lemma_ext_stable(before: Circuit, after: Circuit, x: ExtLin)
    requires
        after.grows(before),
        x.below(before.rows.len()),
    ensures
        x.eval(after.values) == x.eval(before.values),
{
    assert(x.lo.eval(after.values) == x.lo.eval(before.values));
    assert(x.hi.eval(after.values) == x.hi.eval(before.values));
}

fn alloc_ext(b: &mut FieldR1csBuilder, value: F256) -> (r: ExtExpr)
    requires
        old(b)@.wf(),
    ensures
        allocated(old(b)@, final(b)@, ext_value(value)),
        final(b)@.rows.len() == old(b)@.rows.len() + 2,
        r@ == ext_wire(old(b)@.rows.len() as int),
        r@.below(final(b)@.rows.len()),
        r@.eval(final(b)@.values) == value,
{
    broadcast use group_lin;

    let ghost b0 = b@;
    let lo = alloc_value(b, value.lo);
    let ghost c = b@;
    let hi = alloc_value(b, value.hi);
    proof {
        lemma_allocated(b0, c, b@, seq![value.lo], seq![value.hi]);
        assert(seq![value.lo] + seq![value.hi] =~= ext_value(value));
        assert(lo@.eval(b@.values) == lo@.eval(c.values));
    }
    ExtExpr { lo, hi }
}

fn alloc_rounds(b: &mut FieldR1csBuilder, rounds: &Vec<[F256; 2]>) -> (r: Vec<[ExtExpr; 2]>)
    requires
        old(b)@.wf(),
    ensures
        allocated(old(b)@, final(b)@, ext_round_values(rounds@, rounds@.len())),
        final(b)@.rows.len() == old(b)@.rows.len() + 4 * rounds@.len(),
        r@.len() == rounds@.len(),
        ext_pairs(r@) == ext_round_wires(old(b)@.rows.len() as int, rounds@.len()),
        ext_pairs_below(r@, final(b)@.rows.len()),
        forall|i: int|
            0 <= i < r@.len() ==> ext_evals(ext_lins((#[trigger] r@[i])@), final(b)@.values)
                == rounds@[i]@,
{
    let ghost b0 = b@;
    let mut r: Vec<[ExtExpr; 2]> = Vec::new();
    proof {
        lemma_allocated_none(b0);
    }
    while r.len() < rounds.len()
        invariant
            r@.len() <= rounds@.len(),
            b@.wf(),
            allocated(b0, b@, ext_round_values(rounds@, r@.len())),
            b@.rows.len() == b0.rows.len() + 4 * r@.len(),
            forall|i: int|
                0 <= i < r@.len() ==> ext_lins((#[trigger] r@[i])@) == ext_wires(
                    b0.rows.len() + 4 * i,
                    2,
                ),
            ext_pairs_below(r@, b@.rows.len()),
            forall|i: int|
                0 <= i < r@.len() ==> ext_evals(ext_lins((#[trigger] r@[i])@), b@.values)
                    == rounds@[i]@,
        decreases rounds@.len() - r@.len(),
    {
        let i: usize = r.len();
        let ghost c = b@;
        let ghost prior = r@;
        let x = alloc_ext(b, rounds[i][0]);
        let ghost c1 = b@;
        let y = alloc_ext(b, rounds[i][1]);
        let pair = [x, y];
        r.push(pair);
        proof {
            let v = rounds@[i as int]@;
            let before = ext_round_values(rounds@, i as nat);
            lemma_allocated(b0, c, c1, before, ext_value(v[0]));
            lemma_allocated(b0, c1, b@, before + ext_value(v[0]), ext_value(v[1]));
            lemma_ext_stable(c1, b@, x@);
            assert(ext_evals(ext_lins(pair@), b@.values) =~= v);
            assert(ext_lins(pair@) =~= ext_wires(b0.rows.len() + 4 * i, 2));
            lemma_ext_pairs_grow(prior, c.rows.len(), b@.rows.len());
            assert forall|k: int| 0 <= k < r@.len() implies ext_below(
                ext_lins((#[trigger] r@[k])@),
                b@.rows.len(),
            ) && ext_evals(ext_lins(r@[k]@), b@.values) == rounds@[k]@ && ext_lins(r@[k]@)
                == ext_wires(b0.rows.len() + 4 * k, 2) by {
                if k < i {
                    assert(r@[k] == prior[k]);
                    lemma_pair_stable(c, b@, prior[k]);
                } else {
                    assert(ext_lins(pair@)[0].below(b@.rows.len()));
                    assert(ext_lins(pair@)[1].below(b@.rows.len()));
                }
            }
        }
    }
    assert(ext_pairs(r@) =~= ext_round_wires(b0.rows.len() as int, rounds@.len()));
    r
}

proof fn lemma_pair_stable(
    before: Circuit,
    after: Circuit,
    pair: [ExtExpr; 2],
)
    requires
        after.grows(before),
        ext_below(ext_lins(pair@), before.rows.len()),
    ensures
        ext_evals(ext_lins(pair@), after.values) == ext_evals(ext_lins(pair@), before.values),
{
    let l = ext_lins(pair@);
    assert forall|i: int| 0 <= i < l.len() implies l[i].eval(after.values) == l[i].eval(
        before.values,
    ) by {
        assert(l[i].below(before.rows.len()));
        lemma_ext_stable(before, after, l[i]);
    }
    assert(ext_evals(l, after.values) =~= ext_evals(l, before.values));
}

impl C1MatrixFoldProofTrace {
    pub open spec fn wf(&self, k_log: int, n: nat) -> bool {
        &&& self.phase1_rounds@.len() == k_log + 1
        &&& self.phase2_rounds@.len() == k_log
        &&& ext_pairs_below(self.phase1_rounds@, n)
        &&& ext_pairs_below(self.phase2_rounds@, n)
        &&& self.g_v@.below(n)
        &&& self.g_e@.below(n)
        &&& self.final_matrix_eval@.below(n)
    }

    /// Fresh wires of a proof.
    pub fn allocate(
        b: &mut FieldR1csBuilder,
        phase1_rounds: &Vec<[F256; 2]>,
        g_v: F256,
        g_e: F256,
        phase2_rounds: &Vec<[F256; 2]>,
        final_matrix_eval: F256,
        k_log: usize,
    ) -> (r: C1MatrixFoldProofTrace)
        requires
            old(b)@.wf(),
            phase1_rounds@.len() == k_log + 1,
            phase2_rounds@.len() == k_log,
        ensures
            allocated(
                old(b)@,
                final(b)@,
                ext_round_values(phase1_rounds@, phase1_rounds@.len()) + ext_value(g_v)
                    + ext_value(g_e) + ext_round_values(phase2_rounds@, phase2_rounds@.len())
                    + ext_value(final_matrix_eval),
            ),
            ({
                let start = old(b)@.rows.len() as int;
                let at = start + 4 * (k_log + 1);
                &&& ext_pairs(r.phase1_rounds@) == ext_round_wires(start, (k_log + 1) as nat)
                &&& r.g_v@ == ext_wire(at)
                &&& r.g_e@ == ext_wire(at + 2)
                &&& ext_pairs(r.phase2_rounds@) == ext_round_wires(at + 4, k_log as nat)
                &&& r.final_matrix_eval@ == ext_wire(at + 4 + 4 * k_log)
            }),
            r.wf(k_log as int, final(b)@.rows.len()),
            r.g_v@.eval(final(b)@.values) == g_v,
            r.g_e@.eval(final(b)@.values) == g_e,
            r.final_matrix_eval@.eval(final(b)@.values) == final_matrix_eval,
            forall|i: int|
                0 <= i < k_log + 1 ==> ext_evals(
                    ext_lins((#[trigger] r.phase1_rounds@[i])@),
                    final(b)@.values,
                ) == phase1_rounds@[i]@,
            forall|i: int|
                0 <= i < k_log ==> ext_evals(
                    ext_lins((#[trigger] r.phase2_rounds@[i])@),
                    final(b)@.values,
                ) == phase2_rounds@[i]@,
    {
        let ghost b0 = b@;
        let first = alloc_rounds(b, phase1_rounds);
        let ghost b1 = b@;
        let v = alloc_ext(b, g_v);
        let ghost b2 = b@;
        let w = alloc_ext(b, g_e);
        let ghost b3 = b@;
        let second = alloc_rounds(b, phase2_rounds);
        let ghost b4 = b@;
        let end = alloc_ext(b, final_matrix_eval);
        proof {
            let v1 = ext_round_values(phase1_rounds@, phase1_rounds@.len());
            let v2 = v1 + ext_value(g_v);
            let v3 = v2 + ext_value(g_e);
            let more = ext_round_values(phase2_rounds@, phase2_rounds@.len());
            lemma_allocated(b0, b1, b2, v1, ext_value(g_v));
            lemma_allocated(b0, b2, b3, v2, ext_value(g_e));
            lemma_allocated(b0, b3, b4, v3, more);
            lemma_allocated(b0, b4, b@, v3 + more, ext_value(final_matrix_eval));
            assert(b@.grows(b1) && b@.grows(b2) && b@.grows(b3) && b@.grows(b4));
            lemma_ext_pairs_grow(first@, b1.rows.len(), b@.rows.len());
            lemma_ext_pairs_grow(second@, b4.rows.len(), b@.rows.len());
            lemma_ext_stable(b2, b@, v@);
            lemma_ext_stable(b3, b@, w@);
            assert forall|i: int| 0 <= i < k_log + 1 implies ext_evals(
                ext_lins((#[trigger] first@[i])@),
                b@.values,
            ) == phase1_rounds@[i]@ by {
                assert(ext_below(ext_lins(first@[i]@), b1.rows.len()));
                lemma_pair_stable(b1, b@, first@[i]);
            }
            assert forall|i: int| 0 <= i < k_log implies ext_evals(
                ext_lins((#[trigger] second@[i])@),
                b@.values,
            ) == phase2_rounds@[i]@ by {
                assert(ext_below(ext_lins(second@[i]@), b4.rows.len()));
                lemma_pair_stable(b4, b@, second@[i]);
            }
        }
        C1MatrixFoldProofTrace {
            phase1_rounds: first,
            g_v: v,
            g_e: w,
            phase2_rounds: second,
            final_matrix_eval: end,
        }
    }
}

proof fn lemma_c1_grow(
    fresh: &C1FreshLincheckClaimTrace,
    incoming: &C1MatrixAccClaimTrace,
    proof: &C1MatrixFoldProofTrace,
    k_log: int,
    k_skip: int,
    m: nat,
    n: nat,
)
    requires
        fresh.wf(k_log, k_skip, m),
        incoming.wf(k_log, m),
        proof.wf(k_log, m),
        m <= n,
    ensures
        fresh.wf(k_log, k_skip, n),
        incoming.wf(k_log, n),
        proof.wf(k_log, n),
{
    lemma_ext_grow(ext_lins(fresh.lambda@), m, n);
    lemma_ext_grow(ext_lins(fresh.x_inner_rest@), m, n);
    lemma_ext_grow(ext_lins(fresh.r_inner_rest@), m, n);
    lemma_ext_grow(ext_lins(fresh.z_partial@), m, n);
    lemma_ext_grow(ext_lins(incoming.point@), m, n);
    lemma_ext_pairs_grow(proof.phase1_rounds@, m, n);
    lemma_ext_pairs_grow(proof.phase2_rounds@, m, n);
}

/// The rows of what the first sumcheck ends on.
#[verifier::opaque]
pub open spec fn c1_rows_end_rows(
    c: Seq<Row>,
    e: Extension,
    f: C1FoldLins,
    k_log: int,
    k_skip: int,
    gg: ExtLin,
    rho: Seq<ExtLin>,
) -> (Seq<Row>, ExtLin) {
    let (c1, lam) = ext_mle_rows(c, e, f.lambda, rho.subrange(0, k_skip));
    let (c2, rest) = ext_equality_rows(
        c1,
        e,
        f.x_rest,
        rho.subrange(k_skip, k_log),
        (k_log - k_skip) as nat,
    );
    let (c3, m) = ext_mul_rows(c2, e, rho[k_log], f.alpha.plus(ExtLin::one()));
    let (c4, low_rest) = ext_mul_rows(c3, e, lam, rest);
    let (c5, weight) = ext_mul_rows(c4, e, low_rest, f.alpha.plus(m));
    let (c6, ein) = ext_equality_rows(
        c5,
        e,
        f.in_point.subrange(0, k_log + 1),
        rho,
        (k_log + 1) as nat,
    );
    let (c7, t1) = ext_mul_rows(c6, e, weight, f.g_v);
    let (c8, t2) = ext_mul_rows(c7, e, gg, ein);
    let (c9, t3) = ext_mul_rows(c8, e, t2, f.g_e);
    (c9, t1.plus(t3))
}

/// The rows of what the second sumcheck ends on.
#[verifier::opaque]
pub open spec fn c1_columns_end_rows(
    c: Seq<Row>,
    e: Extension,
    f: C1FoldLins,
    k_log: int,
    k_skip: int,
    dg: ExtLin,
    sigma: Seq<ExtLin>,
) -> (Seq<Row>, ExtLin) {
    let (c1, zp) = ext_mle_rows(c, e, f.z_partial, sigma.subrange(0, k_skip));
    let (c2, rest) = ext_equality_rows(
        c1,
        e,
        f.r_rest,
        sigma.subrange(k_skip, k_log),
        (k_log - k_skip) as nat,
    );
    let (c3, w) = ext_mul_rows(c2, e, zp, rest);
    let (c4, ec) = ext_equality_rows(
        c3,
        e,
        f.in_point.subrange(k_log + 1, 2 * k_log + 1),
        sigma,
        k_log as nat,
    );
    let (c5, dec) = ext_mul_rows(c4, e, dg, ec);
    ext_mul_rows(c5, e, w.plus(dec), f.end)
}

/// The rows that bind two expressions to be equal.
pub open spec fn ext_equal_rows(c: Seq<Row>, x: ExtLin, y: ExtLin) -> Seq<Row> {
    pin_rows(pin_rows(c, x.lo.plus(y.lo)), x.hi.plus(y.hi))
}

/// A fold: its rows and its challenges.
pub struct C1FoldRun {
    pub rows: Seq<Row>,
    pub gamma: ExtLin,
    pub rho: Seq<ExtLin>,
    pub delta: ExtLin,
    pub sigma: Seq<ExtLin>,
}

/// The run of a fold. It depends on wires and sizes alone.
#[verifier::opaque]
pub open spec fn c1_fold_run(
    c: Seq<Row>,
    e: Extension,
    f: C1FoldLins,
    k_log: int,
    k_skip: int,
) -> C1FoldRun {
    let (c1, gamma) = ext_challenge_rows(c);
    let (c2, gg) = ext_scaled_rows(c1, gamma, f.gate);
    let (c3, ggw) = ext_mul_rows(c2, e, gg, f.in_value);
    let first = c1_rounds_run(c3, e, f.first, f.value.plus(ggw), f.first.len());
    let (c5, end) = c1_rows_end_rows(first.rows, e, f, k_log, k_skip, gg, first.challenges);
    let (c7, delta) = ext_challenge_rows(ext_equal_rows(c5, end, first.claim));
    let (c8, dg) = ext_scaled_rows(c7, delta, f.gate);
    let (c9, dgw) = ext_mul_rows(c8, e, dg, f.g_e);
    let second = c1_rounds_run(c9, e, f.second, f.g_v.plus(dgw), f.second.len());
    let (c11, last) = c1_columns_end_rows(
        second.rows,
        e,
        f,
        k_log,
        k_skip,
        dg,
        second.challenges,
    );
    C1FoldRun {
        rows: ext_equal_rows(c11, last, second.claim),
        gamma,
        rho: first.challenges,
        delta,
        sigma: second.challenges,
    }
}

/// What the first sumcheck ends on.
#[verifier::rlimit(60)]
fn c1_rows_terminal(
    b: &mut FieldR1csBuilder,
    e: &Extension,
    k_log: usize,
    k_skip: usize,
    fresh: &C1FreshLincheckClaimTrace,
    incoming: &C1MatrixAccClaimTrace,
    proof: &C1MatrixFoldProofTrace,
    gg: &ExtExpr,
    rho: &Vec<ExtExpr>,
    Ghost(gate): Ghost<Lin>,
) -> (r: ExtExpr)
    requires
        old(b)@.wf(),
        2 * k_log + 1 <= usize::MAX,
        fresh.wf(k_log as int, k_skip as int, old(b)@.rows.len()),
        incoming.wf(k_log as int, old(b)@.rows.len()),
        proof.wf(k_log as int, old(b)@.rows.len()),
        gg@.below(old(b)@.rows.len()),
        rho@.len() == k_log + 1,
        ext_below(ext_lins(rho@), old(b)@.rows.len()),
    ensures
        computed(old(b)@, final(b)@),
        r@.below(final(b)@.rows.len()),
        (final(b)@.rows, r@) == c1_rows_end_rows(
            old(b)@.rows,
            *e,
            c1_fold_lins(fresh, incoming, gate, proof),
            k_log as int,
            k_skip as int,
            gg@,
            ext_lins(rho@),
        ),
        forall|z: Seq<F128>| #[trigger]
            holds_past(final(b)@.rows, old(b)@.rows.len(), z) ==> r@.eval(z) == c1_rows_end(
                *e,
                c1_fold_lins(fresh, incoming, gate, proof).at(z),
                k_log as int,
                k_skip as int,
                gg@.eval(z),
                ext_evals(ext_lins(rho@), z),
            ),
{
    broadcast use group_lin;

    proof {
        reveal(c1_rows_end);
    }
    let ghost b0 = b@;
    let ghost n = b0.rows.len();
    let ghost rl = ext_lins(rho@);
    let ghost (kl, ks) = (k_log as int, k_skip as int);
    let one = ExtExpr::one();
    let low = ext_slice(rho, 0, k_skip, Ghost(n));
    let high = ext_slice(rho, k_skip, k_log, Ghost(n));
    let lam = evaluate_slice_ext_trace(b, e, &fresh.lambda, &low);
    let ghost b1 = b@;
    proof {
        lemma_ext_grow(ext_lins(fresh.x_inner_rest@), n, b1.rows.len());
        lemma_ext_grow(ext_lins(high@), n, b1.rows.len());
        lemma_ext_at(rho@, n, kl);
    }
    let rest = eq_points_c1_trace(b, e, &fresh.x_inner_rest, &high);
    let ghost b2 = b@;
    let shifted = fresh.alpha.add(&one);
    let m = mul_ext(b, e, &rho[k_log], &shifted);
    let ghost b3 = b@;
    let stack = fresh.alpha.add(&m);
    let low_rest = mul_ext(b, e, &lam, &rest);
    let ghost b4 = b@;
    let weight = mul_ext(b, e, &low_rest, &stack);
    let ghost b5 = b@;
    let row = ext_slice(&incoming.point, 0, k_log + 1, Ghost(n));
    proof {
        lemma_ext_grow(ext_lins(row@), n, b5.rows.len());
        lemma_ext_grow(rl, n, b5.rows.len());
    }
    let ein = eq_points_c1_trace(b, e, &row, rho);
    let ghost b6 = b@;
    let t1 = mul_ext(b, e, &weight, &proof.g_v);
    let ghost b7 = b@;
    let t2 = mul_ext(b, e, gg, &ein);
    let ghost b8 = b@;
    let t3 = mul_ext(b, e, &t2, &proof.g_e);
    let r = t1.add(&t3);
    proof {
        assert((b@.rows, r@) == c1_rows_end_rows(
            b0.rows,
            *e,
            c1_fold_lins(fresh, incoming, gate, proof),
            kl,
            ks,
            gg@,
            rl,
        )) by {
            reveal(c1_rows_end_rows);
        }
        let rows = b@.rows;
        let f = c1_fold_lins(fresh, incoming, gate, proof);
        assert forall|z: Seq<F128>| #[trigger] holds_past(rows, n, z) implies r@.eval(z)
            == c1_rows_end(*e, f.at(z), kl, ks, gg@.eval(z), ext_evals(rl, z)) by {
            lemma_past_split(rows, b8.rows, n, z);
            lemma_past_split(b8.rows, b7.rows, n, z);
            lemma_past_split(b7.rows, b6.rows, n, z);
            lemma_past_split(b6.rows, b5.rows, n, z);
            lemma_past_split(b5.rows, b4.rows, n, z);
            lemma_past_split(b4.rows, b3.rows, n, z);
            lemma_past_split(b3.rows, b2.rows, n, z);
            lemma_past_split(b2.rows, b1.rows, n, z);
            lemma_ext_mul_past(b2.rows, *e, rho@[kl]@, shifted@, z);
            lemma_ext_mul_past(b3.rows, *e, lam@, rest@, z);
            lemma_ext_mul_past(b4.rows, *e, low_rest@, stack@, z);
            lemma_ext_mul_past(b6.rows, *e, weight@, proof.g_v@, z);
            lemma_ext_mul_past(b7.rows, *e, gg@, ein@, z);
            lemma_ext_mul_past(b8.rows, *e, t2@, proof.g_e@, z);
            let v = f.at(z);
            let rv = ext_evals(rl, z);
            assert(ext_evals(ext_lins(low@), z) =~= rv.subrange(0, ks));
            assert(ext_evals(ext_lins(high@), z) =~= rv.subrange(ks, kl));
            assert(ext_evals(ext_lins(row@), z) =~= v.in_point.subrange(0, kl + 1));
            assert(rv[kl] == rho@[kl]@.eval(z));
            assert(shifted@.eval(z) == v.alpha.plus(F256::spec_one()));
            assert(stack@.eval(z) == v.alpha.plus(m@.eval(z)));
            assert(r@.eval(z) == t1@.eval(z).plus(t3@.eval(z)));
        }
    }
    r
}

/// What the second sumcheck ends on.
#[verifier::rlimit(60)]
fn c1_columns_terminal(
    b: &mut FieldR1csBuilder,
    e: &Extension,
    k_log: usize,
    k_skip: usize,
    fresh: &C1FreshLincheckClaimTrace,
    incoming: &C1MatrixAccClaimTrace,
    proof: &C1MatrixFoldProofTrace,
    dg: &ExtExpr,
    sigma: &Vec<ExtExpr>,
    Ghost(gate): Ghost<Lin>,
) -> (r: ExtExpr)
    requires
        old(b)@.wf(),
        2 * k_log + 1 <= usize::MAX,
        fresh.wf(k_log as int, k_skip as int, old(b)@.rows.len()),
        incoming.wf(k_log as int, old(b)@.rows.len()),
        proof.wf(k_log as int, old(b)@.rows.len()),
        dg@.below(old(b)@.rows.len()),
        sigma@.len() == k_log,
        ext_below(ext_lins(sigma@), old(b)@.rows.len()),
    ensures
        computed(old(b)@, final(b)@),
        r@.below(final(b)@.rows.len()),
        (final(b)@.rows, r@) == c1_columns_end_rows(
            old(b)@.rows,
            *e,
            c1_fold_lins(fresh, incoming, gate, proof),
            k_log as int,
            k_skip as int,
            dg@,
            ext_lins(sigma@),
        ),
        forall|z: Seq<F128>| #[trigger]
            holds_past(final(b)@.rows, old(b)@.rows.len(), z) ==> r@.eval(z) == c1_columns_end(
                *e,
                c1_fold_lins(fresh, incoming, gate, proof).at(z),
                k_log as int,
                k_skip as int,
                dg@.eval(z),
                ext_evals(ext_lins(sigma@), z),
            ),
{
    broadcast use group_lin;

    proof {
        reveal(c1_columns_end);
    }
    let ghost b0 = b@;
    let ghost n = b0.rows.len();
    let ghost sl = ext_lins(sigma@);
    let ghost (kl, ks) = (k_log as int, k_skip as int);
    let low = ext_slice(sigma, 0, k_skip, Ghost(n));
    let high = ext_slice(sigma, k_skip, k_log, Ghost(n));
    let zp = evaluate_slice_ext_trace(b, e, &fresh.z_partial, &low);
    let ghost b1 = b@;
    proof {
        lemma_ext_grow(ext_lins(fresh.r_inner_rest@), n, b1.rows.len());
        lemma_ext_grow(ext_lins(high@), n, b1.rows.len());
    }
    let rest = eq_points_c1_trace(b, e, &fresh.r_inner_rest, &high);
    let ghost b2 = b@;
    let w = mul_ext(b, e, &zp, &rest);
    let ghost b3 = b@;
    let column = ext_slice(&incoming.point, k_log + 1, 2 * k_log + 1, Ghost(n));
    proof {
        lemma_ext_grow(ext_lins(column@), n, b3.rows.len());
        lemma_ext_grow(sl, n, b3.rows.len());
    }
    let ec = eq_points_c1_trace(b, e, &column, sigma);
    let ghost b4 = b@;
    let dec = mul_ext(b, e, dg, &ec);
    let ghost b5 = b@;
    let weight = w.add(&dec);
    let r = mul_ext(b, e, &weight, &proof.final_matrix_eval);
    proof {
        assert((b@.rows, r@) == c1_columns_end_rows(
            b0.rows,
            *e,
            c1_fold_lins(fresh, incoming, gate, proof),
            kl,
            ks,
            dg@,
            sl,
        )) by {
            reveal(c1_columns_end_rows);
        }
        let rows = b@.rows;
        let f = c1_fold_lins(fresh, incoming, gate, proof);
        assert forall|z: Seq<F128>| #[trigger] holds_past(rows, n, z) implies r@.eval(z)
            == c1_columns_end(*e, f.at(z), kl, ks, dg@.eval(z), ext_evals(sl, z)) by {
            lemma_past_split(rows, b5.rows, n, z);
            lemma_past_split(b5.rows, b4.rows, n, z);
            lemma_past_split(b4.rows, b3.rows, n, z);
            lemma_past_split(b3.rows, b2.rows, n, z);
            lemma_past_split(b2.rows, b1.rows, n, z);
            lemma_ext_mul_past(b2.rows, *e, zp@, rest@, z);
            lemma_ext_mul_past(b4.rows, *e, dg@, ec@, z);
            lemma_ext_mul_past(b5.rows, *e, weight@, proof.final_matrix_eval@, z);
            let v = f.at(z);
            let sv = ext_evals(sl, z);
            assert(ext_evals(ext_lins(low@), z) =~= sv.subrange(0, ks));
            assert(ext_evals(ext_lins(high@), z) =~= sv.subrange(ks, kl));
            assert(ext_evals(ext_lins(column@), z) =~= v.in_point.subrange(
                kl + 1,
                2 * kl + 1,
            ));
            assert(weight@.eval(z) == w@.eval(z).plus(dec@.eval(z)));
        }
    }
    r
}

/// The operations of a fold.
pub open spec fn c1_fold_ops(
    label: Seq<F128>,
    fresh: &C1FreshLincheckClaimTrace,
    incoming: &C1MatrixAccClaimTrace,
    f: C1FoldLins,
    run: C1FoldRun,
) -> Seq<Op> {
    c1_header(label, fresh, incoming, f.gate) + ext_squeeze(run.gamma) + ext_round_ops(
        f.first,
        run.rho,
        run.rho.len(),
    ) + ext_absorb(f.g_v) + ext_absorb(f.g_e) + ext_squeeze(run.delta) + ext_round_ops(
        f.second,
        run.sigma,
        run.sigma.len(),
    ) + ext_absorb(f.end)
}

/// What a fold absorbs first.
pub open spec fn c1_header(
    label: Seq<F128>,
    fresh: &C1FreshLincheckClaimTrace,
    incoming: &C1MatrixAccClaimTrace,
    gate: Lin,
) -> Seq<Op> {
    let list = |s: Seq<ExtLin>| ext_absorbs(s, s.len());
    Seq::new(label.len(), |i: int| Op::Absorb(Lin::constant(label[i]))) + ext_absorb(fresh.alpha@)
        + ext_absorb(fresh.z_skip@) + list(ext_lins(fresh.x_inner_rest@)) + list(
        ext_lins(fresh.r_inner_rest@),
    ) + list(ext_lins(fresh.z_partial@)) + ext_absorb(fresh.value@) + list(
        ext_lins(incoming.point@),
    ) + ext_absorb(incoming.value@) + ext_absorb(ExtLin { lo: gate, hi: Lin::zero() })
}

fn absorb_c1_header(
    ch: &mut RawChannelTrace,
    label: &Vec<F128>,
    fresh: &C1FreshLincheckClaimTrace,
    incoming: &C1MatrixAccClaimTrace,
    gate: &LinExpr,
)
    ensures
        final(ch)@ == old(ch)@ + c1_header(label@, fresh, incoming, gate@),
        final(ch).challenges == old(ch).challenges,
        final(ch).squeezed == old(ch).squeezed,
{
    let ghost o = ch@;
    let ghost head = Seq::new(label@.len(), |i: int| Op::Absorb(Lin::constant(label@[i])));
    let mut i: usize = 0;
    assert(ch@ =~= o + head.take(0));
    while i < label.len()
        invariant
            i <= label@.len(),
            head == Seq::new(label@.len(), |i: int| Op::Absorb(Lin::constant(label@[i]))),
            ch@ == o + head.take(i as int),
            ch.challenges == old(ch).challenges,
            ch.squeezed == old(ch).squeezed,
        decreases label@.len() - i,
    {
        let lane = LinExpr::constant(label[i]);
        ch.absorb(&lane);
        assert(ch@ =~= o + head.take(i + 1));
        i += 1;
    }
    observe(ch, &fresh.alpha);
    observe(ch, &fresh.z_skip);
    observe_all(ch, &fresh.x_inner_rest);
    observe_all(ch, &fresh.r_inner_rest);
    observe_all(ch, &fresh.z_partial);
    observe(ch, &fresh.value);
    observe_all(ch, &incoming.point);
    observe(ch, &incoming.value);
    let gate_ext = ExtExpr { lo: gate.dup(), hi: LinExpr::zero() };
    observe(ch, &gate_ext);
    proof {
        assert(head.take(head.len() as int) =~= head);
        assert(ch@ =~= o + c1_header(label@, fresh, incoming, gate@));
    }
}

/// Both sumchecks of a fold under given values.
pub open spec fn c1_fold_checked(
    e: Extension,
    f: C1FoldLins,
    k_log: int,
    k_skip: int,
    run: C1FoldRun,
    z: Seq<F128>,
) -> bool {
    c1_fold_checks(
        e,
        f.at(z),
        k_log,
        k_skip,
        run.gamma.eval(z),
        ext_evals(run.rho, z),
        run.delta.eval(z),
        ext_evals(run.sigma, z),
    )
}

/// A fold accepts the values and challenges `draws`, in the order in which they
/// come: both sumchecks hold.
pub open spec fn c1_fold_accepts(
    e: Extension,
    v: C1FoldValues,
    k_log: int,
    k_skip: int,
    draws: Seq<F256>,
) -> bool {
    c1_fold_checks(
        e,
        v,
        k_log,
        k_skip,
        draws[0],
        draws.subrange(1, k_log + 2),
        draws[k_log + 2],
        draws.subrange(k_log + 3, 2 * k_log + 3),
    )
}

/// The point of an accepted fold: the challenges of both sumchecks.
pub open spec fn c1_folded_point(k_log: int, draws: Seq<F256>) -> Seq<F256> {
    draws.subrange(1, k_log + 2) + draws.subrange(k_log + 3, 2 * k_log + 3)
}

/// Folds a fresh claim and a gated incoming one into one claim, with challenges
/// in the extension. The rows are those of the run. The circuit goes in step with
/// the check of the same values under the challenges that the channel gives: its
/// own values satisfy it exactly where that check accepts, and the folded claim is
/// that check's point with the matrix value of the proof. The weights `lambda` are
/// taken as they come: nothing here ties them to `z_skip`.
#[verifier::rlimit(100)]
pub fn verify_matrix_claim_fold_c1_trace(
    b: &mut FieldR1csBuilder,
    channel: &mut RawChannelTrace,
    label: &Vec<F128>,
    e: &Extension,
    k_log: usize,
    k_skip: usize,
    fresh: &C1FreshLincheckClaimTrace,
    incoming: &C1MatrixAccClaimTrace,
    gate: &LinExpr,
    proof: &C1MatrixFoldProofTrace,
) -> (r: C1MatrixAccClaimTrace)
    requires
        old(b)@.wf(),
        2 * k_log + 1 <= usize::MAX,
        fresh.wf(k_log as int, k_skip as int, old(b)@.rows.len()),
        incoming.wf(k_log as int, old(b)@.rows.len()),
        proof.wf(k_log as int, old(b)@.rows.len()),
        gate@.below(old(b)@.rows.len()),
    ensures
        ({
            let (kl, ks) = (k_log as int, k_skip as int);
            let f = c1_fold_lins(fresh, incoming, gate@, proof);
            let run = c1_fold_run(old(b)@.rows, *e, f, kl, ks);
            let draws = ext_draws(*old(channel), fold_draws(kl));
            &&& final(b)@.rows == run.rows
            &&& final(channel)@ == old(channel)@ + c1_fold_ops(label@, fresh, incoming, f, run)
            &&& final(channel).after(old(channel), 2 * fold_draws(kl))
            &&& ext_lins(r.point@) == run.rho + run.sigma
            &&& enforces(
                old(b)@,
                final(b)@,
                |z: Seq<F128>| c1_fold_checked(*e, f, kl, ks, run, z),
            )
            &&& final(b)@.honest() <==> old(b)@.honest() && c1_fold_accepts(
                *e,
                f.at(old(b)@.values),
                kl,
                ks,
                draws,
            )
            &&& ext_evals(ext_lins(r.point@), final(b)@.values) == c1_folded_point(kl, draws)
        }),
        r.value@ == proof.final_matrix_eval@,
        r.wf(k_log as int, final(b)@.rows.len()),
{
    broadcast use group_lin;

    let ghost b0 = b@;
    let ghost n = b0.rows.len();
    let ghost o = channel@;
    let ghost ch0 = *channel;
    let ghost (kl, ks) = (k_log as int, k_skip as int);
    let ghost f = c1_fold_lins(fresh, incoming, gate@, proof);
    absorb_c1_header(channel, label, fresh, incoming, gate);
    let ghost ch1 = *channel;
    let gamma = sample_ext(b, channel);
    let ghost ch2 = *channel;
    let ghost b1 = b@;
    let gg = mul_ext_base(b, &gamma, gate);
    let ghost b2 = b@;
    let ggw = mul_ext(b, e, &gg, &incoming.value);
    let ghost b3 = b@;
    let start = fresh.value.add(&ggw);
    proof {
        lemma_c1_grow(fresh, incoming, proof, kl, ks, n, b3.rows.len());
    }
    let (claim, rho) = compressed_rounds_c1(b, channel, e, &proof.phase1_rounds, &start);
    let ghost ch3 = *channel;
    let ghost b4 = b@;
    proof {
        lemma_c1_grow(fresh, incoming, proof, kl, ks, n, b4.rows.len());
    }
    let first = c1_rows_terminal(
        b,
        e,
        k_log,
        k_skip,
        fresh,
        incoming,
        proof,
        &gg,
        &rho,
        Ghost(gate@),
    );
    let ghost b5 = b@;
    proof {
        lemma_pinned_none(b0, b5);
        lemma_binds_none(b5.rows);
    }
    let ghost none = Seq::<Lin>::empty();
    pin_equal(b, &first.lo, &claim.lo, Ghost(b0), Ghost(none));
    let ghost p1 = none.push(first@.lo.plus(claim@.lo));
    pin_equal(b, &first.hi, &claim.hi, Ghost(b0), Ghost(p1));
    let ghost p2 = p1.push(first@.hi.plus(claim@.hi));
    let ghost b6 = b@;
    observe(channel, &proof.g_v);
    observe(channel, &proof.g_e);
    let ghost ch4 = *channel;
    let delta = sample_ext(b, channel);
    let ghost ch5 = *channel;
    let ghost b7 = b@;
    let dg = mul_ext_base(b, &delta, gate);
    let ghost b8 = b@;
    let dgw = mul_ext(b, e, &dg, &proof.g_e);
    let ghost b9 = b@;
    let start2 = proof.g_v.add(&dgw);
    proof {
        assert(b9.grows(b0));
        lemma_c1_grow(fresh, incoming, proof, kl, ks, n, b9.rows.len());
    }
    let (claim2, sigma) = compressed_rounds_c1(b, channel, e, &proof.phase2_rounds, &start2);
    let ghost ch6 = *channel;
    let ghost b10 = b@;
    proof {
        lemma_c1_grow(fresh, incoming, proof, kl, ks, n, b10.rows.len());
    }
    let second = c1_columns_terminal(
        b,
        e,
        k_log,
        k_skip,
        fresh,
        incoming,
        proof,
        &dg,
        &sigma,
        Ghost(gate@),
    );
    let ghost b11 = b@;
    proof {
        assert(computed(b6, b11));
        lemma_pinned_computed(b0, b6, b11, p2);
        lemma_binds_grow(b6.rows, b11.rows, p2);
    }
    pin_equal(b, &second.lo, &claim2.lo, Ghost(b0), Ghost(p2));
    let ghost p3 = p2.push(second@.lo.plus(claim2@.lo));
    pin_equal(b, &second.hi, &claim2.hi, Ghost(b0), Ghost(p3));
    let ghost p4 = p3.push(second@.hi.plus(claim2@.hi));
    observe(channel, &proof.final_matrix_eval);
    let ghost (rl, sl) = (ext_lins(rho@), ext_lins(sigma@));
    let mut point = rho;
    let mut tail = sigma;
    point.append(&mut tail);
    let ghost pl = ext_lins(point@);
    let ghost run = c1_fold_run(b0.rows, *e, f, kl, ks);
    proof {
        assert(pl =~= rl + sl);
        let end = b@.rows;
        lemma_ext_grow(rl, b4.rows.len(), end.len());
        lemma_ext_grow(sl, b10.rows.len(), end.len());
        assert(b@.grows(b1) && b@.grows(b4) && b@.grows(b7) && b@.grows(b10));
        assert forall|i: int| 0 <= i < pl.len() implies (#[trigger] pl[i]).below(end.len()) by {
            if i < rl.len() {
                assert(pl[i] == rl[i]);
            } else {
                assert(pl[i] == sl[i - rl.len()]);
            }
        }
        assert(end == run.rows && gamma@ == run.gamma && rl == run.rho && delta@ == run.delta
            && sl == run.sigma) by {
            reveal(c1_fold_run);
        }
        assert(channel@ =~= o + c1_fold_ops(label@, fresh, incoming, f, run));
        let g = |z: Seq<F128>| c1_fold_checked(*e, f, kl, ks, run, z);
        assert forall|z: Seq<F128>| #[trigger] holds_past(end, n, z) implies (all_zero(p4, z)
            <==> g(z)) by {
            lemma_past_split(end, b11.rows, n, z);
            lemma_past_split(b11.rows, b10.rows, n, z);
            lemma_past_split(b10.rows, b9.rows, n, z);
            lemma_past_split(b9.rows, b8.rows, n, z);
            lemma_past_split(b8.rows, b7.rows, n, z);
            lemma_past_split(b7.rows, b6.rows, n, z);
            lemma_past_split(b6.rows, b5.rows, n, z);
            lemma_past_split(b5.rows, b4.rows, n, z);
            lemma_past_split(b4.rows, b3.rows, n, z);
            lemma_past_split(b3.rows, b2.rows, n, z);
            lemma_past_split(b2.rows, b1.rows, n, z);
            lemma_ext_mul_past(b2.rows, *e, gg@, incoming.value@, z);
            lemma_ext_mul_past(b8.rows, *e, dg@, proof.g_e@, z);
            lemma_equal_push(none, first@.lo, claim@.lo, z);
            lemma_equal_push(p1, first@.hi, claim@.hi, z);
            lemma_equal_push(p2, second@.lo, claim2@.lo, z);
            lemma_equal_push(p3, second@.hi, claim2@.hi, z);
            assert(start@.eval(z) == fresh.value@.eval(z).plus(ggw@.eval(z)));
            assert(start2@.eval(z) == proof.g_v@.eval(z).plus(dgw@.eval(z)));
        }
        lemma_enforces(b0, b@, p4, g);
        lemma_c1_draws(ch0, ch1, ch2, ch3, ch4, ch5, ch6, *channel, kl);
        let draws = ext_draws(ch0, fold_draws(kl));
        let z = b@.values;
        lemma_ext_stable(b1, b@, gamma@);
        lemma_ext_stable(b7, b@, delta@);
        lemma_exts_stable(b4, b@, rl);
        lemma_exts_stable(b10, b@, sl);
        assert(gamma@.eval(z) == draws[0]);
        assert(delta@.eval(z) == draws[kl + 2]);
        assert(ext_evals(pl, z) =~= ext_evals(rl, z) + ext_evals(sl, z));
        lemma_c1_stable(fresh, incoming, gate@, proof, kl, ks, b0, b@);
        assert(g(z) == c1_fold_accepts(*e, f.at(b0.values), kl, ks, draws));
    }
    let r = C1MatrixAccClaimTrace { point, value: proof.final_matrix_eval.dup() };
    assert(ext_lins(r.point@) == pl);
    r
}

/// The challenges of a fold, by the channels between them.
proof fn lemma_c1_draws(
    ch0: RawChannelTrace,
    ch1: RawChannelTrace,
    ch2: RawChannelTrace,
    ch3: RawChannelTrace,
    ch4: RawChannelTrace,
    ch5: RawChannelTrace,
    ch6: RawChannelTrace,
    ch7: RawChannelTrace,
    k_log: int,
)
    requires
        k_log >= 0,
        ch1.challenges == ch0.challenges,
        ch1.squeezed == ch0.squeezed,
        ch2.after(&ch1, 2),
        ch3.after(&ch2, (2 * (k_log + 1)) as nat),
        ch4.challenges == ch3.challenges,
        ch4.squeezed == ch3.squeezed,
        ch5.after(&ch4, 2),
        ch6.after(&ch5, (2 * k_log) as nat),
        ch7.challenges == ch6.challenges,
        ch7.squeezed == ch6.squeezed,
    ensures
        ({
            let draws = ext_draws(ch0, fold_draws(k_log));
            &&& ext_draws(ch1, 1)[0] == draws[0]
            &&& ext_draws(ch2, (k_log + 1) as nat) == draws.subrange(1, k_log + 2)
            &&& ext_draws(ch4, 1)[0] == draws[k_log + 2]
            &&& ext_draws(ch5, k_log as nat) == draws.subrange(k_log + 3, 2 * k_log + 3)
            &&& ch7.after(&ch0, 2 * fold_draws(k_log))
        }),
{
    let draws = ext_draws(ch0, fold_draws(k_log));
    assert(forall|j: nat| #[trigger] ch1.upcoming(j) == ch0.upcoming(j));
    assert(forall|j: nat| #[trigger] ch4.upcoming(j) == ch3.upcoming(j));
    assert(forall|j: nat| #[trigger] ch7.upcoming(j) == ch6.upcoming(j));
    assert forall|j: nat| #[trigger] ch2.upcoming(j) == ch0.upcoming(j + 2) by {
        assert(ch1.upcoming(j + 2) == ch0.upcoming(j + 2));
    }
    assert forall|j: nat| #[trigger] ch3.upcoming(j) == ch0.upcoming(
        (j + 2 * (k_log + 2)) as nat,
    ) by {
        assert(ch2.upcoming((j + 2 * (k_log + 1)) as nat) == ch0.upcoming(
            (j + 2 * (k_log + 1) + 2) as nat,
        ));
    }
    assert forall|j: nat| #[trigger] ch5.upcoming(j) == ch0.upcoming(
        (j + 2 * (k_log + 3)) as nat,
    ) by {
        assert(ch4.upcoming(j + 2) == ch3.upcoming(j + 2));
        assert(ch3.upcoming(j + 2) == ch0.upcoming((j + 2 + 2 * (k_log + 2)) as nat));
    }
    assert forall|j: nat| #[trigger] ch7.upcoming(j) == ch0.upcoming(
        j + 2 * fold_draws(k_log),
    ) by {
        assert(ch6.upcoming(j) == ch5.upcoming((j + 2 * k_log) as nat));
        assert(ch5.upcoming((j + 2 * k_log) as nat) == ch0.upcoming(
            (j + 2 * k_log + 2 * (k_log + 3)) as nat,
        ));
    }
    assert(ch1.upcoming(0) == ch0.upcoming(0) && ch1.upcoming(1) == ch0.upcoming(1));
    assert(ch4.upcoming(0) == ch3.upcoming(0) && ch4.upcoming(1) == ch3.upcoming(1));
    assert(ch3.upcoming(0) == ch0.upcoming((2 * (k_log + 2)) as nat));
    assert(ch3.upcoming(1) == ch0.upcoming((1 + 2 * (k_log + 2)) as nat));
    let (first, rho) = (ext_draws(ch2, (k_log + 1) as nat), draws.subrange(1, k_log + 2));
    assert(first =~= rho) by {
        assert forall|i: int| 0 <= i < k_log + 1 implies first[i] == rho[i] by {
            assert(ch2.upcoming((2 * i) as nat) == ch0.upcoming((2 * i) as nat + 2));
            assert(ch2.upcoming((2 * i + 1) as nat) == ch0.upcoming((2 * i + 1) as nat + 2));
        }
    }
    let second = ext_draws(ch5, k_log as nat);
    let sigma = draws.subrange(k_log + 3, 2 * k_log + 3);
    assert(second =~= sigma) by {
        assert forall|i: int| 0 <= i < k_log implies second[i] == sigma[i] by {
            assert(ch5.upcoming((2 * i) as nat) == ch0.upcoming(
                (2 * i + 2 * (k_log + 3)) as nat,
            ));
            assert(ch5.upcoming((2 * i + 1) as nat) == ch0.upcoming(
                (2 * i + 1 + 2 * (k_log + 3)) as nat,
            ));
        }
    }
}

proof fn lemma_exts_stable(before: Circuit, after: Circuit, s: Seq<ExtLin>)
    requires
        after.grows(before),
        ext_below(s, before.rows.len()),
    ensures
        ext_evals(s, after.values) == ext_evals(s, before.values),
{
    assert forall|i: int| 0 <= i < s.len() implies s[i].eval(after.values) == s[i].eval(
        before.values,
    ) by {
        assert(s[i].below(before.rows.len()));
        lemma_ext_stable(before, after, s[i]);
    }
    assert(ext_evals(s, after.values) =~= ext_evals(s, before.values));
}

proof fn lemma_ext_pairs_stable(before: Circuit, after: Circuit, rounds: Seq<[ExtExpr; 2]>)
    requires
        after.grows(before),
        ext_pairs_below(rounds, before.rows.len()),
    ensures
        ext_pairs_at(ext_pairs(rounds), after.values) == ext_pairs_at(
            ext_pairs(rounds),
            before.values,
        ),
{
    let l = ext_pairs(rounds);
    assert forall|i: int| 0 <= i < l.len() implies ext_evals(l[i], after.values) == ext_evals(
        l[i],
        before.values,
    ) by {
        assert(ext_below(ext_lins(rounds[i]@), before.rows.len()));
        lemma_exts_stable(before, after, l[i]);
    }
    assert(ext_pairs_at(l, after.values) =~= ext_pairs_at(l, before.values));
}

/// The values of a fold do not change while a circuit grows.
proof fn lemma_c1_stable(
    fresh: &C1FreshLincheckClaimTrace,
    incoming: &C1MatrixAccClaimTrace,
    gate: Lin,
    proof: &C1MatrixFoldProofTrace,
    k_log: int,
    k_skip: int,
    before: Circuit,
    after: Circuit,
)
    requires
        after.grows(before),
        fresh.wf(k_log, k_skip, before.rows.len()),
        incoming.wf(k_log, before.rows.len()),
        proof.wf(k_log, before.rows.len()),
        gate.below(before.rows.len()),
    ensures
        c1_fold_lins(fresh, incoming, gate, proof).at(after.values) == c1_fold_lins(
            fresh,
            incoming,
            gate,
            proof,
        ).at(before.values),
{
    lemma_ext_stable(before, after, fresh.alpha@);
    lemma_ext_stable(before, after, fresh.value@);
    lemma_ext_stable(before, after, incoming.value@);
    lemma_ext_stable(before, after, proof.g_v@);
    lemma_ext_stable(before, after, proof.g_e@);
    lemma_ext_stable(before, after, proof.final_matrix_eval@);
    lemma_exts_stable(before, after, ext_lins(fresh.lambda@));
    lemma_exts_stable(before, after, ext_lins(fresh.x_inner_rest@));
    lemma_exts_stable(before, after, ext_lins(fresh.r_inner_rest@));
    lemma_exts_stable(before, after, ext_lins(fresh.z_partial@));
    lemma_exts_stable(before, after, ext_lins(incoming.point@));
    lemma_ext_pairs_stable(before, after, proof.phase1_rounds@);
    lemma_ext_pairs_stable(before, after, proof.phase2_rounds@);
}

} // verus!
