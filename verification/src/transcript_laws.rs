//! What the channel hears before it answers: no challenge of a proof is drawn before
//! the messages that it is to bind have been absorbed.

use vstd::prelude::*;
use crate::batch_eval::{
    absorb_claims, absorb_columns, alphas_tape, batch_run, columns_alphas, levels_of, linear_run,
    multi_run, rounds_tape, squeezes_tape, term_count,
};
use crate::block_spine::unified_run;
use crate::channel::{Op, Tape};
use crate::circuit::{lins, Lin};
use crate::extension::{ext_lins, ExtLin};
use crate::field::F128;
use crate::matrix_fold::{
    fold_ops, round_ops, FoldLins, FoldRun, FreshLincheckClaimTrace, MatrixAccClaimTrace,
};

use crate::matrix_fold_c1::{
    c1_fold_ops, c1_header, ext_absorb, ext_absorbs, ext_round_ops, ext_squeeze, C1FoldLins,
    C1FoldRun, C1FreshLincheckClaimTrace, C1MatrixAccClaimTrace,
};
use crate::round_poly::{absorbs, polys_tape};
use crate::spine_shift::shift_run;

verus! {

/// An expression is absorbed.
pub open spec fn absorbed_in(ops: Seq<Op>, x: Lin) -> bool {
    exists|i: int| 0 <= i < ops.len() && #[trigger] ops[i] == Op::Absorb(x)
}

/// A challenge is drawn.
pub open spec fn drawn_in(ops: Seq<Op>, c: Lin) -> bool {
    exists|i: int| 0 <= i < ops.len() && #[trigger] ops[i] == Op::Squeeze(c)
}

/// An expression is absorbed before a challenge is drawn.
pub open spec fn heard(ops: Seq<Op>, x: Lin, c: Lin) -> bool {
    exists|i: int, j: int|
        0 <= i < j < ops.len() && #[trigger] ops[i] == Op::Absorb(x) && #[trigger] ops[j]
            == Op::Squeeze(c)
}

pub broadcast proof fn lemma_absorbed_join(a: Seq<Op>, b: Seq<Op>, x: Lin)
    ensures
        absorbed_in(a, x) || absorbed_in(b, x) ==> #[trigger] absorbed_in(a + b, x),
{
    if absorbed_in(a, x) {
        let i = choose|i: int| 0 <= i < a.len() && #[trigger] a[i] == Op::Absorb(x);
        assert((a + b)[i] == Op::Absorb(x));
    }
    if absorbed_in(b, x) {
        let i = choose|i: int| 0 <= i < b.len() && #[trigger] b[i] == Op::Absorb(x);
        assert((a + b)[a.len() + i] == Op::Absorb(x));
    }
}

broadcast proof fn lemma_drawn_join(a: Seq<Op>, b: Seq<Op>, c: Lin)
    ensures
        drawn_in(a, c) || drawn_in(b, c) ==> #[trigger] drawn_in(a + b, c),
{
    if drawn_in(a, c) {
        let i = choose|i: int| 0 <= i < a.len() && #[trigger] a[i] == Op::Squeeze(c);
        assert((a + b)[i] == Op::Squeeze(c));
    }
    if drawn_in(b, c) {
        let i = choose|i: int| 0 <= i < b.len() && #[trigger] b[i] == Op::Squeeze(c);
        assert((a + b)[a.len() + i] == Op::Squeeze(c));
    }
}

broadcast proof fn lemma_heard_join(a: Seq<Op>, b: Seq<Op>, x: Lin, c: Lin)
    ensures
        heard(a, x, c) || heard(b, x, c) || (absorbed_in(a, x) && drawn_in(b, c)) ==> #[trigger] heard(
            a + b,
            x,
            c,
        ),
{
    if heard(a, x, c) {
        let (i, j) = choose|i: int, j: int|
            0 <= i < j < a.len() && #[trigger] a[i] == Op::Absorb(x) && #[trigger] a[j]
                == Op::Squeeze(c);
        assert((a + b)[i] == Op::Absorb(x) && (a + b)[j] == Op::Squeeze(c));
    }
    if heard(b, x, c) {
        let (i, j) = choose|i: int, j: int|
            0 <= i < j < b.len() && #[trigger] b[i] == Op::Absorb(x) && #[trigger] b[j]
                == Op::Squeeze(c);
        assert((a + b)[a.len() + i] == Op::Absorb(x) && (a + b)[a.len() + j] == Op::Squeeze(c));
    }
    if absorbed_in(a, x) && drawn_in(b, c) {
        let i = choose|i: int| 0 <= i < a.len() && #[trigger] a[i] == Op::Absorb(x);
        let j = choose|j: int| 0 <= j < b.len() && #[trigger] b[j] == Op::Squeeze(c);
        assert((a + b)[i] == Op::Absorb(x) && (a + b)[a.len() + j] == Op::Squeeze(c));
    }
}

broadcast group group_transcript {
    lemma_absorbed_join,
    lemma_drawn_join,
    lemma_heard_join,
}

proof fn lemma_one_absorbed(x: Lin)
    ensures
        absorbed_in(seq![Op::Absorb(x)], x),
{
    assert(seq![Op::Absorb(x)][0] == Op::Absorb(x));
}

proof fn lemma_one_drawn(c: Lin)
    ensures
        drawn_in(seq![Op::Squeeze(c)], c),
{
    assert(seq![Op::Squeeze(c)][0] == Op::Squeeze(c));
}

pub proof fn lemma_absorbs(s: Seq<Lin>, i: int)
    requires
        0 <= i < s.len(),
    ensures
        absorbed_in(absorbs(s), s[i]),
{
    assert(absorbs(s)[i] == Op::Absorb(s[i]));
}

// ---------------------------------------------------------------------------
// Rounds of polynomials
// ---------------------------------------------------------------------------

/// Rounds add to what the channel has heard: each polynomial is absorbed before the
/// challenge of its round and those of later ones.
proof fn lemma_polys_heard(t: Tape, polys: Seq<Seq<Lin>>, claim: Lin, n: nat)
    requires
        n <= polys.len(),
    ensures
        ({
            let (after, last, challenges) = polys_tape(t, polys, claim, n);
            &&& challenges.len() == n
            &&& forall|x: Lin| #[trigger] absorbed_in(t.ops, x) ==> absorbed_in(after.ops, x)
            &&& forall|x: Lin, c: Lin| #[trigger] heard(t.ops, x, c) ==> heard(after.ops, x, c)
            &&& forall|c: Lin| #[trigger] drawn_in(t.ops, c) ==> drawn_in(after.ops, c)
            &&& forall|i: int, j: int|
                0 <= i < n && 0 <= j < polys[i].len() ==> absorbed_in(
                    after.ops,
                    #[trigger] polys[i][j],
                )
            &&& forall|i: int, j: int, k: int|
                0 <= i <= k < n && 0 <= j < polys[i].len() ==> heard(
                    after.ops,
                    #[trigger] polys[i][j],
                    #[trigger] challenges[k],
                )
            &&& forall|x: Lin, k: int|
                0 <= k < n && #[trigger] absorbed_in(t.ops, x) ==> heard(
                    after.ops,
                    x,
                    #[trigger] challenges[k],
                )
        }),
    decreases n,
{
    broadcast use group_transcript;

    if n > 0 {
        let m = (n - 1) as nat;
        lemma_polys_heard(t, polys, claim, m);
        let (t1, before, cs) = polys_tape(t, polys, claim, m);
        let (after, last, challenges) = polys_tape(t, polys, claim, n);
        let p = polys[n - 1];
        let r = challenges[n - 1];
        let (a, b) = (absorbs(p), seq![Op::Squeeze(r)]);
        assert(after.ops =~= t1.ops + (a + b));
        lemma_one_drawn(r);
        assert forall|j: int| 0 <= j < p.len() implies heard(a + b, #[trigger] p[j], r) by {
            lemma_absorbs(p, j);
        }
        assert forall|j: int| 0 <= j < p.len() implies absorbed_in(a + b, #[trigger] p[j]) by {
            lemma_absorbs(p, j);
        }
        assert(drawn_in(a + b, r));
        assert forall|k: int| 0 <= k < m implies #[trigger] challenges[k] == cs[k] by {}
        assert forall|i: int, j: int, k: int|
            0 <= i <= k < n && 0 <= j < polys[i].len() implies heard(
            after.ops,
            #[trigger] polys[i][j],
            #[trigger] challenges[k],
        ) by {
            if k < m {
                assert(heard(t1.ops, polys[i][j], cs[k]));
            } else if i < m {
                assert(absorbed_in(t1.ops, polys[i][j]));
            } else {
                assert(heard(a + b, p[j], r));
            }
        }
        assert forall|i: int, j: int| 0 <= i < n && 0 <= j < polys[i].len() implies absorbed_in(
            after.ops,
            #[trigger] polys[i][j],
        ) by {
            if i < m {
                assert(absorbed_in(t1.ops, polys[i][j]));
            } else {
                assert(absorbed_in(a + b, p[j]));
            }
        }
        assert forall|x: Lin, k: int|
            0 <= k < n && #[trigger] absorbed_in(t.ops, x) implies heard(
            after.ops,
            x,
            #[trigger] challenges[k],
        ) by {
            if k < m {
                assert(heard(t1.ops, x, cs[k]));
            } else {
                assert(absorbed_in(t1.ops, x));
            }
        }
    }
}

proof fn lemma_squeezes_drawn(t: Tape, n: nat)
    ensures
        ({
            let (after, cs) = squeezes_tape(t, n);
            &&& cs.len() == n
            &&& forall|x: Lin, c: Lin| #[trigger] heard(t.ops, x, c) ==> heard(after.ops, x, c)
            &&& forall|x: Lin| #[trigger] absorbed_in(t.ops, x) ==> absorbed_in(after.ops, x)
            &&& forall|x: Lin, k: int|
                0 <= k < n && #[trigger] absorbed_in(t.ops, x) ==> heard(
                    after.ops,
                    x,
                    #[trigger] cs[k],
                )
        }),
    decreases n,
{
    broadcast use group_transcript;

    if n > 0 {
        let m = (n - 1) as nat;
        lemma_squeezes_drawn(t, m);
        let (t1, before) = squeezes_tape(t, m);
        let (after, cs) = squeezes_tape(t, n);
        let b = seq![Op::Squeeze(cs[n - 1])];
        lemma_one_drawn(cs[n - 1]);
        assert(after.ops =~= t1.ops + b);
        assert forall|x: Lin, k: int|
            0 <= k < n && #[trigger] absorbed_in(t.ops, x) implies heard(
            after.ops,
            x,
            #[trigger] cs[k],
        ) by {
            if k < m {
                assert(cs[k] == before[k]);
                assert(heard(t1.ops, x, before[k]));
            } else {
                assert(absorbed_in(t1.ops, x));
            }
        }
    }
}

proof fn lemma_squeeze_heard(t: Tape)
    ensures
        forall|x: Lin| #[trigger] absorbed_in(t.ops, x) ==> heard(t.squeeze().ops, x, t.challenge()),
        forall|x: Lin| #[trigger] absorbed_in(t.ops, x) ==> absorbed_in(t.squeeze().ops, x),
        forall|x: Lin, c: Lin| #[trigger] heard(t.ops, x, c) ==> heard(t.squeeze().ops, x, c),
{
    broadcast use group_transcript;

    let b = seq![Op::Squeeze(t.challenge())];
    lemma_one_drawn(t.challenge());
    assert(t.squeeze().ops =~= t.ops + b);
}

/// What a unified sumcheck hears: what was absorbed before it precedes every one of
/// its challenges, a round's polynomial precedes that round's challenge and all later
/// ones, and the opened values are absorbed.
pub proof fn lemma_unified_heard(
    t: Tape,
    p: crate::poseidon::Permutation,
    polys: Seq<Seq<Lin>>,
    f: Seq<Lin>,
    live: nat,
)
    ensures
        ({
            let run = unified_run(t, p, polys, f, live);
            let ops = run.tape.ops;
            &&& forall|x: Lin, k: int|
                0 <= k < polys.len() && #[trigger] absorbed_in(t.ops, x) ==> heard(
                    ops,
                    x,
                    #[trigger] run.rho[k],
                )
            &&& forall|x: Lin|
                #[trigger] absorbed_in(t.ops, x) ==> heard(ops, x, run.beta) && heard(
                    ops,
                    x,
                    run.gamma,
                )
            &&& forall|i: int, j: int, k: int|
                0 <= i <= k < polys.len() && 0 <= j < polys[i].len() ==> heard(
                    ops,
                    #[trigger] polys[i][j],
                    #[trigger] run.challenges[k],
                )
            &&& forall|i: int| 0 <= i < f.len() ==> absorbed_in(ops, #[trigger] f[i])
        }),
{
    broadcast use group_transcript;

    reveal(unified_run);
    let n = polys.len();
    let (t1, rho) = squeezes_tape(t, n);
    lemma_squeezes_drawn(t, n);
    let t2 = t1.squeeze();
    lemma_squeeze_heard(t1);
    let t3 = t2.squeeze();
    lemma_squeeze_heard(t2);
    let (t4, claim, challenges) = polys_tape(t3, polys, Lin::zero(), n);
    lemma_polys_heard(t3, polys, Lin::zero(), n);
    let run = unified_run(t, p, polys, f, live);
    assert(run.tape.ops == t4.ops + absorbs(f));
    assert forall|x: Lin, k: int|
        0 <= k < n && #[trigger] absorbed_in(t.ops, x) implies heard(
        run.tape.ops,
        x,
        #[trigger] run.rho[k],
    ) by {
        assert(heard(t1.ops, x, rho[k]));
        assert(heard(t2.ops, x, rho[k]));
        assert(heard(t3.ops, x, rho[k]));
    }
    assert forall|x: Lin| #[trigger] absorbed_in(t.ops, x) implies heard(
        run.tape.ops,
        x,
        run.beta,
    ) && heard(run.tape.ops, x, run.gamma) by {
        assert(absorbed_in(t1.ops, x));
        assert(heard(t2.ops, x, run.beta));
        assert(heard(t3.ops, x, run.beta));
        assert(absorbed_in(t2.ops, x));
        assert(heard(t3.ops, x, run.gamma));
    }
    assert forall|i: int| 0 <= i < f.len() implies absorbed_in(
        run.tape.ops,
        #[trigger] f[i],
    ) by {
        lemma_absorbs(f, i);
    }
}

/// What a shift sumcheck hears.
pub proof fn lemma_shift_heard(
    t: Tape,
    polys: Seq<Seq<Lin>>,
    f: Seq<Lin>,
    rp: Seq<Lin>,
    g: Seq<Lin>,
)
    ensures
        ({
            let run = shift_run(t, polys, f, rp, g);
            let ops = run.tape.ops;
            &&& forall|x: Lin| #[trigger] absorbed_in(t.ops, x) ==> heard(ops, x, run.delta)
            &&& forall|i: int, j: int, k: int|
                0 <= i <= k < polys.len() && 0 <= j < polys[i].len() ==> heard(
                    ops,
                    #[trigger] polys[i][j],
                    #[trigger] run.challenges[k],
                )
            &&& forall|i: int| 0 <= i < g.len() ==> absorbed_in(ops, #[trigger] g[i])
        }),
{
    broadcast use group_transcript;

    reveal(shift_run);
    let t1 = t.squeeze();
    lemma_squeeze_heard(t);
    let (c2, target, next) = crate::spine_shift::target_rows(t1.rows, f, t.challenge(), 8);
    let (t3, claim, challenges) = polys_tape(t1.on(c2), polys, target, polys.len());
    lemma_polys_heard(t1.on(c2), polys, target, polys.len());
    let run = shift_run(t, polys, f, rp, g);
    assert(run.tape.ops == t3.ops + absorbs(g));
    assert forall|x: Lin| #[trigger] absorbed_in(t.ops, x) implies heard(
        run.tape.ops,
        x,
        run.delta,
    ) by {
        assert(heard(t1.on(c2).ops, x, run.delta));
    }
    assert forall|i: int| 0 <= i < g.len() implies absorbed_in(
        run.tape.ops,
        #[trigger] g[i],
    ) by {
        lemma_absorbs(g, i);
    }
}

// ---------------------------------------------------------------------------
// Batches
// ---------------------------------------------------------------------------

proof fn lemma_pairs_heard(t: Tape, rounds: Seq<(Lin, Lin)>, claim: Lin, n: nat)
    requires
        n <= rounds.len(),
    ensures
        ({
            let (after, last, challenges) = rounds_tape(t, rounds, claim, n);
            &&& challenges.len() == n
            &&& forall|x: Lin| #[trigger] absorbed_in(t.ops, x) ==> absorbed_in(after.ops, x)
            &&& forall|x: Lin, c: Lin| #[trigger] heard(t.ops, x, c) ==> heard(after.ops, x, c)
            &&& forall|i: int|
                0 <= i < n ==> absorbed_in(after.ops, (#[trigger] rounds[i]).0) && absorbed_in(
                    after.ops,
                    rounds[i].1,
                )
            &&& forall|i: int, k: int|
                0 <= i <= k < n ==> heard(
                    after.ops,
                    (#[trigger] rounds[i]).0,
                    #[trigger] challenges[k],
                ) && heard(after.ops, rounds[i].1, challenges[k])
            &&& forall|x: Lin, k: int|
                0 <= k < n && #[trigger] absorbed_in(t.ops, x) ==> heard(
                    after.ops,
                    x,
                    #[trigger] challenges[k],
                )
        }),
    decreases n,
{
    broadcast use group_transcript;

    if n > 0 {
        let m = (n - 1) as nat;
        lemma_pairs_heard(t, rounds, claim, m);
        let (t1, before, cs) = rounds_tape(t, rounds, claim, m);
        let (after, last, challenges) = rounds_tape(t, rounds, claim, n);
        let (x, y) = rounds[n - 1];
        let r = challenges[n - 1];
        let (a, b, d) = (seq![Op::Absorb(x)], seq![Op::Absorb(y)], seq![Op::Squeeze(r)]);
        assert(after.ops =~= t1.ops + (a + b + d));
        lemma_one_drawn(r);
        lemma_one_absorbed(x);
        lemma_one_absorbed(y);
        assert(heard(a + b + d, x, r));
        assert(heard(a + b + d, y, r));
        assert(absorbed_in(a + b + d, x));
        assert(absorbed_in(a + b + d, y));
        assert(drawn_in(a + b + d, r));
        assert forall|k: int| 0 <= k < m implies #[trigger] challenges[k] == cs[k] by {}
        assert forall|i: int, k: int| 0 <= i <= k < n implies heard(
            after.ops,
            (#[trigger] rounds[i]).0,
            #[trigger] challenges[k],
        ) && heard(after.ops, rounds[i].1, challenges[k]) by {
            if k < m {
                assert(heard(t1.ops, rounds[i].0, cs[k]) && heard(t1.ops, rounds[i].1, cs[k]));
            } else if i < m {
                assert(absorbed_in(t1.ops, rounds[i].0) && absorbed_in(t1.ops, rounds[i].1));
            }
        }
        assert forall|v: Lin, k: int|
            0 <= k < n && #[trigger] absorbed_in(t.ops, v) implies heard(
            after.ops,
            v,
            #[trigger] challenges[k],
        ) by {
            if k < m {
                assert(heard(t1.ops, v, cs[k]));
            } else {
                assert(absorbed_in(t1.ops, v));
            }
        }
    }
}

proof fn lemma_claims_absorbed(t: Tape, points: Seq<Seq<Lin>>, values: Seq<Lin>, n: nat)
    ensures
        forall|x: Lin| #[trigger]
            absorbed_in(t.ops, x) ==> absorbed_in(absorb_claims(t, points, values, n).ops, x),
        forall|i: int|
            0 <= i < n ==> absorbed_in(
                absorb_claims(t, points, values, n).ops,
                #[trigger] values[i],
            ),
    decreases n,
{
    broadcast use group_transcript;

    if n > 0 {
        let m = (n - 1) as nat;
        lemma_claims_absorbed(t, points, values, m);
        let t1 = absorb_claims(t, points, values, m);
        let after = absorb_claims(t, points, values, n);
        let k = Lin::constant(F128::of_nat(points[n - 1].len()));
        let (a, b) = (seq![Op::Absorb(k)], seq![Op::Absorb(values[n - 1])]);
        lemma_one_absorbed(values[n - 1]);
        assert(after.ops =~= t1.ops + (a + b));
        assert(absorbed_in(a + b, values[n - 1]));
        assert forall|i: int| 0 <= i < n implies absorbed_in(
            after.ops,
            #[trigger] values[i],
        ) by {
            if i < m {
                assert(absorbed_in(t1.ops, values[i]));
            }
        }
    }
}

proof fn lemma_alphas_heard(t: Tape, m: nat)
    ensures
        ({
            let (after, ws, levels) = alphas_tape(t, m);
            &&& forall|x: Lin, c: Lin| #[trigger] heard(t.ops, x, c) ==> heard(after.ops, x, c)
            &&& forall|x: Lin| #[trigger] absorbed_in(t.ops, x) ==> absorbed_in(after.ops, x)
            &&& forall|x: Lin, k: int|
                0 <= k < levels.len() && #[trigger] absorbed_in(t.ops, x) ==> heard(
                    after.ops,
                    x,
                    #[trigger] levels[k],
                )
        }),
{
    if m > 0 {
        lemma_squeezes_drawn(t, levels_of(m));
    }
}

/// What a batch over one column hears: every claimed value precedes every challenge,
/// and a round's values precede that round's challenge and all later ones.
pub proof fn lemma_batch_heard(
    t: Tape,
    rounds: Seq<(Lin, Lin)>,
    b_final: Lin,
    points: Seq<Seq<Lin>>,
    values: Seq<Lin>,
)
    ensures
        ({
            let run = batch_run(t, rounds, b_final, points, values);
            let ops = run.tape.ops;
            &&& forall|i: int, k: int|
                0 <= i < values.len() && 0 <= k < run.levels.len() ==> heard(
                    ops,
                    #[trigger] values[i],
                    #[trigger] run.levels[k],
                )
            &&& forall|i: int, k: int|
                0 <= i < values.len() && 0 <= k < rounds.len() ==> heard(
                    ops,
                    #[trigger] values[i],
                    #[trigger] run.challenges[k],
                )
            &&& forall|i: int, k: int|
                0 <= i <= k < rounds.len() ==> heard(
                    ops,
                    (#[trigger] rounds[i]).0,
                    #[trigger] run.challenges[k],
                ) && heard(ops, rounds[i].1, run.challenges[k])
        }),
{
    reveal(batch_run);
    let m = values.len();
    let t1 = absorb_claims(t, points, values, m);
    lemma_claims_absorbed(t, points, values, m);
    let (t2, alphas, levels) = alphas_tape(t1, m);
    lemma_alphas_heard(t1, m);
    let (c3, claim) = crate::eval_gadgets::inner_rows(t2.rows, alphas, values, m);
    let (t4, last, challenges) = rounds_tape(t2.on(c3), rounds, claim, rounds.len());
    lemma_pairs_heard(t2.on(c3), rounds, claim, rounds.len());
    let run = batch_run(t, rounds, b_final, points, values);
    assert(run.tape.ops == t4.ops);
    assert forall|i: int, k: int| 0 <= i < m && 0 <= k < run.levels.len() implies heard(
        run.tape.ops,
        #[trigger] values[i],
        #[trigger] run.levels[k],
    ) by {
        assert(absorbed_in(t1.ops, values[i]));
        assert(heard(t2.ops, values[i], levels[k]));
        assert(heard(t2.on(c3).ops, values[i], levels[k]));
    }
    assert forall|i: int, k: int| 0 <= i < m && 0 <= k < rounds.len() implies heard(
        run.tape.ops,
        #[trigger] values[i],
        #[trigger] run.challenges[k],
    ) by {
        assert(absorbed_in(t1.ops, values[i]));
        assert(absorbed_in(t2.on(c3).ops, values[i]));
    }
}

proof fn lemma_const_absorbed(t: Tape, value: nat)
    ensures
        absorbed_in(t.absorb_const(value).ops, Lin::constant(F128::of_nat(value))),
        forall|x: Lin| #[trigger]
            absorbed_in(t.ops, x) ==> absorbed_in(t.absorb_const(value).ops, x),
{
    broadcast use group_transcript;

    let k = Lin::constant(F128::of_nat(value));
    let a = seq![Op::Absorb(k)];
    lemma_one_absorbed(k);
    assert(t.absorb_const(value).ops =~= t.ops + a);
}

/// What a batch over linear relations hears: its tags and counts precede every
/// challenge, and a round's values precede that round's challenge and all later ones.
pub proof fn lemma_linear_heard(
    t: Tape,
    rounds: Seq<(Lin, Lin)>,
    b_final: Lin,
    terms: Seq<Seq<(nat, Lin)>>,
    values: Seq<Lin>,
    tag: nat,
    relation_tag: nat,
    k: int,
)
    requires
        0 <= k < rounds.len(),
    ensures
        ({
            let run = linear_run(t, rounds, b_final, terms, values, tag, relation_tag);
            let ops = run.tape.ops;
            let c = run.challenges[k];
            let count = |n: nat| Lin::constant(F128::of_nat(n));
            &&& heard(ops, count(tag), c)
            &&& heard(ops, count(relation_tag), c)
            &&& heard(ops, count(rounds.len()), c)
            &&& heard(ops, count(values.len()), c)
            &&& heard(ops, count(term_count(terms, terms.len())), c)
            &&& forall|x: Lin| #[trigger] absorbed_in(t.ops, x) ==> heard(ops, x, c)
            &&& forall|x: Lin, l: int|
                0 <= l < run.levels.len() && #[trigger] absorbed_in(t.ops, x) ==> heard(
                    ops,
                    x,
                    #[trigger] run.levels[l],
                )
            &&& forall|i: int|
                0 <= i <= k ==> heard(ops, (#[trigger] rounds[i]).0, c) && heard(
                    ops,
                    rounds[i].1,
                    c,
                )
        }),
{
    reveal(linear_run);
    let m = values.len();
    let a = t.absorb_const(tag);
    lemma_const_absorbed(t, tag);
    let b = a.absorb_const(relation_tag);
    lemma_const_absorbed(a, relation_tag);
    let d = b.absorb_const(rounds.len());
    lemma_const_absorbed(b, rounds.len());
    let e = d.absorb_const(m);
    lemma_const_absorbed(d, m);
    let t1 = e.absorb_const(term_count(terms, terms.len()));
    lemma_const_absorbed(e, term_count(terms, terms.len()));
    let (t2, alphas, levels) = alphas_tape(t1, m);
    lemma_alphas_heard(t1, m);
    let (c3, claim) = crate::eval_gadgets::inner_rows(t2.rows, alphas, values, m);
    let t3 = t2.on(c3);
    lemma_pairs_heard(t3, rounds, claim, rounds.len());
    let run = linear_run(t, rounds, b_final, terms, values, tag, relation_tag);
    assert forall|x: Lin| #[trigger] absorbed_in(t1.ops, x) implies heard(
        run.tape.ops,
        x,
        run.challenges[k],
    ) by {
        assert(absorbed_in(t3.ops, x));
    }
    assert forall|x: Lin, l: int|
        0 <= l < run.levels.len() && #[trigger] absorbed_in(t.ops, x) implies heard(
        run.tape.ops,
        x,
        #[trigger] run.levels[l],
    ) by {
        assert(absorbed_in(t1.ops, x));
        assert(heard(t3.ops, x, levels[l]));
    }
}

proof fn lemma_columns_absorbed(
    t: Tape,
    points: Seq<Seq<Seq<Lin>>>,
    values: Seq<Seq<Lin>>,
    n: nat,
)
    ensures
        forall|x: Lin| #[trigger]
            absorbed_in(t.ops, x) ==> absorbed_in(absorb_columns(t, points, values, n).ops, x),
        forall|i: int, j: int|
            0 <= i < n && 0 <= j < values[i].len() ==> absorbed_in(
                absorb_columns(t, points, values, n).ops,
                #[trigger] values[i][j],
            ),
    decreases n,
{
    if n > 0 {
        let k = (n - 1) as nat;
        lemma_columns_absorbed(t, points, values, k);
        let before = absorb_columns(t, points, values, k);
        let t0 = before.absorb_const(k);
        lemma_const_absorbed(before, k);
        let t1 = t0.absorb_const(values[n - 1].len());
        lemma_const_absorbed(t0, values[n - 1].len());
        lemma_claims_absorbed(t1, points[n - 1], values[n - 1], values[n - 1].len());
        let after = absorb_columns(t, points, values, n);
        assert forall|i: int, j: int| 0 <= i < n && 0 <= j < values[i].len() implies absorbed_in(
            after.ops,
            #[trigger] values[i][j],
        ) by {
            if i < k {
                assert(absorbed_in(before.ops, values[i][j]));
            }
        }
    }
}

proof fn lemma_columns_heard(t: Tape, values: Seq<Seq<Lin>>, n: nat)
    ensures
        ({
            let (after, alphas, levels) = columns_alphas(t, values, n);
            &&& levels.len() == n
            &&& forall|x: Lin| #[trigger] absorbed_in(t.ops, x) ==> absorbed_in(after.ops, x)
            &&& forall|x: Lin, c: Lin| #[trigger] heard(t.ops, x, c) ==> heard(after.ops, x, c)
            &&& forall|x: Lin, i: int, l: int|
                0 <= i < n && 0 <= l < levels[i].len() && #[trigger] absorbed_in(t.ops, x)
                    ==> heard(after.ops, x, #[trigger] levels[i][l])
        }),
    decreases n,
{
    if n > 0 {
        let m = (n - 1) as nat;
        lemma_columns_heard(t, values, m);
        let (t1, before, ls) = columns_alphas(t, values, m);
        lemma_alphas_heard(t1, values[n - 1].len());
        let (after, alphas, levels) = columns_alphas(t, values, n);
        assert forall|x: Lin, i: int, l: int|
            0 <= i < n && 0 <= l < levels[i].len() && #[trigger] absorbed_in(
                t.ops,
                x,
            ) implies heard(after.ops, x, #[trigger] levels[i][l]) by {
            assert(absorbed_in(t1.ops, x));
            if i < m {
                assert(levels[i] == ls[i]);
                assert(heard(t1.ops, x, ls[i][l]));
            }
        }
    }
}

/// What a batch over several columns hears: every claimed value of every column
/// precedes every challenge, and a round's values precede that round's challenge and
/// all later ones.
pub proof fn lemma_multi_heard(
    t: Tape,
    rounds: Seq<(Lin, Lin)>,
    finals: Seq<Lin>,
    points: Seq<Seq<Seq<Lin>>>,
    values: Seq<Seq<Lin>>,
    tag: nat,
)
    ensures
        ({
            let run = multi_run(t, rounds, finals, points, values, tag);
            let ops = run.tape.ops;
            &&& forall|i: int, j: int, k: int|
                0 <= i < values.len() && 0 <= j < values[i].len() && 0 <= k < rounds.len()
                    ==> heard(ops, #[trigger] values[i][j], #[trigger] run.challenges[k])
            &&& forall|i: int, j: int, h: int, l: int|
                0 <= i < values.len() && 0 <= j < values[i].len() && 0 <= h < values.len() && 0
                    <= l < run.levels[h].len() ==> heard(
                    ops,
                    #[trigger] values[i][j],
                    #[trigger] run.levels[h][l],
                )
            &&& forall|i: int, k: int|
                0 <= i <= k < rounds.len() ==> heard(
                    ops,
                    (#[trigger] rounds[i]).0,
                    #[trigger] run.challenges[k],
                ) && heard(ops, rounds[i].1, run.challenges[k])
        }),
{
    reveal(multi_run);
    let n = values.len();
    let t0 = t.absorb_const(tag).absorb_const(n);
    let t1 = absorb_columns(t0, points, values, n);
    lemma_columns_absorbed(t0, points, values, n);
    let (t2, alphas, levels) = columns_alphas(t1, values, n);
    lemma_columns_heard(t1, values, n);
    let (c3, claim) = crate::batch_eval::columns_inner_rows(t2.rows, alphas, values, n);
    let t3 = t2.on(c3);
    lemma_pairs_heard(t3, rounds, claim, rounds.len());
    let run = multi_run(t, rounds, finals, points, values, tag);
    assert forall|i: int, j: int, k: int|
        0 <= i < n && 0 <= j < values[i].len() && 0 <= k < rounds.len() implies heard(
        run.tape.ops,
        #[trigger] values[i][j],
        #[trigger] run.challenges[k],
    ) by {
        assert(absorbed_in(t1.ops, values[i][j]));
        assert(absorbed_in(t3.ops, values[i][j]));
    }
    assert forall|i: int, j: int, h: int, l: int|
        0 <= i < n && 0 <= j < values[i].len() && 0 <= h < n && 0 <= l
            < run.levels[h].len() implies heard(
        run.tape.ops,
        #[trigger] values[i][j],
        #[trigger] run.levels[h][l],
    ) by {
        assert(absorbed_in(t1.ops, values[i][j]));
        assert(heard(t3.ops, values[i][j], levels[h][l]));
    }
}

// ---------------------------------------------------------------------------
// Folds
// ---------------------------------------------------------------------------

proof fn lemma_rounds_heard(rounds: Seq<Seq<Lin>>, challenges: Seq<Lin>, n: nat)
    ensures
        forall|k: int|
            0 <= k < n ==> drawn_in(round_ops(rounds, challenges, n), #[trigger] challenges[k]),
        forall|i: int|
            0 <= i < n ==> absorbed_in(
                round_ops(rounds, challenges, n),
                #[trigger] rounds[i][0],
            ) && absorbed_in(round_ops(rounds, challenges, n), rounds[i][1]),
        forall|i: int, k: int|
            0 <= i <= k < n ==> heard(
                round_ops(rounds, challenges, n),
                #[trigger] rounds[i][0],
                #[trigger] challenges[k],
            ) && heard(round_ops(rounds, challenges, n), rounds[i][1], challenges[k]),
    decreases n,
{
    broadcast use group_transcript;

    if n > 0 {
        let m = (n - 1) as nat;
        lemma_rounds_heard(rounds, challenges, m);
        let before = round_ops(rounds, challenges, m);
        let after = round_ops(rounds, challenges, n);
        let (x, y, r) = (rounds[n - 1][0], rounds[n - 1][1], challenges[n - 1]);
        let (a, b, d) = (seq![Op::Absorb(x)], seq![Op::Absorb(y)], seq![Op::Squeeze(r)]);
        assert(after =~= before + (a + b + d));
        lemma_one_drawn(r);
        lemma_one_absorbed(x);
        lemma_one_absorbed(y);
        assert(heard(a + b + d, x, r) && heard(a + b + d, y, r));
        assert(absorbed_in(a + b + d, x) && absorbed_in(a + b + d, y));
        assert(drawn_in(a + b + d, r));
        assert forall|i: int| 0 <= i < n implies absorbed_in(
            after,
            #[trigger] rounds[i][0],
        ) && absorbed_in(after, rounds[i][1]) by {
            if i < m {
                assert(absorbed_in(before, rounds[i][0]) && absorbed_in(before, rounds[i][1]));
            }
        }
        assert forall|i: int, k: int| 0 <= i <= k < n implies heard(
            after,
            #[trigger] rounds[i][0],
            #[trigger] challenges[k],
        ) && heard(after, rounds[i][1], challenges[k]) by {
            if k < m {
                assert(heard(before, rounds[i][0], challenges[k]));
                assert(heard(before, rounds[i][1], challenges[k]));
            } else if i < m {
                assert(absorbed_in(before, rounds[i][0]) && absorbed_in(before, rounds[i][1]));
            }
        }
    }
}

/// What a matrix fold hears: its label, the fresh claim, the incoming claim and its
/// gate precede the first challenge; a round's message precedes that round's challenge
/// and all later ones; what the first sumcheck ends on precedes the challenge that
/// combines it; and the matrix value at the end is absorbed.
pub proof fn lemma_fold_heard(
    label: Seq<F128>,
    fresh: &FreshLincheckClaimTrace,
    incoming: &MatrixAccClaimTrace,
    f: FoldLins,
    run: FoldRun,
)
    ensures
        ({
            let ops = fold_ops(label, fresh, incoming, f, run);
            &&& forall|i: int|
                0 <= i < label.len() ==> heard(
                    ops,
                    Lin::constant(#[trigger] label[i]),
                    run.gamma,
                )
            &&& heard(ops, fresh.alpha@, run.gamma)
            &&& heard(ops, fresh.z_skip@, run.gamma)
            &&& forall|i: int|
                0 <= i < fresh.x_inner_rest@.len() ==> heard(
                    ops,
                    #[trigger] fresh.x_inner_rest@[i]@,
                    run.gamma,
                )
            &&& forall|i: int|
                0 <= i < fresh.r_inner_rest@.len() ==> heard(
                    ops,
                    #[trigger] fresh.r_inner_rest@[i]@,
                    run.gamma,
                )
            &&& forall|i: int|
                0 <= i < fresh.z_partial@.len() ==> heard(
                    ops,
                    #[trigger] fresh.z_partial@[i]@,
                    run.gamma,
                )
            &&& heard(ops, fresh.value@, run.gamma)
            &&& forall|i: int|
                0 <= i < incoming.point@.len() ==> heard(
                    ops,
                    #[trigger] incoming.point@[i]@,
                    run.gamma,
                )
            &&& heard(ops, incoming.value@, run.gamma)
            &&& heard(ops, f.gate, run.gamma)
            &&& forall|i: int, k: int|
                0 <= i <= k < run.rho.len() ==> heard(
                    ops,
                    #[trigger] f.first[i][0],
                    #[trigger] run.rho[k],
                ) && heard(ops, f.first[i][1], run.rho[k])
            &&& heard(ops, f.g_v, run.delta)
            &&& heard(ops, f.g_e, run.delta)
            &&& forall|i: int, k: int|
                0 <= i <= k < run.sigma.len() ==> heard(
                    ops,
                    #[trigger] f.second[i][0],
                    #[trigger] run.sigma[k],
                ) && heard(ops, f.second[i][1], run.sigma[k])
            &&& absorbed_in(ops, f.end)
        }),
{
    broadcast use group_transcript;

    let ops = fold_ops(label, fresh, incoming, f, run);
    let tags = Seq::new(label.len(), |i: int| Op::Absorb(Lin::constant(label[i])));
    let list = fresh.absorbed() + lins(incoming.point@) + seq![incoming.value@, f.gate];
    let head = tags + absorbs(list);
    let gamma = seq![Op::Squeeze(run.gamma)];
    let first = round_ops(f.first, run.rho, run.rho.len());
    let middle = seq![Op::Absorb(f.g_v), Op::Absorb(f.g_e), Op::Squeeze(run.delta)];
    let second = round_ops(f.second, run.sigma, run.sigma.len());
    let last = seq![Op::Absorb(f.end)];
    assert(ops =~= head + gamma + first + middle + second + last);
    lemma_one_drawn(run.gamma);
    assert forall|x: Lin| #[trigger] absorbed_in(head, x) implies heard(ops, x, run.gamma) by {
        assert(heard(head + gamma, x, run.gamma));
        assert(heard(head + gamma + first, x, run.gamma));
        assert(heard(head + gamma + first + middle, x, run.gamma));
        assert(heard(head + gamma + first + middle + second, x, run.gamma));
    }
    assert forall|i: int| 0 <= i < list.len() implies heard(
        ops,
        #[trigger] list[i],
        run.gamma,
    ) by {
        lemma_absorbs(list, i);
        assert(absorbed_in(head, list[i]));
    }
    assert forall|i: int| 0 <= i < label.len() implies heard(
        ops,
        Lin::constant(#[trigger] label[i]),
        run.gamma,
    ) by {
        assert(tags[i] == Op::Absorb(Lin::constant(label[i])));
        assert(absorbed_in(head, Lin::constant(label[i])));
    }
    let (p, q) = (fresh.x_inner_rest@.len() as int, fresh.r_inner_rest@.len() as int);
    let s = fresh.z_partial@.len() as int;
    let t = incoming.point@.len() as int;
    assert(list[0] == fresh.alpha@ && list[1] == fresh.z_skip@);
    assert forall|i: int| 0 <= i < p implies heard(
        ops,
        #[trigger] fresh.x_inner_rest@[i]@,
        run.gamma,
    ) by {
        assert(list[2 + i] == fresh.x_inner_rest@[i]@);
    }
    assert forall|i: int| 0 <= i < q implies heard(
        ops,
        #[trigger] fresh.r_inner_rest@[i]@,
        run.gamma,
    ) by {
        assert(list[2 + p + i] == fresh.r_inner_rest@[i]@);
    }
    assert forall|i: int| 0 <= i < s implies heard(
        ops,
        #[trigger] fresh.z_partial@[i]@,
        run.gamma,
    ) by {
        assert(list[2 + p + q + i] == fresh.z_partial@[i]@);
    }
    assert(list[2 + p + q + s] == fresh.value@);
    assert forall|i: int| 0 <= i < t implies heard(
        ops,
        #[trigger] incoming.point@[i]@,
        run.gamma,
    ) by {
        assert(list[3 + p + q + s + i] == incoming.point@[i]@);
    }
    assert(list[3 + p + q + s + t] == incoming.value@);
    assert(list[4 + p + q + s + t] == f.gate);
    lemma_rounds_heard(f.first, run.rho, run.rho.len());
    lemma_rounds_heard(f.second, run.sigma, run.sigma.len());
    assert forall|x: Lin, c: Lin| #[trigger] heard(first, x, c) implies heard(ops, x, c) by {
        assert(heard(head + gamma + first, x, c));
        assert(heard(head + gamma + first + middle, x, c));
        assert(heard(head + gamma + first + middle + second, x, c));
    }
    assert forall|x: Lin, c: Lin| #[trigger] heard(second, x, c) implies heard(ops, x, c) by {
        assert(heard(head + gamma + first + middle + second, x, c));
    }
    assert(middle[0] == Op::Absorb(f.g_v) && middle[1] == Op::Absorb(f.g_e));
    assert(middle[2] == Op::Squeeze(run.delta));
    assert(heard(middle, f.g_v, run.delta) && heard(middle, f.g_e, run.delta));
    assert(heard(head + gamma + first + middle, f.g_v, run.delta));
    assert(heard(head + gamma + first + middle, f.g_e, run.delta));
    assert(heard(head + gamma + first + middle + second, f.g_v, run.delta));
    assert(heard(head + gamma + first + middle + second, f.g_e, run.delta));
    lemma_one_absorbed(f.end);
    assert forall|i: int, k: int| 0 <= i <= k < run.rho.len() implies heard(
        ops,
        #[trigger] f.first[i][0],
        #[trigger] run.rho[k],
    ) && heard(ops, f.first[i][1], run.rho[k]) by {
        assert(heard(first, f.first[i][0], run.rho[k]));
        assert(heard(first, f.first[i][1], run.rho[k]));
    }
    assert forall|i: int, k: int| 0 <= i <= k < run.sigma.len() implies heard(
        ops,
        #[trigger] f.second[i][0],
        #[trigger] run.sigma[k],
    ) && heard(ops, f.second[i][1], run.sigma[k]) by {
        assert(heard(second, f.second[i][0], run.sigma[k]));
        assert(heard(second, f.second[i][1], run.sigma[k]));
    }
}

// ---------------------------------------------------------------------------
// Folds in the extension
// ---------------------------------------------------------------------------

/// Both halves of an expression are absorbed.
pub open spec fn ext_absorbed_in(ops: Seq<Op>, x: ExtLin) -> bool {
    absorbed_in(ops, x.lo) && absorbed_in(ops, x.hi)
}

/// Both halves of a challenge are drawn.
pub open spec fn ext_drawn_in(ops: Seq<Op>, c: ExtLin) -> bool {
    drawn_in(ops, c.lo) && drawn_in(ops, c.hi)
}

/// Both halves of an expression are absorbed before either half of a challenge is
/// drawn.
pub open spec fn ext_heard(ops: Seq<Op>, x: ExtLin, c: ExtLin) -> bool {
    heard(ops, x.lo, c.lo) && heard(ops, x.lo, c.hi) && heard(ops, x.hi, c.lo) && heard(
        ops,
        x.hi,
        c.hi,
    )
}

broadcast proof fn lemma_ext_join(a: Seq<Op>, b: Seq<Op>, x: ExtLin)
    ensures
        ext_absorbed_in(a, x) || ext_absorbed_in(b, x) ==> #[trigger] ext_absorbed_in(a + b, x),
{
    broadcast use group_transcript;

    assert(absorbed_in(a, x.lo) || absorbed_in(b, x.lo) ==> absorbed_in(a + b, x.lo));
    assert(absorbed_in(a, x.hi) || absorbed_in(b, x.hi) ==> absorbed_in(a + b, x.hi));
}

broadcast proof fn lemma_ext_heard_join(a: Seq<Op>, b: Seq<Op>, x: ExtLin, c: ExtLin)
    ensures
        ext_heard(a, x, c) || ext_heard(b, x, c) || (ext_absorbed_in(a, x) && ext_drawn_in(b, c))
            ==> #[trigger] ext_heard(a + b, x, c),
{
    lemma_heard_join(a, b, x.lo, c.lo);
    lemma_heard_join(a, b, x.lo, c.hi);
    lemma_heard_join(a, b, x.hi, c.lo);
    lemma_heard_join(a, b, x.hi, c.hi);
}

broadcast proof fn lemma_ext_ops(x: ExtLin)
    ensures
        ext_absorbed_in(#[trigger] ext_absorb(x), x),
        ext_drawn_in(#[trigger] ext_squeeze(x), x),
{
    assert(ext_absorb(x)[0] == Op::Absorb(x.lo) && ext_absorb(x)[1] == Op::Absorb(x.hi));
    assert(ext_squeeze(x)[0] == Op::Squeeze(x.lo) && ext_squeeze(x)[1] == Op::Squeeze(x.hi));
}

broadcast group group_ext_transcript {
    lemma_ext_join,
    lemma_ext_heard_join,
    lemma_ext_ops,
}

proof fn lemma_ext_absorbs(s: Seq<ExtLin>, n: nat, i: int)
    requires
        0 <= i < n,
    ensures
        ext_absorbed_in(ext_absorbs(s, n), s[i]),
    decreases n,
{
    broadcast use group_ext_transcript;

    let before = ext_absorbs(s, (n - 1) as nat);
    assert(ext_absorbs(s, n) =~= before + ext_absorb(s[n - 1]));
    if i < n - 1 {
        lemma_ext_absorbs(s, (n - 1) as nat, i);
    } else {
        lemma_ext_ops(s[n - 1]);
    }
}

proof fn lemma_ext_rounds_heard(rounds: Seq<Seq<ExtLin>>, challenges: Seq<ExtLin>, n: nat)
    ensures
        forall|i: int|
            0 <= i < n ==> ext_absorbed_in(
                ext_round_ops(rounds, challenges, n),
                #[trigger] rounds[i][0],
            ) && ext_absorbed_in(ext_round_ops(rounds, challenges, n), rounds[i][1]),
        forall|i: int, k: int|
            0 <= i <= k < n ==> ext_heard(
                ext_round_ops(rounds, challenges, n),
                #[trigger] rounds[i][0],
                #[trigger] challenges[k],
            ) && ext_heard(ext_round_ops(rounds, challenges, n), rounds[i][1], challenges[k]),
    decreases n,
{
    broadcast use group_ext_transcript;

    if n > 0 {
        let m = (n - 1) as nat;
        lemma_ext_rounds_heard(rounds, challenges, m);
        let before = ext_round_ops(rounds, challenges, m);
        let after = ext_round_ops(rounds, challenges, n);
        let (x, y, r) = (rounds[n - 1][0], rounds[n - 1][1], challenges[n - 1]);
        let (a, b, d) = (ext_absorb(x), ext_absorb(y), ext_squeeze(r));
        lemma_ext_ops(x);
        lemma_ext_ops(y);
        lemma_ext_ops(r);
        assert(after == before + a + b + d);
        assert(ext_absorbed_in(before + a, x));
        assert(ext_absorbed_in(before + a + b, x) && ext_absorbed_in(before + a + b, y));
        assert forall|i: int| 0 <= i < n implies ext_absorbed_in(
            after,
            #[trigger] rounds[i][0],
        ) && ext_absorbed_in(after, rounds[i][1]) by {
            if i < m {
                assert(ext_absorbed_in(before, rounds[i][0]));
                assert(ext_absorbed_in(before, rounds[i][1]));
                assert(ext_absorbed_in(before + a, rounds[i][0]));
                assert(ext_absorbed_in(before + a, rounds[i][1]));
                assert(ext_absorbed_in(before + a + b, rounds[i][0]));
                assert(ext_absorbed_in(before + a + b, rounds[i][1]));
            }
        }
        assert forall|i: int, k: int| 0 <= i <= k < n implies ext_heard(
            after,
            #[trigger] rounds[i][0],
            #[trigger] challenges[k],
        ) && ext_heard(after, rounds[i][1], challenges[k]) by {
            let (u, v, c) = (rounds[i][0], rounds[i][1], challenges[k]);
            if k < m {
                assert(ext_heard(before, u, c) && ext_heard(before, v, c));
                assert(ext_heard(before + a, u, c) && ext_heard(before + a, v, c));
                assert(ext_heard(before + a + b, u, c) && ext_heard(before + a + b, v, c));
            } else if i < m {
                assert(ext_absorbed_in(before, u) && ext_absorbed_in(before, v));
                assert(ext_absorbed_in(before + a, u) && ext_absorbed_in(before + a, v));
                assert(ext_absorbed_in(before + a + b, u) && ext_absorbed_in(before + a + b, v));
            }
        }
    }
}

/// What a fold in the extension hears first: its label, both claims and their gate.
pub proof fn lemma_c1_header_heard(
    label: Seq<F128>,
    fresh: &C1FreshLincheckClaimTrace,
    incoming: &C1MatrixAccClaimTrace,
    gate: Lin,
)
    ensures
        ({
            let ops = c1_header(label, fresh, incoming, gate);
            &&& forall|i: int|
                0 <= i < label.len() ==> absorbed_in(ops, Lin::constant(#[trigger] label[i]))
            &&& ext_absorbed_in(ops, fresh.alpha@)
            &&& ext_absorbed_in(ops, fresh.z_skip@)
            &&& forall|i: int|
                0 <= i < fresh.x_inner_rest@.len() ==> ext_absorbed_in(
                    ops,
                    #[trigger] fresh.x_inner_rest@[i]@,
                )
            &&& forall|i: int|
                0 <= i < fresh.r_inner_rest@.len() ==> ext_absorbed_in(
                    ops,
                    #[trigger] fresh.r_inner_rest@[i]@,
                )
            &&& forall|i: int|
                0 <= i < fresh.z_partial@.len() ==> ext_absorbed_in(
                    ops,
                    #[trigger] fresh.z_partial@[i]@,
                )
            &&& ext_absorbed_in(ops, fresh.value@)
            &&& forall|i: int|
                0 <= i < incoming.point@.len() ==> ext_absorbed_in(
                    ops,
                    #[trigger] incoming.point@[i]@,
                )
            &&& ext_absorbed_in(ops, incoming.value@)
            &&& absorbed_in(ops, gate)
        }),
{
    let tags = Seq::new(label.len(), |i: int| Op::Absorb(Lin::constant(label[i])));
    let a = ext_absorb(fresh.alpha@);
    let b = ext_absorb(fresh.z_skip@);
    let (xs, rs, zs, ps) = (
        ext_lins(fresh.x_inner_rest@),
        ext_lins(fresh.r_inner_rest@),
        ext_lins(fresh.z_partial@),
        ext_lins(incoming.point@),
    );
    let c = ext_absorbs(xs, xs.len());
    let d = ext_absorbs(rs, rs.len());
    let e = ext_absorbs(zs, zs.len());
    let f = ext_absorb(fresh.value@);
    let h = ext_absorbs(ps, ps.len());
    let k = ext_absorb(incoming.value@);
    let gx = ExtLin { lo: gate, hi: Lin::zero() };
    let l = ext_absorb(gx);
    let ops = c1_header(label, fresh, incoming, gate);
    assert(ops == tags + a + b + c + d + e + f + h + k + l);
    lemma_ext_ops(fresh.alpha@);
    lemma_ext_ops(fresh.z_skip@);
    lemma_ext_ops(fresh.value@);
    lemma_ext_ops(incoming.value@);
    lemma_ext_ops(gx);
    assert forall|i: int| 0 <= i < label.len() implies absorbed_in(
        ops,
        Lin::constant(#[trigger] label[i]),
    ) by {
        assert(tags[i] == Op::Absorb(Lin::constant(label[i])));
        assert(ops[i] == tags[i]);
    }
    lemma_part(ops, tags, a, b + c + d + e + f + h + k + l);
    lemma_part(ops, tags + a, b, c + d + e + f + h + k + l);
    lemma_part(ops, tags + a + b, c, d + e + f + h + k + l);
    lemma_part(ops, tags + a + b + c, d, e + f + h + k + l);
    lemma_part(ops, tags + a + b + c + d, e, f + h + k + l);
    lemma_part(ops, tags + a + b + c + d + e, f, h + k + l);
    lemma_part(ops, tags + a + b + c + d + e + f, h, k + l);
    lemma_part(ops, tags + a + b + c + d + e + f + h, k, l);
    lemma_part(ops, tags + a + b + c + d + e + f + h + k, l, Seq::empty());
    assert forall|i: int| 0 <= i < fresh.x_inner_rest@.len() implies ext_absorbed_in(
        ops,
        #[trigger] fresh.x_inner_rest@[i]@,
    ) by {
        lemma_ext_absorbs(xs, xs.len(), i);
    }
    assert forall|i: int| 0 <= i < fresh.r_inner_rest@.len() implies ext_absorbed_in(
        ops,
        #[trigger] fresh.r_inner_rest@[i]@,
    ) by {
        lemma_ext_absorbs(rs, rs.len(), i);
    }
    assert forall|i: int| 0 <= i < fresh.z_partial@.len() implies ext_absorbed_in(
        ops,
        #[trigger] fresh.z_partial@[i]@,
    ) by {
        lemma_ext_absorbs(zs, zs.len(), i);
    }
    assert forall|i: int| 0 <= i < incoming.point@.len() implies ext_absorbed_in(
        ops,
        #[trigger] incoming.point@[i]@,
    ) by {
        lemma_ext_absorbs(ps, ps.len(), i);
    }
}

proof fn lemma_part(ops: Seq<Op>, a: Seq<Op>, b: Seq<Op>, c: Seq<Op>)
    requires
        ops =~= a + b + c,
    ensures
        forall|x: Lin| #[trigger] absorbed_in(b, x) ==> absorbed_in(ops, x),
{
    broadcast use group_transcript;

    assert forall|x: Lin| #[trigger] absorbed_in(b, x) implies absorbed_in(ops, x) by {
        assert(absorbed_in(a + b, x));
        assert(absorbed_in(a + b + c, x));
    }
}

/// What a fold in the extension hears: its header precedes the first challenge; a
/// round's message precedes that round's challenge and all later ones; what the first
/// sumcheck ends on precedes the challenge that combines it; and the matrix value at
/// the end is absorbed.
pub proof fn lemma_c1_fold_heard(
    label: Seq<F128>,
    fresh: &C1FreshLincheckClaimTrace,
    incoming: &C1MatrixAccClaimTrace,
    f: C1FoldLins,
    run: C1FoldRun,
)
    ensures
        ({
            let ops = c1_fold_ops(label, fresh, incoming, f, run);
            &&& forall|x: Lin| #[trigger]
                absorbed_in(c1_header(label, fresh, incoming, f.gate), x) ==> heard(
                    ops,
                    x,
                    run.gamma.lo,
                ) && heard(ops, x, run.gamma.hi)
            &&& forall|i: int, k: int|
                0 <= i <= k < run.rho.len() ==> ext_heard(
                    ops,
                    #[trigger] f.first[i][0],
                    #[trigger] run.rho[k],
                ) && ext_heard(ops, f.first[i][1], run.rho[k])
            &&& ext_heard(ops, f.g_v, run.delta)
            &&& ext_heard(ops, f.g_e, run.delta)
            &&& forall|i: int, k: int|
                0 <= i <= k < run.sigma.len() ==> ext_heard(
                    ops,
                    #[trigger] f.second[i][0],
                    #[trigger] run.sigma[k],
                ) && ext_heard(ops, f.second[i][1], run.sigma[k])
            &&& ext_absorbed_in(ops, f.end)
        }),
{
    broadcast use {group_transcript, group_ext_transcript};

    let ops = c1_fold_ops(label, fresh, incoming, f, run);
    let head = c1_header(label, fresh, incoming, f.gate);
    let (gamma, delta) = (ext_squeeze(run.gamma), ext_squeeze(run.delta));
    let first = ext_round_ops(f.first, run.rho, run.rho.len());
    let (u, v) = (ext_absorb(f.g_v), ext_absorb(f.g_e));
    let second = ext_round_ops(f.second, run.sigma, run.sigma.len());
    let last = ext_absorb(f.end);
    lemma_ext_ops(run.gamma);
    lemma_ext_ops(run.delta);
    lemma_ext_ops(f.g_v);
    lemma_ext_ops(f.g_e);
    lemma_ext_ops(f.end);
    let middle = u + v + delta;
    let tail = middle + (second + last);
    assert(ops =~= (head + gamma) + (first + tail));
    assert forall|x: Lin| #[trigger] absorbed_in(head, x) implies heard(
        ops,
        x,
        run.gamma.lo,
    ) && heard(ops, x, run.gamma.hi) by {
        assert(heard(head + gamma, x, run.gamma.lo) && heard(head + gamma, x, run.gamma.hi));
    }
    lemma_ext_rounds_heard(f.first, run.rho, run.rho.len());
    lemma_ext_rounds_heard(f.second, run.sigma, run.sigma.len());
    assert forall|x: ExtLin, c: ExtLin| #[trigger] ext_heard(tail, x, c) implies ext_heard(
        ops,
        x,
        c,
    ) by {
        assert(ext_heard(first + tail, x, c));
    }
    assert forall|i: int, k: int| 0 <= i <= k < run.rho.len() implies ext_heard(
        ops,
        #[trigger] f.first[i][0],
        #[trigger] run.rho[k],
    ) && ext_heard(ops, f.first[i][1], run.rho[k]) by {
        let (x, y, c) = (f.first[i][0], f.first[i][1], run.rho[k]);
        assert(ext_heard(first, x, c) && ext_heard(first, y, c));
        assert(ext_heard(first + tail, x, c) && ext_heard(first + tail, y, c));
    }
    assert(ext_absorbed_in(u + v, f.g_v) && ext_absorbed_in(u + v, f.g_e));
    assert(ext_heard(middle, f.g_v, run.delta) && ext_heard(middle, f.g_e, run.delta));
    assert(ext_heard(tail, f.g_v, run.delta) && ext_heard(tail, f.g_e, run.delta));
    assert forall|i: int, k: int| 0 <= i <= k < run.sigma.len() implies ext_heard(
        ops,
        #[trigger] f.second[i][0],
        #[trigger] run.sigma[k],
    ) && ext_heard(ops, f.second[i][1], run.sigma[k]) by {
        let (x, y, c) = (f.second[i][0], f.second[i][1], run.sigma[k]);
        assert(ext_heard(second, x, c) && ext_heard(second, y, c));
        assert(ext_heard(second + last, x, c) && ext_heard(second + last, y, c));
        assert(ext_heard(tail, x, c) && ext_heard(tail, y, c));
    }
    assert(ext_absorbed_in(second + last, f.end));
    assert(ext_absorbed_in(tail, f.end));
    assert(ext_absorbed_in(first + tail, f.end));
}

} // verus!
