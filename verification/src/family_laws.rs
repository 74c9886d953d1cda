//! An honest spine family: its four sumchecks accept, each from what the one before it
//! leaves open.

use vstd::prelude::*;
use vstd::arithmetic::power2::pow2;
use crate::batch_eval::{
    columns_at, columns_weights, pair_evals, relations_at, reversed, rlc_weights, rows_at,
};
use crate::batch_laws::{
    all_true_of, extended, honest_pairs, lemma_honest_linear_accepted, lemma_honest_multi_accepted,
    linear_terms_of, multi_terms, relations_true_of, true_of, values_at,
};
use crate::circuit::Lin;
use crate::field::F128;
use crate::multilinear::evals_at;
use crate::poseidon::Permutation;
use crate::replay_laws::{
    lemma_replayed_affine, lemma_replayed_spine_accepted, opens_replayed, replayed,
};
use crate::round_poly::rows_evals;
use crate::shift_laws::{columns_values, shift_terms};
use crate::spine_family::{family_checked, family_points, family_values, FamilyLins, FamilyRun};
use crate::spine_laws::{open_at, spine_terms};
use crate::sumcheck::{honest_polys, lemma_affine_unique};

verus! {

/// The columns in the order in which the closing sumcheck takes them: the states, the
/// S-box inputs, the S-box outputs.
pub open spec fn closing_columns(p: Permutation, raws: Seq<Seq<F128>>) -> Seq<
    spec_fn(Seq<F128>) -> F128,
> {
    seq![replayed(p, raws)[2], replayed(p, raws)[0], replayed(p, raws)[1]]
}

/// The points of a run's four sumchecks.
pub open spec fn point_of(challenges: Seq<Lin>, z: Seq<F128>) -> Seq<F128> {
    reversed(evals_at(challenges, z))
}

/// The messages and values of a family are the honest ones for the columns of slots
/// that start from `raws`, as opened by `cols`.
pub open spec fn honest_family(
    run: FamilyRun,
    p: Permutation,
    raws: Seq<Seq<F128>>,
    cols: Seq<spec_fn(Seq<F128>) -> F128>,
    f: FamilyLins,
    terms: Seq<Seq<(nat, Lin)>>,
    values: Seq<Lin>,
    d: nat,
    n: nat,
    z: Seq<F128>,
) -> bool {
    let g = replayed(p, raws);
    let (c1, c2) = (evals_at(run.unified.challenges, z), evals_at(run.shift.challenges, z));
    let (c3, c4) = (evals_at(run.linear.challenges, z), evals_at(run.multi.challenges, z));
    let points = columns_at(
        family_points(
            reversed(run.unified.challenges),
            reversed(run.shift.challenges),
            reversed(run.linear.challenges),
        ),
        z,
    );
    let claims = rows_at(family_values(f.opened[3], f.columns, f.chain_final), z);
    &&& rows_evals(f.main, z) == honest_polys(
        spine_terms(
            p,
            cols,
            evals_at(run.unified.rho, z),
            run.unified.beta.eval(z),
            run.unified.gamma.eval(z),
            raws.len(),
        ),
        d,
        n,
        c1,
    )
    &&& evals_at(f.opened, z) == open_at(cols, reversed(c1))
    &&& rows_evals(f.shift, z) == honest_polys(
        shift_terms(g, reversed(c1), run.shift.delta.eval(z)),
        2,
        n,
        c2,
    )
    &&& evals_at(f.columns, z) == columns_values(g, reversed(c2))
    &&& pair_evals(f.chain, z) == honest_pairs(
        linear_terms_of(
            g[2],
            rlc_weights(evals_at(run.linear.levels, z), values.len()),
            relations_at(terms, z),
            values.len(),
        ),
        n,
        c3,
    )
    &&& f.chain_final.eval(z) == g[2](reversed(c3))
    &&& pair_evals(f.batch, z) == honest_pairs(
        multi_terms(
            closing_columns(p, raws),
            columns_weights(rows_at(run.multi.levels, z), claims),
            points,
            3,
        ),
        n,
        c4,
    )
    &&& evals_at(f.finals, z) == values_at(closing_columns(p, raws), reversed(c4))
}

/// An honest family is accepted: with relations that are true of the states, all four
/// sumchecks hold, whatever the challenges.
pub proof fn lemma_honest_family_accepted(
    run: FamilyRun,
    p: Permutation,
    raws: Seq<Seq<F128>>,
    cols: Seq<spec_fn(Seq<F128>) -> F128>,
    f: FamilyLins,
    terms: Seq<Seq<(nat, Lin)>>,
    values: Seq<Lin>,
    d: nat,
    n: nat,
    z: Seq<F128>,
)
    requires
        p.rounds() < 128,
        n >= 9,
        d >= 9,
        raws.len() <= pow2((n - 9) as nat),
        run.unified.rho.len() == n,
        run.unified.challenges.len() == n,
        run.shift.challenges.len() == n,
        run.linear.challenges.len() == n,
        run.multi.challenges.len() == n,
        f.opened.len() == 12,
        f.columns.len() == 3,
        opens_replayed(p, raws, cols, n),
        relations_true_of(replayed(p, raws)[2], relations_at(terms, z), evals_at(values, z), n),
        honest_family(run, p, raws, cols, f, terms, values, d, n, z),
    ensures
        family_checked(run, p, raws.len(), f, terms, values, z),
{
    let g = replayed(p, raws);
    let (c1, c2) = (evals_at(run.unified.challenges, z), evals_at(run.shift.challenges, z));
    let (c3, c4) = (evals_at(run.linear.challenges, z), evals_at(run.multi.challenges, z));
    let (x1, x2, x3) = (reversed(c1), reversed(c2), reversed(c3));
    assert(evals_at(reversed(run.unified.challenges), z) =~= x1);
    assert(evals_at(reversed(run.shift.challenges), z) =~= x2);
    assert(evals_at(reversed(run.linear.challenges), z) =~= x3);
    // The unified and the shift sumcheck.
    lemma_replayed_spine_accepted(
        p,
        raws,
        cols,
        evals_at(run.unified.rho, z),
        run.unified.beta.eval(z),
        run.unified.gamma.eval(z),
        c1,
        run.shift.delta.eval(z),
        c2,
        d,
    );
    // The relations.
    lemma_replayed_affine(p, raws, n, 0);
    lemma_replayed_affine(p, raws, n, 1);
    lemma_replayed_affine(p, raws, n, 2);
    lemma_honest_linear_accepted(
        g[2],
        relations_at(terms, z),
        evals_at(values, z),
        evals_at(run.linear.levels, z),
        c3,
    );
    assert(evals_at(values, z).len() == values.len());
    // The closing sumcheck.
    let opened = evals_at(f.opened, z);
    let columns = evals_at(f.columns, z);
    assert(opened[3] == f.opened[3].eval(z));
    assert(columns[0] == f.columns[0].eval(z) && columns[1] == f.columns[1].eval(z) && columns[2]
        == f.columns[2].eval(z));
    lemma_affine_unique(cols[3], g[2], n, x1);
    let rp = reversed(run.unified.challenges);
    let r2 = reversed(run.shift.challenges);
    let chain = reversed(run.linear.challenges);
    let points = columns_at(family_points(rp, r2, chain), z);
    let claims = rows_at(family_values(f.opened[3], f.columns, f.chain_final), z);
    assert(points[0] =~= seq![x1, x2, x3]);
    assert(points[1] =~= seq![x2]);
    assert(points[2] =~= seq![x2]);
    assert(claims[0] =~= seq![g[2](x1), g[2](x2), g[2](x3)]);
    assert(claims[1] =~= seq![g[0](x2)]);
    assert(claims[2] =~= seq![g[1](x2)]);
    let gs = closing_columns(p, raws);
    assert forall|i: int| 0 <= i < 3 implies true_of(
        #[trigger] gs[i],
        points[i],
        claims[i],
        n,
    ) by {
        assert forall|k: int| 0 <= k < points[i].len() implies (#[trigger] points[i][k]).len() == n
            && claims[i][k] == gs[i](points[i][k]) by {
            assert(i == 0 || i == 1 || i == 2);
            assert(k == 0 || k == 1 || k == 2);
        }
    }
    assert forall|i: int| 0 <= i < 3 implies extended(#[trigger] gs[i], n) by {
        assert(i == 0 || i == 1 || i == 2);
    }
    assert(all_true_of(gs, points, claims, n));
    lemma_honest_multi_accepted(gs, points, claims, rows_at(run.multi.levels, z), c4);
}

} // verus!
