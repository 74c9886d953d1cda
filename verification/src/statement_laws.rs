//! What the statements of the spine verifiers bind: every claim's hash and every path's
//! root, each over its own slots, and all of it heard by the channel.

use vstd::prelude::*;
use crate::accepted_claim_hash::{
    claim_ops, claims_ops, claims_terms, claims_values, ClaimLins, ACCEPTED_CLAIM_FIELDS,
};
use crate::batch_eval::terms_at;
use crate::channel::Op;
use crate::circuit::{prefix, Lin, Row};
use crate::field::F128;
use crate::gadget::{holds_past, lemma_past_split};
use crate::merkle_killshot::{
    batch_claims, lemma_batch_shape, path_ops, path_slots, paths_ops, sibling_ops, statement_ops,
};
use crate::merkle_path::{lemma_path_binds, lemma_path_shape, node_at, path_claims, PathLins};
use crate::bits::weighted;
use crate::poseidon::Permutation;
use crate::round_poly::absorbs;
use crate::spine_claims::{
    lemma_sponge_binds, relation_holds, relations_hold, slot_follows, sponge_state, sponge_terms,
    sponge_values,
};
use crate::transcript_laws::{absorbed_in, lemma_absorbed_join, lemma_absorbs};

verus! {

// ---------------------------------------------------------------------------
// Relations
// ---------------------------------------------------------------------------

/// Joined relations hold apart.
proof fn lemma_relations_apart(
    a: Seq<Seq<(nat, Lin)>>,
    x: Seq<Lin>,
    b: Seq<Seq<(nat, Lin)>>,
    y: Seq<Lin>,
    column: Seq<F128>,
    z: Seq<F128>,
)
    requires
        a.len() == x.len(),
        b.len() == y.len(),
        relations_hold(a + b, x + y, column, z),
    ensures
        relations_hold(a, x, column, z),
        relations_hold(b, y, column, z),
{
    let (terms, values) = (a + b, x + y);
    assert forall|k: int| 0 <= k < x.len() implies relation_holds(
        terms_at(#[trigger] a[k], z),
        x[k].eval(z),
        column,
    ) by {
        assert(terms[k] == a[k] && values[k] == x[k]);
    }
    assert forall|k: int| 0 <= k < y.len() implies relation_holds(
        terms_at(#[trigger] b[k], z),
        y[k].eval(z),
        column,
    ) by {
        assert(terms[a.len() + k] == b[k] && values[x.len() + k] == y[k]);
    }
}

/// The claims have their fields and the two lanes of their hash.
pub open spec fn claims_shaped(claims: Seq<ClaimLins>) -> bool {
    forall|i: int|
        0 <= i < claims.len() ==> (#[trigger] claims[i]).fields.len() == ACCEPTED_CLAIM_FIELDS
            && claims[i].expected.len() == 2
}

proof fn lemma_claims_shape(p: Permutation, iv: Seq<F128>, claims: Seq<ClaimLins>, n: nat)
    requires
        claims_shaped(claims),
        n <= claims.len(),
    ensures
        claims_terms(p, n).len() == claims_values(p, iv, claims, n).len(),
    decreases n,
{
    if n > 0 {
        lemma_claims_shape(p, iv, claims, (n - 1) as nat);
        assert(claims[n - 1].expected.len() == 2);
    }
}

/// What the relations of a batch of claims bind: over slots that follow the
/// permutation, the lanes of every claim are the sponge's hash of its fields, two to a
/// block.
pub proof fn lemma_claims_bound(
    p: Permutation,
    iv: Seq<F128>,
    claims: Seq<ClaimLins>,
    n: nat,
    i: int,
    column: Seq<F128>,
    z: Seq<F128>,
)
    requires
        claims_shaped(claims),
        0 <= i < n <= claims.len(),
        forall|j: nat| j < n * 40 ==> #[trigger] slot_follows(p, column, j),
        relations_hold(claims_terms(p, n), claims_values(p, iv, claims, n), column, z),
    ensures
        ({
            let fields = claims[i].fields;
            let blocks = Seq::new(
                40,
                |k: int| seq![fields[2 * k].eval(z), fields[2 * k + 1].eval(z)],
            );
            let s = sponge_state(p, iv, blocks, 40);
            claims[i].expected[0].eval(z) == s[0] && claims[i].expected[1].eval(z) == s[1]
        }),
    decreases n,
{
    let m = (n - 1) as nat;
    lemma_claims_shape(p, iv, claims, m);
    let c = claims[m as int];
    assert(c.expected.len() == 2 && c.fields.len() == ACCEPTED_CLAIM_FIELDS);
    let offset = (m * 40) as nat;
    lemma_relations_apart(
        claims_terms(p, m),
        claims_values(p, iv, claims, m),
        sponge_terms(p, 40, 2, offset),
        sponge_values(p, iv, c.blocks(), c.expected),
        column,
        z,
    );
    if i < m {
        lemma_claims_bound(p, iv, claims, m, i, column, z);
    } else {
        assert forall|j: nat| j < c.blocks().len() implies #[trigger] slot_follows(
            p,
            column,
            offset + j,
        ) by {}
        lemma_sponge_binds(p, iv, c.blocks(), c.expected, offset, column, z);
        let fields = c.fields;
        let blocks = Seq::new(
            40,
            |k: int| seq![fields[2 * k].eval(z), fields[2 * k + 1].eval(z)],
        );
        let at = crate::spine_claims::blocks_at(c.blocks(), z);
        assert forall|k: int| 0 <= k < 40 implies at[k] =~= #[trigger] blocks[k] by {}
        assert(at =~= blocks);
        assert(c.expected[0].eval(z) == sponge_state(p, iv, at, 40)[0]);
        assert(c.expected[1].eval(z) == sponge_state(p, iv, at, 40)[1]);
    }
}

/// What the relations of a batch of paths bind: over slots that follow the permutation,
/// with directions that are bits, every path's root is the node that its leaf and
/// siblings make.
pub proof fn lemma_paths_bound(
    c: Seq<Row>,
    p: Permutation,
    iv: Seq<F128>,
    paths: Seq<PathLins>,
    n: nat,
    i: int,
    column: Seq<F128>,
    z: Seq<F128>,
)
    requires
        0 <= i < n <= paths.len(),
        forall|k: int| 0 <= k < n ==> (#[trigger] paths[k]).wf(paths[k].bits.len()),
        forall|k: int, l: int|
            0 <= k < n && 0 <= l < paths[k].bits.len() ==> (#[trigger] paths[k].bits[l]).eval(
                z,
            ).is_bit(),
        forall|j: nat| j < path_slots(paths, n) ==> #[trigger] slot_follows(p, column, j),
        holds_past(batch_claims(c, p, iv, paths, n).0, c.len(), z),
        relations_hold(
            batch_claims(c, p, iv, paths, n).1,
            batch_claims(c, p, iv, paths, n).2,
            column,
            z,
        ),
    ensures
        paths[i].at(z).root == node_at(p, iv, paths[i].at(z), paths[i].bits.len()),
    decreases n,
{
    let m = (n - 1) as nat;
    let (c1, terms, values) = batch_claims(c, p, iv, paths, m);
    lemma_batch_shape(c, p, iv, paths, m);
    let path = paths[m as int];
    let offset = path_slots(paths, m);
    let (c2, t, v) = path_claims(c1, p, iv, path, offset);
    lemma_path_shape(c1, p, iv, path, offset);
    lemma_relations_apart(terms, values, t, v, column, z);
    assert(c.len() <= c1.len()) by {
        reveal(prefix);
    }
    lemma_past_split(c2, c1, c.len(), z);
    if i < m {
        lemma_paths_bound(c, p, iv, paths, m, i, column, z);
    } else {
        let depth = path.bits.len();
        assert(path.wf(depth));
        assert forall|l: int| 0 <= l < depth implies (#[trigger] path.bits[l]).eval(
            z,
        ).is_bit() by {
            assert(paths[m as int].bits[l].eval(z).is_bit());
        }
        assert forall|j: nat| j < 2 * depth implies #[trigger] slot_follows(
            p,
            column,
            offset + j,
        ) by {}
        lemma_path_binds(c1, p, iv, path, depth, offset, column, z);
    }
}

// ---------------------------------------------------------------------------
// Statements
// ---------------------------------------------------------------------------

/// The channel hears every field and the hash of every claim.
pub proof fn lemma_claims_heard(claims: Seq<ClaimLins>, tag: nat, n: nat, i: int, k: int)
    requires
        0 <= i < n <= claims.len(),
    ensures
        0 <= k < claims[i].fields.len() ==> absorbed_in(
            claim_ops(claims, n),
            claims[i].fields[k],
        ),
        0 <= k < claims[i].expected.len() ==> absorbed_in(
            claim_ops(claims, n),
            claims[i].expected[k],
        ),
        n == claims.len() ==> forall|x: Lin| #[trigger]
            absorbed_in(claim_ops(claims, n), x) ==> absorbed_in(claims_ops(claims, tag), x),
    decreases n,
{
    broadcast use lemma_absorbed_join;

    let m = (n - 1) as nat;
    let before = claim_ops(claims, m);
    let (a, b) = (absorbs(claims[m as int].fields), absorbs(claims[m as int].expected));
    assert(claim_ops(claims, n) == before + a + b);
    if i < m {
        lemma_claims_heard(claims, tag, m, i, k);
        if 0 <= k < claims[i].fields.len() {
            assert(absorbed_in(before + a, claims[i].fields[k]));
        }
        if 0 <= k < claims[i].expected.len() {
            assert(absorbed_in(before + a, claims[i].expected[k]));
        }
    } else {
        if 0 <= k < claims[i].fields.len() {
            lemma_absorbs(claims[i].fields, k);
            assert(absorbed_in(before + a, claims[i].fields[k]));
        }
        if 0 <= k < claims[i].expected.len() {
            lemma_absorbs(claims[i].expected, k);
        }
    }
}

proof fn lemma_siblings_heard(siblings: Seq<Seq<Lin>>, n: nat, k: int)
    requires
        0 <= k < n,
    ensures
        absorbed_in(sibling_ops(siblings, n), siblings[k][0]),
        absorbed_in(sibling_ops(siblings, n), siblings[k][1]),
    decreases n,
{
    broadcast use lemma_absorbed_join;

    let before = sibling_ops(siblings, (n - 1) as nat);
    let (x, y) = (siblings[n - 1][0], siblings[n - 1][1]);
    let pair = seq![Op::Absorb(x), Op::Absorb(y)];
    assert(sibling_ops(siblings, n) =~= before + pair);
    assert(pair[0] == Op::Absorb(x) && pair[1] == Op::Absorb(y));
    assert(absorbed_in(pair, x) && absorbed_in(pair, y));
    if k < n - 1 {
        lemma_siblings_heard(siblings, (n - 1) as nat, k);
    }
}

proof fn lemma_path_heard(path: PathLins)
    requires
        path.wf(path.bits.len()),
    ensures
        absorbed_in(path_ops(path), path.root[0]),
        absorbed_in(path_ops(path), path.root[1]),
        absorbed_in(path_ops(path), path.leaf[0]),
        absorbed_in(path_ops(path), path.leaf[1]),
        absorbed_in(path_ops(path), weighted(path.bits, 0)),
        forall|k: int|
            0 <= k < path.siblings.len() ==> absorbed_in(
                path_ops(path),
                (#[trigger] path.siblings[k])[0],
            ) && absorbed_in(path_ops(path), path.siblings[k][1]),
{
    broadcast use lemma_absorbed_join;

    let ops = path_ops(path);
    let head = seq![
        crate::merkle_killshot::constant_op(path.bits.len()),
        Op::Absorb(path.root[0]),
        Op::Absorb(path.root[1]),
        Op::Absorb(path.leaf[0]),
        Op::Absorb(path.leaf[1]),
    ];
    let sibs = sibling_ops(path.siblings, path.bits.len());
    let last = seq![Op::Absorb(weighted(path.bits, 0))];
    assert(ops =~= head + (sibs + last));
    assert(ops[1] == head[1] && ops[2] == head[2] && ops[3] == head[3] && ops[4] == head[4]);
    assert(last[0] == Op::Absorb(weighted(path.bits, 0)));
    assert(absorbed_in(last, weighted(path.bits, 0)));
    assert(absorbed_in(sibs + last, weighted(path.bits, 0)));
    assert forall|k: int| 0 <= k < path.siblings.len() implies absorbed_in(
        ops,
        (#[trigger] path.siblings[k])[0],
    ) && absorbed_in(ops, path.siblings[k][1]) by {
        lemma_siblings_heard(path.siblings, path.bits.len(), k);
        assert(absorbed_in(sibs + last, path.siblings[k][0]));
        assert(absorbed_in(sibs + last, path.siblings[k][1]));
    }
}

/// The channel hears every path: its root, its leaf, its siblings, and its directions.
pub proof fn lemma_paths_heard(paths: Seq<PathLins>, tag: nat, i: int)
    requires
        0 <= i < paths.len(),
        paths[i].wf(paths[i].bits.len()),
    ensures
        ({
            let ops = statement_ops(paths, tag);
            let path = paths[i];
            &&& absorbed_in(ops, path.root[0]) && absorbed_in(ops, path.root[1])
            &&& absorbed_in(ops, path.leaf[0]) && absorbed_in(ops, path.leaf[1])
            &&& absorbed_in(ops, weighted(path.bits, 0))
            &&& forall|k: int|
                0 <= k < path.siblings.len() ==> absorbed_in(
                    ops,
                    (#[trigger] path.siblings[k])[0],
                ) && absorbed_in(ops, path.siblings[k][1])
        }),
{
    broadcast use lemma_absorbed_join;

    lemma_path_heard(paths[i]);
    lemma_paths_keep(paths, paths.len(), i);
    let ops = statement_ops(paths, tag);
    let all = paths_ops(paths, paths.len());
    assert forall|x: Lin| #[trigger] absorbed_in(path_ops(paths[i]), x) implies absorbed_in(
        ops,
        x,
    ) by {
        assert(absorbed_in(all, x));
    }
}

proof fn lemma_paths_keep(paths: Seq<PathLins>, n: nat, i: int)
    requires
        0 <= i < n,
    ensures
        forall|x: Lin| #[trigger]
            absorbed_in(path_ops(paths[i]), x) ==> absorbed_in(paths_ops(paths, n), x),
    decreases n,
{
    broadcast use lemma_absorbed_join;

    if i < n - 1 {
        lemma_paths_keep(paths, (n - 1) as nat, i);
    }
}

} // verus!
