//! What the prepared structural region holds: tuples of two children and their parent,
//! each of which hashes.

use vstd::prelude::*;
use crate::field::F128;
use crate::poseidon::{compressed, Permutation};
use crate::state_roots::StateHashing;
use crate::structural_frontier::StructuralFrontierPlan;
use crate::structural_region::{empty_parent, half_value, half_values, node_value, zeros};

verus! {

/// The digests of combined nodes are those of their children: each is the hash of what
/// its plan node refers to.
pub open spec fn combines_hash(
    p: Permutation,
    iv: Seq<F128>,
    plan: &StructuralFrontierPlan,
    leaves: Seq<[F128; 2]>,
    siblings: Seq<[F128; 2]>,
    combines: Seq<[F128; 2]>,
) -> bool {
    forall|i: int|
        0 <= i < plan.combines@.len() ==> (#[trigger] combines[i])@ == compressed(
            p,
            iv,
            node_value(plan.combines@[i].left, leaves, siblings, combines),
            node_value(plan.combines@[i].right, leaves, siblings, combines),
        )
}

/// Six lanes are a left child, a right child, and their hash.
pub open spec fn tuple_hashes(p: Permutation, iv: Seq<F128>, s: Seq<F128>) -> bool {
    s.len() == 6 && s.subrange(4, 6) == compressed(p, iv, s.subrange(0, 2), s.subrange(2, 4))
}

/// Where every combined node is the hash of its children, so is every tuple of the
/// region over its full width, those of the padding too.
pub proof fn lemma_tuples_hash(
    hashing: &StateHashing,
    plan: &StructuralFrontierPlan,
    leaves: Seq<[F128; 2]>,
    siblings: Seq<[F128; 2]>,
    combines: Seq<[F128; 2]>,
    n: nat,
    i: int,
)
    requires
        combines_hash(hashing.tables@, hashing.node_iv@, plan, leaves, siblings, combines),
        0 <= i < n,
    ensures
        half_values(plan, leaves, siblings, combines, empty_parent(hashing), n).len() == 6 * n,
        tuple_hashes(
            hashing.tables@,
            hashing.node_iv@,
            half_values(plan, leaves, siblings, combines, empty_parent(hashing), n).subrange(
                6 * i,
                6 * i + 6,
            ),
        ),
{
    let ghost_parent = empty_parent(hashing);
    lemma_tuple_place(plan, leaves, siblings, combines, ghost_parent, n, i);
    let v = half_value(plan, leaves, siblings, combines, ghost_parent, i);
    if i < plan.combines@.len() {
        let l = node_value(plan.combines@[i].left, leaves, siblings, combines);
        let r = node_value(plan.combines@[i].right, leaves, siblings, combines);
        assert(v.subrange(0, 2) =~= l);
        assert(v.subrange(2, 4) =~= r);
        assert(v.subrange(4, 6) =~= combines[i]@);
    } else {
        assert(v.subrange(0, 2) =~= zeros(2));
        assert(v.subrange(2, 4) =~= zeros(2));
        assert(v.subrange(4, 6) =~= ghost_parent);
    }
}

proof fn lemma_tuple_place(
    plan: &StructuralFrontierPlan,
    leaves: Seq<[F128; 2]>,
    siblings: Seq<[F128; 2]>,
    combines: Seq<[F128; 2]>,
    ghost_parent: Seq<F128>,
    n: nat,
    i: int,
)
    requires
        ghost_parent.len() == 2,
        0 <= i < n,
    ensures
        half_values(plan, leaves, siblings, combines, ghost_parent, n).len() == 6 * n,
        half_value(plan, leaves, siblings, combines, ghost_parent, i).len() == 6,
        half_values(plan, leaves, siblings, combines, ghost_parent, n).subrange(6 * i, 6 * i + 6)
            == half_value(plan, leaves, siblings, combines, ghost_parent, i),
    decreases n,
{
    let m = (n - 1) as nat;
    let before = half_values(plan, leaves, siblings, combines, ghost_parent, m);
    let last = half_value(plan, leaves, siblings, combines, ghost_parent, n - 1);
    let all = half_values(plan, leaves, siblings, combines, ghost_parent, n);
    if m > 0 {
        lemma_tuple_place(
            plan,
            leaves,
            siblings,
            combines,
            ghost_parent,
            m,
            if i < m {
                i
            } else {
                0
            },
        );
    }
    if i < m {
        assert(all.subrange(6 * i, 6 * i + 6) =~= before.subrange(6 * i, 6 * i + 6));
    } else {
        assert(all.subrange(6 * i, 6 * i + 6) =~= last);
    }
}

} // verus!
