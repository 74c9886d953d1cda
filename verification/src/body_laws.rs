//! What the slots of a transaction body compute: the Merkle tree of its leaves, and the
//! root under the wrap.

use vstd::prelude::*;
use crate::field::F128;
use crate::poseidon::{compressed, permuted, Permutation};
use crate::tx_body_spine::{layout_ok, slot_input, slot_ok, slot_outputs, InstanceRole, SpineSlot};

verus! {

/// The digest of a node of the tree: a leaf, or the hash of its two children.
pub open spec fn tree_digest(
    p: Permutation,
    iv: Seq<F128>,
    leaves: Seq<Seq<F128>>,
    level: nat,
    pos: int,
) -> Seq<F128>
    decreases level,
{
    if level == 0 {
        leaves[pos]
    } else {
        compressed(
            p,
            iv,
            tree_digest(p, iv, leaves, (level - 1) as nat, 2 * pos),
            tree_digest(p, iv, leaves, (level - 1) as nat, 2 * pos + 1),
        )
    }
}

/// A child at a level: a leaf below the first, else the slot that ends the node.
pub open spec fn child_of(slots: Seq<SpineSlot>, child: Option<usize>, level: int, pos: int) -> bool {
    match child {
        None => level == 0,
        Some(k) => match slots[k as int].role {
            InstanceRole::CompressPermB { level: l, pos: q } => level > 0 && l == level && q == pos,
            _ => false,
        },
    }
}

/// The slots lay out a tree: the slot that ends a node continues the one that starts
/// it, and their children are the node's.
pub open spec fn lays_out(slots: Seq<SpineSlot>, iv: Seq<F128>) -> bool {
    &&& layout_ok(slots)
    &&& forall|i: int|
        0 <= i < slots.len() ==> (#[trigger] slots[i].role is CompressPermB ==> ends_node(
            slots,
            iv,
            i,
        ))
}

pub open spec fn ends_node(slots: Seq<SpineSlot>, iv: Seq<F128>, i: int) -> bool {
    let s = slots[i];
    let (level, pos) = (s.role->CompressPermB_level, s.role->CompressPermB_pos);
    match s.prev_output_src {
        Some(a) => {
            &&& a < i
            &&& slots[a as int].role == (InstanceRole::CompressPermA { level, pos })
            &&& slots[a as int].capacity_iv@ == iv
            &&& level > 0
            &&& child_of(slots, slots[a as int].left_child, level - 1, 2 * pos)
            &&& child_of(slots, s.right_child, level - 1, 2 * pos + 1)
        },
        None => false,
    }
}

proof fn lemma_outputs_kept(
    p: Permutation,
    slots: Seq<SpineSlot>,
    leaves: Seq<Seq<F128>>,
    n: nat,
    i: int,
)
    requires
        0 <= i < n,
    ensures
        slot_outputs(p, slots, leaves, n).len() == n,
        slot_outputs(p, slots, leaves, n)[i] == slot_outputs(p, slots, leaves, (i + 1) as nat)[i],
    decreases n,
{
    lemma_outputs_len(p, slots, leaves, n);
    lemma_outputs_len(p, slots, leaves, (n - 1) as nat);
    if i < n - 1 {
        lemma_outputs_kept(p, slots, leaves, (n - 1) as nat, i);
    }
}

proof fn lemma_outputs_len(p: Permutation, slots: Seq<SpineSlot>, leaves: Seq<Seq<F128>>, n: nat)
    ensures
        slot_outputs(p, slots, leaves, n).len() == n,
    decreases n,
{
    if n > 0 {
        lemma_outputs_len(p, slots, leaves, (n - 1) as nat);
    }
}

/// A slot ends on the permutation of what it starts from, whichever slots come after.
proof fn lemma_output(
    p: Permutation,
    slots: Seq<SpineSlot>,
    leaves: Seq<Seq<F128>>,
    n: nat,
    i: int,
)
    requires
        0 <= i < n <= slots.len(),
        slot_ok(slots[i], i),
    ensures
        slot_outputs(p, slots, leaves, n)[i] == permuted(
            p,
            slot_input(slots[i], leaves, slot_outputs(p, slots, leaves, n)),
        ),
{
    let outs = slot_outputs(p, slots, leaves, n);
    let before = slot_outputs(p, slots, leaves, i as nat);
    lemma_outputs_kept(p, slots, leaves, n, i);
    lemma_outputs_len(p, slots, leaves, i as nat);
    assert forall|k: int| 0 <= k < i implies outs[k] == #[trigger] before[k] by {
        lemma_outputs_kept(p, slots, leaves, n, k);
        lemma_outputs_kept(p, slots, leaves, i as nat, k);
    }
    if let Some(k) = slots[i].left_child {
        if k < i {
            assert(outs[k as int] == before[k as int]);
        }
    }
    if let Some(k) = slots[i].right_child {
        if k < i {
            assert(outs[k as int] == before[k as int]);
        }
    }
    if let Some(k) = slots[i].prev_output_src {
        if k < i {
            assert(outs[k as int] == before[k as int]);
        }
    }
}

/// The slot that ends a node ends on the node's digest.
pub proof fn lemma_node_digest(
    p: Permutation,
    slots: Seq<SpineSlot>,
    iv: Seq<F128>,
    leaves: Seq<Seq<F128>>,
    i: int,
)
    requires
        lays_out(slots, iv),
        0 <= i < slots.len(),
        slots[i].role is CompressPermB,
        iv.len() == 2,
    ensures
        ({
            let out = slot_outputs(p, slots, leaves, slots.len())[i];
            seq![out[0], out[1]] == tree_digest(
                p,
                iv,
                leaves,
                slots[i].role->CompressPermB_level as nat,
                slots[i].role->CompressPermB_pos as int,
            )
        }),
    decreases i,
{
    let n = slots.len();
    let outs = slot_outputs(p, slots, leaves, n);
    assert(ends_node(slots, iv, i));
    assert(slot_ok(slots[i], i));
    let a = slots[i].prev_output_src->0 as int;
    assert(slot_ok(slots[a], a));
    lemma_output(p, slots, leaves, n, i);
    lemma_output(p, slots, leaves, n, a);
    let (level, pos) = (slots[i].role->CompressPermB_level, slots[i].role->CompressPermB_pos);
    if let Some(k) = slots[a].left_child {
        assert(slots[k as int].role is CompressPermB);
        lemma_node_digest(p, slots, iv, leaves, k as int);
    }
    if let Some(k) = slots[i].right_child {
        assert(slots[k as int].role is CompressPermB);
        lemma_node_digest(p, slots, iv, leaves, k as int);
    }
    let left = tree_digest(p, iv, leaves, (level - 1) as nat, 2 * pos);
    let right = tree_digest(p, iv, leaves, (level - 1) as nat, 2 * pos + 1);
    assert(slot_input(slots[a], leaves, outs) =~= seq![left[0], left[1], iv[0], iv[1]]);
    let s = outs[a];
    assert(slot_input(slots[i], leaves, outs) =~= seq![
        s[0].plus(right[0]),
        s[1].plus(right[1]),
        s[2],
        s[3],
    ]);
}

/// The wrap ends on the permutation of the root's digest over its own capacity.
pub proof fn lemma_wrap_digest(
    p: Permutation,
    slots: Seq<SpineSlot>,
    iv: Seq<F128>,
    leaves: Seq<Seq<F128>>,
    i: int,
    level: nat,
)
    requires
        lays_out(slots, iv),
        0 <= i < slots.len(),
        slots[i].role is WrapPerm,
        slots[i].left_child is Some,
        slots[slots[i].left_child->0 as int].role is CompressPermB,
        slots[slots[i].left_child->0 as int].role->CompressPermB_level == level,
        slots[slots[i].left_child->0 as int].role->CompressPermB_pos == 0,
        iv.len() == 2,
    ensures
        ({
            let root = tree_digest(p, iv, leaves, level, 0);
            let cap = slots[i].capacity_iv;
            slot_outputs(p, slots, leaves, slots.len())[i] == permuted(
                p,
                seq![root[0], root[1], cap[0], cap[1]],
            )
        }),
{
    let k = slots[i].left_child->0 as int;
    assert(slot_ok(slots[i], i));
    lemma_output(p, slots, leaves, slots.len(), i);
    lemma_node_digest(p, slots, iv, leaves, k);
    let outs = slot_outputs(p, slots, leaves, slots.len());
    let root = tree_digest(p, iv, leaves, level, 0);
    let cap = slots[i].capacity_iv;
    assert(slot_input(slots[i], leaves, outs) =~= seq![root[0], root[1], cap[0], cap[1]]);
}

} // verus!
