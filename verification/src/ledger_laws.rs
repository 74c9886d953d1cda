//! What the bindings of a block mean together: accumulators that follow one another,
//! identifiers that do not collide, leaves that change hands, roots that chain, and
//! amounts that balance.

use vstd::prelude::*;
use vstd::arithmetic::power2::{lemma_pow2_adds, pow2};
use crate::accepted_claim_batch::{digest_lane, is_child, ChainAccumulator};
use crate::bits::{bits_value, lemma_of_nat_pack};
use crate::circuit::Lin;
use crate::exact_leaves::{leaves_match, roles_ok};
use crate::field::{group_field_units, F128};
use crate::mint_allocation::{creation_id, ids_fit, mint_count, packed_value};
use crate::paired_merkle_update::path_root;
use crate::permutation_network::row_eval;
use crate::poseidon::Permutation;
use crate::public_arithmetic::{digits_sum, page_bound, PageArithmetic, PageInputs};
use crate::segment_compaction::{links, rolled, upper_chain, UpperPaths};
use crate::state_roots::old_root_ok;

verus! {

// ---------------------------------------------------------------------------
// Accumulators
// ---------------------------------------------------------------------------

/// Expressions hold the lanes of an accumulator.
pub open spec fn holds(acc: Seq<Lin>, a: ChainAccumulator, z: Seq<F128>) -> bool {
    forall|i: int| 0 <= i < 10 ==> (#[trigger] acc[i]).eval(z) == a.lanes()[i]
}

/// Expressions hold the lanes of a digest from the given one on.
pub open spec fn holds_digest(s: Seq<Lin>, from: int, d: Seq<u8>, z: Seq<F128>) -> bool {
    s[from].eval(z) == digest_lane(d, 0) && s[from + 1].eval(z) == digest_lane(d, 1)
}

/// A transition goes to the next height. The child header names the parent, and its
/// own identifier, state root, depth and counters are those of the end. The epoch
/// anchor becomes the parent where the start's height is a multiple of an epoch, and
/// otherwise stays.
pub proof fn lemma_child_follows(
    start: Seq<Lin>,
    child: Seq<Lin>,
    end: Seq<Lin>,
    parent: Seq<Lin>,
    a: ChainAccumulator,
    b: ChainAccumulator,
    parent_id: Seq<u8>,
    z: Seq<F128>,
)
    requires
        is_child(start, child, end, parent, z),
        holds(start, a, z),
        holds(end, b, z),
        holds_digest(parent, 0, parent_id, z),
    ensures
        b.height == a.height + 1,
        holds_digest(child, 0, b.tip_semantic_id@, z),
        holds_digest(child, 2, parent_id, z),
        holds_digest(child, 4, b.state_root@, z),
        child[6].eval(z) == F128::of_nat(b.height as nat),
        child[7].eval(z) == F128::of_nat(b.log_slots as nat),
        child[8].eval(z) == F128::of_nat(b.active_slot_count as nat),
        child[9].eval(z) == F128::of_nat(b.alloc_counter as nat),
        ({
            let anchor = if a.height % 144 == 0 {
                parent_id
            } else {
                a.epoch_anchor_id@
            };
            &&& digest_lane(b.epoch_anchor_id@, 0) == digest_lane(anchor, 0)
            &&& digest_lane(b.epoch_anchor_id@, 1) == digest_lane(anchor, 1)
        }),
{
    let (x, y) = (a.lanes(), b.lanes());
    assert(start[0].eval(z) == x[0] && start[8].eval(z) == x[8] && start[9].eval(z) == x[9]);
    assert(end[0].eval(z) == y[0] && end[1].eval(z) == y[1] && end[2].eval(z) == y[2]);
    assert(end[3].eval(z) == y[3] && end[4].eval(z) == y[4] && end[5].eval(z) == y[5]);
    assert(end[6].eval(z) == y[6] && end[7].eval(z) == y[7]);
    assert(end[8].eval(z) == y[8] && end[9].eval(z) == y[9]);
    assert(F128::of_nat(a.height as nat).bits == a.height);
    assert(pow2(64) == 0x1_0000_0000_0000_0000) by {
        vstd::arithmetic::power2::lemma2_to64();
    }
    assert(F128::of_nat(b.height as nat).bits == b.height);
    assert(F128::of_nat((a.height + 1) as nat).bits == a.height + 1);
}

/// The end of a transition is determined by its start, the child header and the
/// parent.
pub proof fn lemma_child_determined(
    start: Seq<Lin>,
    child: Seq<Lin>,
    end: Seq<Lin>,
    other: Seq<Lin>,
    parent: Seq<Lin>,
    z: Seq<F128>,
    i: int,
)
    requires
        is_child(start, child, end, parent, z),
        is_child(start, child, other, parent, z),
        0 <= i < 10,
    ensures
        end[i].eval(z) == other[i].eval(z),
{
    assert(i == 0 || i == 1 || i == 2 || i == 3 || i == 4 || i == 5 || i == 6 || i == 7 || i == 8
        || i == 9);
}

// ---------------------------------------------------------------------------
// Creation identifiers
// ---------------------------------------------------------------------------

/// An action mints.
pub open spec fn mints(acts: Seq<Seq<Lin>>, i: int, z: Seq<F128>) -> bool {
    acts[i][5].eval(z) == F128::one()
}

proof fn lemma_count_grows(acts: Seq<Seq<Lin>>, m: nat, n: nat, z: Seq<F128>)
    requires
        m <= n,
    ensures
        mint_count(acts, m, z) <= mint_count(acts, n, z),
    decreases n,
{
    if m < n {
        lemma_count_grows(acts, m, (n - 1) as nat, z);
    }
}

proof fn lemma_count_still(acts: Seq<Seq<Lin>>, m: nat, n: nat, z: Seq<F128>)
    requires
        m <= n,
        forall|i: int| m <= i < n ==> !#[trigger] mints(acts, i, z),
    ensures
        mint_count(acts, m, z) == mint_count(acts, n, z),
    decreases n,
{
    if m < n {
        assert(!mints(acts, n - 1, z));
        lemma_count_still(acts, m, (n - 1) as nat, z);
    }
}

/// Identifiers go up one by one: of mints behind the first action that follow each
/// other, the later has the next identifier. The first of them is the next free one
/// but for a mint of the first action, and the last is the child's counter.
pub proof fn lemma_ids_consecutive(
    acts: Seq<Seq<Lin>>,
    parent: nat,
    height: nat,
    i: int,
    j: int,
    z: Seq<F128>,
)
    requires
        0 < j < acts.len(),
        -1 <= i < j,
        mints(acts, j, z),
        i > 0 ==> mints(acts, i, z),
        forall|k: int| i < k < j ==> !#[trigger] mints(acts, k, z),
    ensures
        i > 0 ==> creation_id(acts, parent, height, j, z) == creation_id(
            acts,
            parent,
            height,
            i,
            z,
        ) + 1,
        i == -1 ==> creation_id(acts, parent, height, j, z) == parent + 1,
        (forall|k: int| j < k < acts.len() ==> !#[trigger] mints(acts, k, z)) ==> creation_id(
            acts,
            parent,
            height,
            j,
            z,
        ) == parent + mint_count(acts, acts.len(), z),
{
    lemma_count_still(acts, (i + 1) as nat, j as nat, z);
    if i == -1 {
        assert(mint_count(acts, 0, z) == 0);
    }
    if forall|k: int| j < k < acts.len() ==> !#[trigger] mints(acts, k, z) {
        lemma_count_still(acts, (j + 1) as nat, acts.len(), z);
    }
}

/// No two mints share an identifier.
pub proof fn lemma_ids_distinct(
    acts: Seq<Seq<Lin>>,
    parent: nat,
    height: nat,
    i: int,
    j: int,
    z: Seq<F128>,
)
    requires
        ids_fit(acts, parent, acts.len(), z),
        0 <= i < j < acts.len(),
        mints(acts, i, z),
        mints(acts, j, z),
    ensures
        creation_id(acts, parent, height, i, z) != creation_id(acts, parent, height, j, z),
{
    assert(acts[j][5].eval(z) == F128::one());
    if i > 0 {
        lemma_count_grows(acts, (i + 1) as nat, j as nat, z);
    }
}

/// What a mint packs is its amount below and its identifier above.
pub proof fn lemma_packed_parts(
    acts: Seq<Seq<Lin>>,
    parent: nat,
    height: nat,
    i: int,
    z: Seq<F128>,
)
    requires
        ids_fit(acts, parent, acts.len(), z),
        0 <= i < acts.len(),
        mints(acts, i, z),
        acts[i][2].eval(z).bits < pow2(64),
    ensures
        packed_value(acts, parent, height, i, z).bits % 0x1_0000_0000_0000_0000
            == acts[i][2].eval(z).bits,
        packed_value(acts, parent, height, i, z).bits / 0x1_0000_0000_0000_0000 == creation_id(
            acts,
            parent,
            height,
            i,
            z,
        ),
{
    vstd::arithmetic::power2::lemma2_to64();
    let id = creation_id(acts, parent, height, i, z);
    let low = acts[i][2].eval(z).bits as nat;
    assert(acts[i][5].eval(z) == F128::one());
    assert(pow2(64) == 0x1_0000_0000_0000_0000);
    lemma_pow2_adds(63, 1);
    assert(pow2(64) == 2 * pow2(63));
    assert(id < pow2(64)) by {
        if i == 0 {
            assert(height % pow2(63) < pow2(63)) by {
                vstd::arithmetic::power2::lemma_pow2_pos(63);
            }
        }
    }
    lemma_of_nat_pack(low, id);
    assert(F128::of_nat(low) == acts[i][2].eval(z));
    let all = low + pow2(64) * id;
    assert(packed_value(acts, parent, height, i, z).bits == all);
    vstd::arithmetic::div_mod::lemma_fundamental_div_mod_converse(
        all as int,
        pow2(64) as int,
        id as int,
        low as int,
    );
}

// ---------------------------------------------------------------------------
// Leaves
// ---------------------------------------------------------------------------

/// A slot is not held both before and after an action: what the two leaves hold
/// together is the action's value and owner where the action is live, and nothing
/// where it is dead. A mint holds it after, a spend before.
pub proof fn lemma_leaf_changes_hands(
    acts: Seq<Seq<Lin>>,
    old_leaves: Seq<Seq<Lin>>,
    new_leaves: Seq<Seq<Lin>>,
    i: int,
    lane: int,
    z: Seq<F128>,
)
    requires
        leaves_match(acts, old_leaves, new_leaves, i, z),
        roles_ok(acts[i], z),
        0 <= lane < 3,
    ensures
        old_leaves[i][lane].eval(z).plus(new_leaves[i][lane].eval(z)) == acts[i][0].eval(z).times(
            acts[i][2 + lane].eval(z),
        ),
        new_leaves[i][lane].eval(z) == acts[i][5].eval(z).times(acts[i][2 + lane].eval(z)),
{
    broadcast use group_field_units;

    assert(F128::one() != F128::zero());
    assert(lane == 0 || lane == 1 || lane == 2);
}

// ---------------------------------------------------------------------------
// Roots
// ---------------------------------------------------------------------------

/// A segment is live.
pub open spec fn lives(rows: Seq<Seq<Lin>>, i: int, z: Seq<F128>) -> bool {
    rows[i][0].eval(z) == F128::one()
}

proof fn lemma_rolled_still(
    rows: Seq<Seq<Lin>>,
    u: UpperPaths,
    parent: Seq<Lin>,
    lane: int,
    m: nat,
    n: nat,
    z: Seq<F128>,
)
    requires
        m <= n,
        forall|k: int| m <= k < n ==> !#[trigger] lives(rows, k, z),
    ensures
        rolled(rows, u, parent, lane, n, z) == rolled(rows, u, parent, lane, m, z),
    decreases n,
{
    if m < n {
        assert(!lives(rows, n - 1, z));
        lemma_rolled_still(rows, u, parent, lane, m, (n - 1) as nat, z);
    }
}

/// The upper roots chain: the first live segment starts from the parent root, every
/// later one from where the live segment before it ended, and the last one ends on
/// the child root. With no live segment the child root is the parent root.
pub proof fn lemma_upper_chain_links(
    rows: Seq<Seq<Lin>>,
    u: UpperPaths,
    parent: Seq<Lin>,
    child: Seq<Lin>,
    i: int,
    j: int,
    lane: int,
    z: Seq<F128>,
)
    requires
        upper_chain(rows, u, parent, child, z),
        0 <= lane < 2,
        -1 <= i < j <= rows.len(),
        i >= 0 ==> lives(rows, i, z),
        j < rows.len() ==> lives(rows, j, z),
        forall|k: int| i < k < j ==> !#[trigger] lives(rows, k, z),
    ensures
        ({
            let from = if i >= 0 {
                u.roots_after[i][lane].eval(z)
            } else {
                parent[lane].eval(z)
            };
            let to = if j < rows.len() {
                u.roots_before[j][lane].eval(z)
            } else {
                child[lane].eval(z)
            };
            from == to
        }),
        i >= 0 ==> rows[i][2 + lane].eval(z) == u.old_entries[i][lane].eval(z)
            && rows[i][4 + lane].eval(z) == u.new_entries[i][lane].eval(z),
{
    lemma_rolled_still(rows, u, parent, lane, (i + 1) as nat, j as nat, z);
    if j < rows.len() {
        assert(links(rows, u, parent, 0, j, z) && links(rows, u, parent, 1, j, z));
    }
    if i >= 0 {
        assert(links(rows, u, parent, 0, i, z) && links(rows, u, parent, 1, i, z));
    }
}

// ---------------------------------------------------------------------------
// Growth
// ---------------------------------------------------------------------------

proof fn lemma_path_prefix(
    p: Permutation,
    iv: Seq<F128>,
    entry: Seq<F128>,
    siblings: Seq<Seq<F128>>,
    directions: Seq<bool>,
    sibling: Seq<F128>,
    direction: bool,
    depth: nat,
)
    requires
        depth <= siblings.len(),
        depth <= directions.len(),
    ensures
        path_root(p, iv, entry, siblings.push(sibling), directions.push(direction), depth)
            == path_root(p, iv, entry, siblings, directions, depth),
    decreases depth,
{
    if depth > 0 {
        lemma_path_prefix(
            p,
            iv,
            entry,
            siblings,
            directions,
            sibling,
            direction,
            (depth - 1) as nat,
        );
    }
}

/// A state tree that grows keeps its slots: a path that leads to the parent root leads,
/// with one more level beside an empty tree on its right, to the root that the block
/// starts from. A tree that does not grow starts from the parent root.
pub proof fn lemma_growth_keeps_paths(
    p: Permutation,
    iv: Seq<F128>,
    zero: Seq<F128>,
    grew: bool,
    old_root: Seq<Lin>,
    parent_root: Seq<Lin>,
    entry: Seq<F128>,
    siblings: Seq<Seq<F128>>,
    directions: Seq<bool>,
    z: Seq<F128>,
)
    requires
        old_root_ok(p, iv, zero, grew, old_root, parent_root, z),
        siblings.len() == directions.len(),
        path_root(p, iv, entry, siblings, directions, siblings.len()) == row_eval(parent_root, z),
    ensures
        grew ==> path_root(
            p,
            iv,
            entry,
            siblings.push(zero),
            directions.push(false),
            siblings.len() + 1,
        ) == row_eval(old_root, z),
        !grew ==> path_root(p, iv, entry, siblings, directions, siblings.len()) == row_eval(
            old_root,
            z,
        ),
{
    lemma_path_prefix(p, iv, entry, siblings, directions, zero, false, siblings.len());
}

// ---------------------------------------------------------------------------
// Amounts
// ---------------------------------------------------------------------------

proof fn lemma_sum_small(terms: Seq<Seq<Lin>>, n: nat, z: Seq<F128>)
    requires
        n <= 8,
        forall|i: int| 0 <= i < n ==> bits_value(#[trigger] terms[i], z) < pow2(64),
    ensures
        digits_sum(terms, n, z) <= n * pow2(64),
    decreases n,
{
    if n > 0 {
        lemma_sum_small(terms, (n - 1) as nat, z);
        assert(bits_value(terms[n - 1], z) < pow2(64));
        let p = pow2(64) as int;
        assert(n * p == (n - 1) * p + p) by (nonlinear_arith);
    }
}

/// Amounts balance as numbers: a live page whose sums agree as field elements takes in
/// exactly what it pays out and its fee. A page that is not live has neither.
pub proof fn lemma_page_balances(p: PageInputs, a: PageArithmetic, z: Seq<F128>)
    requires
        page_bound(p, a, z),
        forall|i: int|
            0 <= i < 8 ==> bits_value(#[trigger] a.splits.amount_digits[i], z) < pow2(64),
        forall|i: int| 0 <= i < 2 ==> bits_value(#[trigger] a.output_digits[i], z) < pow2(64),
        bits_value(a.fee_digits, z) < pow2(64),
    ensures
        p.tx_live.eval(z) == F128::one() ==> (a.input_sum.eval(z) == a.output_plus_fee.eval(z)
            <==> digits_sum(a.splits.amount_digits, 8, z) == digits_sum(a.output_digits, 2, z)
            + bits_value(a.fee_digits, z)),
        p.tx_live.eval(z) == F128::zero() ==> {
            &&& a.input_sum.eval(z) == F128::zero()
            &&& a.output_sum.eval(z) == F128::zero()
            &&& a.output_plus_fee.eval(z) == F128::zero()
            &&& a.paid_fee.eval(z) == F128::zero()
        },
{
    broadcast use group_field_units;

    vstd::arithmetic::power2::lemma2_to64();
    lemma_sum_small(a.splits.amount_digits, 8, z);
    lemma_sum_small(a.output_digits, 2, z);
    assert(pow2(64) == 0x1_0000_0000_0000_0000);
    let inputs = digits_sum(a.splits.amount_digits, 8, z);
    let paid = digits_sum(a.output_digits, 2, z) + bits_value(a.fee_digits, z);
    assert(F128::of_nat(inputs).bits == inputs);
    assert(F128::of_nat(paid).bits == paid);
}

} // verus!
