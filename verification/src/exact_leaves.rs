//! Old and new slot leaves of sorted actions.

use vstd::prelude::*;
use crate::action_surface::{action_rows, ActionRowTrace};
use crate::bits::fresh;
use crate::circuit::{
    all_below, alloc_block, group_circuit, lemma_mul_sound, lemma_pin_sound, mul_rows, pin_eq,
    pin_rows, sat, FieldR1csBuilder, Lin, LinExpr, Row,
};
use crate::field::{lemma_plus_is_zero, F128};
use crate::permutation_network::{row_eval, rows_shaped};

verus! {

broadcast use group_circuit;

/// A slot leaf statement: what the slot holds and its leaf digest.
#[derive(Clone, Copy, Debug, PartialEq, Eq)]
pub struct SlotLeafInputs {
    pub packed_value: F128,
    pub owner_hi: F128,
    pub owner_lo: F128,
    pub expected_leaf: [F128; 2],
}

impl SlotLeafInputs {
    /// The lanes `packed_value, owner_hi, owner_lo, expected_leaf`.
    pub open spec fn lanes(self) -> Seq<F128> {
        seq![
            self.packed_value,
            self.owner_hi,
            self.owner_lo,
            self.expected_leaf@[0],
            self.expected_leaf@[1],
        ]
    }
}

/// The wires of a slot leaf statement.
pub struct SlotLeafInputsTrace {
    pub packed_value: LinExpr,
    pub owner_hi: LinExpr,
    pub owner_lo: LinExpr,
    pub expected_leaf: [LinExpr; 2],
}

impl SlotLeafInputsTrace {
    /// The lanes `packed_value, owner_hi, owner_lo, expected_leaf`.
    pub open spec fn lanes(&self) -> Seq<Lin> {
        seq![
            self.packed_value@,
            self.owner_hi@,
            self.owner_lo@,
            self.expected_leaf@[0]@,
            self.expected_leaf@[1]@,
        ]
    }

    /// One fresh wire for every lane.
    pub fn allocate(b: &mut FieldR1csBuilder, native: &SlotLeafInputs) -> (r: SlotLeafInputsTrace)
        requires
            old(b)@.wf(),
        ensures
            final(b)@.rows == crate::accepted_claim_batch::free_rows(old(b)@.rows, 5),
            final(b)@.rows.len() == old(b)@.rows.len() + 5,
            final(b)@.grows(old(b)@),
            final(b)@.honest() <==> old(b)@.honest(),
            r.lanes() == fresh(old(b)@.rows, 5),
            all_below(r.lanes(), final(b)@.rows.len()),
            row_eval(r.lanes(), final(b)@.values) == native.lanes(),
    {
        let ghost c = old(b)@.rows;
        let packed_value = alloc_block(b, native.packed_value);
        let ghost b1 = b@;
        let owner_hi = alloc_block(b, native.owner_hi);
        let ghost b2 = b@;
        let owner_lo = alloc_block(b, native.owner_lo);
        let ghost b3 = b@;
        let leaf0 = alloc_block(b, native.expected_leaf[0]);
        let ghost b4 = b@;
        let leaf1 = alloc_block(b, native.expected_leaf[1]);
        let r = SlotLeafInputsTrace {
            packed_value,
            owner_hi,
            owner_lo,
            expected_leaf: [leaf0, leaf1],
        };
        proof {
            reveal_with_fuel(crate::accepted_claim_batch::free_rows, 6);
            assert(r.lanes() =~= fresh(c, 5));
            assert(row_eval(r.lanes(), b@.values) =~= native.lanes());
        }
        r
    }
}

/// The lanes of every leaf.
pub open spec fn leaf_lanes(leaves: Seq<SlotLeafInputsTrace>) -> Seq<Seq<Lin>> {
    Seq::new(leaves.len(), |i: int| leaves[i].lanes())
}

/// The rows that bind a lane of a leaf to a selected lane of an action.
pub open spec fn select_rows(c: Seq<Row>, selector: Lin, lane: Lin, leaf: Lin) -> Seq<Row> {
    let (c1, selected) = mul_rows(c, selector, lane);
    pin_rows(c1, leaf.plus(selected))
}

/// The rows that bind one action to its leaves.
pub open spec fn action_leaf_rows(
    c: Seq<Row>,
    act: Seq<Lin>,
    old_leaf: Seq<Lin>,
    new_leaf: Seq<Lin>,
) -> Seq<Row> {
    let spend = act[0].plus(act[5]);
    let c1 = select_rows(c, spend, act[2], old_leaf[0]);
    let c2 = select_rows(c1, spend, act[3], old_leaf[1]);
    let c3 = select_rows(c2, spend, act[4], old_leaf[2]);
    let c4 = select_rows(c3, act[5], act[2], new_leaf[0]);
    let c5 = select_rows(c4, act[5], act[3], new_leaf[1]);
    select_rows(c5, act[5], act[4], new_leaf[2])
}

/// The rows that bind the first `n` actions to their leaves.
pub open spec fn action_leaves_rows(
    c: Seq<Row>,
    acts: Seq<Seq<Lin>>,
    old_leaves: Seq<Seq<Lin>>,
    new_leaves: Seq<Seq<Lin>>,
    n: nat,
) -> Seq<Row>
    decreases n,
{
    if n == 0 {
        c
    } else {
        action_leaf_rows(
            action_leaves_rows(c, acts, old_leaves, new_leaves, (n - 1) as nat),
            acts[n - 1],
            old_leaves[n - 1],
            new_leaves[n - 1],
        )
    }
}

/// A leaf holds the value and owner of an action, or nothing.
pub open spec fn holds_action(leaf: Seq<Lin>, act: Seq<Lin>, holds: bool, z: Seq<F128>) -> bool {
    &&& leaf[0].eval(z) == if holds {
        act[2].eval(z)
    } else {
        F128::zero()
    }
    &&& leaf[1].eval(z) == if holds {
        act[3].eval(z)
    } else {
        F128::zero()
    }
    &&& leaf[2].eval(z) == if holds {
        act[4].eval(z)
    } else {
        F128::zero()
    }
}

/// The action's role: a mint, or a live row that does not mint.
pub open spec fn is_mint(act: Seq<Lin>, z: Seq<F128>) -> bool {
    act[5].eval(z) == F128::one()
}

pub open spec fn is_spend(act: Seq<Lin>, z: Seq<F128>) -> bool {
    act[0].eval(z) == F128::one() && act[5].eval(z) == F128::zero()
}

/// A spend authenticates its value and owner in the old leaf and leaves the
/// slot empty; a mint finds the slot empty and writes its value and owner; a
/// dead row finds and leaves the slot empty.
pub open spec fn leaves_match(
    acts: Seq<Seq<Lin>>,
    old_leaves: Seq<Seq<Lin>>,
    new_leaves: Seq<Seq<Lin>>,
    i: int,
    z: Seq<F128>,
) -> bool {
    &&& holds_action(old_leaves[i], acts[i], is_spend(acts[i], z), z)
    &&& holds_action(new_leaves[i], acts[i], is_mint(acts[i], z), z)
}

pub open spec fn all_match(
    acts: Seq<Seq<Lin>>,
    old_leaves: Seq<Seq<Lin>>,
    new_leaves: Seq<Seq<Lin>>,
    n: nat,
    z: Seq<F128>,
) -> bool {
    forall|i: int| 0 <= i < n ==> #[trigger] leaves_match(acts, old_leaves, new_leaves, i, z)
}

/// Selectors of an action are bits, and only a live row mints.
pub open spec fn roles_ok(act: Seq<Lin>, z: Seq<F128>) -> bool {
    &&& act[0].eval(z).is_bit()
    &&& act[5].eval(z).is_bit()
    &&& act[5].eval(z) == F128::one() ==> act[0].eval(z) == F128::one()
}

proof fn lemma_select_sound(c: Seq<Row>, selector: Lin, lane: Lin, leaf: Lin, z: Seq<F128>)
    requires
        sat(select_rows(c, selector, lane, leaf), z),
    ensures
        sat(c, z),
        leaf.eval(z) == selector.eval(z).times(lane.eval(z)),
{
    broadcast use lemma_plus_is_zero;

    let (c1, selected) = mul_rows(c, selector, lane);
    lemma_pin_sound(c1, leaf.plus(selected), z);
    lemma_mul_sound(c, selector, lane, z);
}

proof fn lemma_action_leaf_sound(
    c: Seq<Row>,
    acts: Seq<Seq<Lin>>,
    old_leaves: Seq<Seq<Lin>>,
    new_leaves: Seq<Seq<Lin>>,
    i: int,
    z: Seq<F128>,
)
    requires
        sat(action_leaf_rows(c, acts[i], old_leaves[i], new_leaves[i]), z),
    ensures
        sat(c, z),
        roles_ok(acts[i], z) ==> leaves_match(acts, old_leaves, new_leaves, i, z),
{
    let act = acts[i];
    let old_leaf = old_leaves[i];
    let new_leaf = new_leaves[i];
    let spend = act[0].plus(act[5]);
    let c1 = select_rows(c, spend, act[2], old_leaf[0]);
    let c2 = select_rows(c1, spend, act[3], old_leaf[1]);
    let c3 = select_rows(c2, spend, act[4], old_leaf[2]);
    let c4 = select_rows(c3, act[5], act[2], new_leaf[0]);
    let c5 = select_rows(c4, act[5], act[3], new_leaf[1]);
    lemma_select_sound(c5, act[5], act[4], new_leaf[2], z);
    lemma_select_sound(c4, act[5], act[3], new_leaf[1], z);
    lemma_select_sound(c3, act[5], act[2], new_leaf[0], z);
    lemma_select_sound(c2, spend, act[4], old_leaf[2], z);
    lemma_select_sound(c1, spend, act[3], old_leaf[1], z);
    lemma_select_sound(c, spend, act[2], old_leaf[0], z);
}

/// Under every satisfying assignment spends are authenticated by their old
/// leaves, mints are written to their new leaves, and every other leaf is
/// empty.
pub proof fn lemma_leaves_sound(
    c: Seq<Row>,
    acts: Seq<Seq<Lin>>,
    old_leaves: Seq<Seq<Lin>>,
    new_leaves: Seq<Seq<Lin>>,
    n: nat,
    z: Seq<F128>,
)
    requires
        n <= acts.len(),
        forall|i: int| 0 <= i < acts.len() ==> roles_ok(#[trigger] acts[i], z),
        sat(action_leaves_rows(c, acts, old_leaves, new_leaves, n), z),
    ensures
        sat(c, z),
        all_match(acts, old_leaves, new_leaves, n, z),
    decreases n,
{
    if n > 0 {
        let c1 = action_leaves_rows(c, acts, old_leaves, new_leaves, (n - 1) as nat);
        assert(roles_ok(acts[n - 1], z));
        lemma_action_leaf_sound(c1, acts, old_leaves, new_leaves, n - 1, z);
        lemma_leaves_sound(c, acts, old_leaves, new_leaves, (n - 1) as nat, z);
    }
}

/// Binds a lane of a leaf to a selected lane.
fn pin_selected(
    b: &mut FieldR1csBuilder,
    selector: &LinExpr,
    lane: &LinExpr,
    leaf: &LinExpr,
)
    requires
        old(b)@.wf(),
        selector@.below(old(b)@.rows.len()),
        lane@.below(old(b)@.rows.len()),
        leaf@.below(old(b)@.rows.len()),
    ensures
        final(b)@.rows == select_rows(old(b)@.rows, selector@, lane@, leaf@),
        final(b)@.grows(old(b)@),
        final(b)@.honest() <==> old(b)@.honest() && leaf@.eval(old(b)@.values) == selector@.eval(
            old(b)@.values,
        ).times(lane@.eval(old(b)@.values)),
{
    let selected = crate::circuit::mul(b, selector, lane);
    pin_eq(b, leaf, &selected);
}

/// Binds slot-sorted actions to their old and new leaves.
///
/// See [`lemma_leaves_sound`] for what the constraints bind.
pub fn bind_actions_to_exact_state_leaves(
    b: &mut FieldR1csBuilder,
    actions: &Vec<ActionRowTrace>,
    old_leaves: &Vec<SlotLeafInputsTrace>,
    new_leaves: &Vec<SlotLeafInputsTrace>,
)
    requires
        old(b)@.wf(),
        actions@.len() == old_leaves@.len(),
        actions@.len() == new_leaves@.len(),
        rows_shaped(action_rows(actions@), 6, old(b)@.rows.len()),
        rows_shaped(leaf_lanes(old_leaves@), 5, old(b)@.rows.len()),
        rows_shaped(leaf_lanes(new_leaves@), 5, old(b)@.rows.len()),
    ensures
        final(b)@.rows == action_leaves_rows(
            old(b)@.rows,
            action_rows(actions@),
            leaf_lanes(old_leaves@),
            leaf_lanes(new_leaves@),
            actions@.len(),
        ),
        final(b)@.grows(old(b)@),
        ({
            let z = old(b)@.values;
            let acts = action_rows(actions@);
            (forall|i: int| 0 <= i < acts.len() ==> roles_ok(#[trigger] acts[i], z)) ==> {
                final(b)@.honest() <==> old(b)@.honest() && all_match(
                    acts,
                    leaf_lanes(old_leaves@),
                    leaf_lanes(new_leaves@),
                    acts.len(),
                    z,
                )
            }
        }),
{
    let ghost acts = action_rows(actions@);
    let ghost ol = leaf_lanes(old_leaves@);
    let ghost nl = leaf_lanes(new_leaves@);
    let ghost b0 = old(b)@;
    let ghost n0 = b0.rows.len();
    let ghost z0 = b0.values;
    let ghost roles = forall|i: int| 0 <= i < acts.len() ==> roles_ok(#[trigger] acts[i], z0);
    let mut i: usize = 0;
    while i < actions.len()
        invariant
            i <= actions@.len(),
            actions@.len() == old_leaves@.len(),
            actions@.len() == new_leaves@.len(),
            acts == action_rows(actions@),
            ol == leaf_lanes(old_leaves@),
            nl == leaf_lanes(new_leaves@),
            b0 == old(b)@,
            n0 == b0.rows.len(),
            z0 == b0.values,
            roles == forall|j: int| 0 <= j < acts.len() ==> roles_ok(#[trigger] acts[j], z0),
            rows_shaped(acts, 6, n0),
            rows_shaped(ol, 5, n0),
            rows_shaped(nl, 5, n0),
            b@.rows == action_leaves_rows(b0.rows, acts, ol, nl, i as nat),
            b@.grows(b0),
            roles ==> (b@.honest() <==> b0.honest() && all_match(acts, ol, nl, i as nat, z0)),
        decreases actions@.len() - i,
    {
        let ghost start = b@;
        let ghost k = i as int;
        proof {
            assert(acts[k] == actions@[k].lanes() && ol[k] == old_leaves@[k].lanes() && nl[k]
                == new_leaves@[k].lanes());
            assert(all_below(acts[k], n0) && all_below(ol[k], n0) && all_below(nl[k], n0));
            assert(acts[k][0].below(n0) && acts[k][2].below(n0) && acts[k][3].below(n0)
                && acts[k][4].below(n0) && acts[k][5].below(n0));
            assert(ol[k][0].below(n0) && ol[k][1].below(n0) && ol[k][2].below(n0));
            assert(nl[k][0].below(n0) && nl[k][1].below(n0) && nl[k][2].below(n0));
        }
        let action = &actions[i];
        let spend = action.live.add(&action.is_mint);
        pin_selected(b, &spend, &action.value, &old_leaves[i].packed_value);
        let ghost b1 = b@;
        pin_selected(b, &spend, &action.owner[0], &old_leaves[i].owner_hi);
        let ghost b2 = b@;
        pin_selected(b, &spend, &action.owner[1], &old_leaves[i].owner_lo);
        let ghost b3 = b@;
        pin_selected(b, &action.is_mint, &action.value, &new_leaves[i].packed_value);
        let ghost b4 = b@;
        pin_selected(b, &action.is_mint, &action.owner[0], &new_leaves[i].owner_hi);
        let ghost b5 = b@;
        pin_selected(b, &action.is_mint, &action.owner[1], &new_leaves[i].owner_lo);
        proof {
            if roles {
                assert(roles_ok(acts[k], z0));
                let here = leaves_match(acts, ol, nl, k, z0);
                assert(b@.honest() <==> start.honest() && here);
                assert(all_match(acts, ol, nl, (i + 1) as nat, z0) <==> all_match(
                    acts,
                    ol,
                    nl,
                    i as nat,
                    z0,
                ) && here);
            }
        }
        i += 1;
    }
}

} // verus!
