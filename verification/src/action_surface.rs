//! Action rows: what one body position does to one slot.

use vstd::prelude::*;
use crate::circuit::{lins, Lin, LinExpr};

verus! {

/// Input positions of one transaction page.
pub const INPUT_SELECTORS: usize = 8;

/// Output positions of one transaction page.
pub const OUTPUT_SELECTORS: usize = 2;

/// Lanes of an action row.
pub const ACTION_LANES: usize = 6;

/// One candidate action.
pub struct ActionRowTrace {
    pub live: LinExpr,
    pub slot_index: LinExpr,
    pub value: LinExpr,
    pub owner: [LinExpr; 2],
    pub is_mint: LinExpr,
}

impl ActionRowTrace {
    /// The lanes `live, slot_index, value, owner, is_mint`.
    pub open spec fn lanes(&self) -> Seq<Lin> {
        seq![
            self.live@,
            self.slot_index@,
            self.value@,
            self.owner@[0]@,
            self.owner@[1]@,
            self.is_mint@,
        ]
    }

    /// The same row again.
    pub fn dup(&self) -> (r: ActionRowTrace)
        ensures
            r.lanes() == self.lanes(),
    {
        let r = ActionRowTrace {
            live: self.live.dup(),
            slot_index: self.slot_index.dup(),
            value: self.value.dup(),
            owner: [self.owner[0].dup(), self.owner[1].dup()],
            is_mint: self.is_mint.dup(),
        };
        assert(r.lanes() =~= self.lanes());
        r
    }
}

/// The lanes of every row.
pub open spec fn action_rows(rows: Seq<ActionRowTrace>) -> Seq<Seq<Lin>> {
    Seq::new(rows.len(), |i: int| rows[i].lanes())
}

/// A row that does nothing.
pub open spec fn zero_lanes() -> Seq<Lin> {
    seq![Lin::zero(), Lin::zero(), Lin::zero(), Lin::zero(), Lin::zero(), Lin::zero()]
}

/// Selected rows of one transaction page.
pub struct ActionSurfaceTrace {
    pub tx_live: LinExpr,
    pub selected_inputs: Vec<LinExpr>,
    pub selected_outputs: Vec<LinExpr>,
    pub input_rows: Vec<ActionRowTrace>,
    pub output_rows: Vec<ActionRowTrace>,
}

pub fn zero_action() -> (r: ActionRowTrace)
    ensures
        r.lanes() == zero_lanes(),
{
    let r = ActionRowTrace {
        live: LinExpr::zero(),
        slot_index: LinExpr::zero(),
        value: LinExpr::zero(),
        owner: [LinExpr::zero(), LinExpr::zero()],
        is_mint: LinExpr::zero(),
    };
    assert(r.lanes() =~= zero_lanes());
    r
}

/// The lanes of a row, in routing order.
pub fn action_lanes(action: &ActionRowTrace) -> (lanes: Vec<LinExpr>)
    ensures
        lins(lanes@) == action.lanes(),
        lanes@.len() == ACTION_LANES,
{
    let mut lanes: Vec<LinExpr> = Vec::with_capacity(ACTION_LANES);
    lanes.push(action.live.dup());
    lanes.push(action.slot_index.dup());
    lanes.push(action.value.dup());
    lanes.push(action.owner[0].dup());
    lanes.push(action.owner[1].dup());
    lanes.push(action.is_mint.dup());
    assert(lins(lanes@) =~= action.lanes());
    lanes
}

/// The row with the given lanes.
pub fn action_from_lanes(lanes: &Vec<LinExpr>) -> (r: ActionRowTrace)
    requires
        lanes@.len() == ACTION_LANES,
    ensures
        r.lanes() == lins(lanes@),
{
    let r = ActionRowTrace {
        live: lanes[0].dup(),
        slot_index: lanes[1].dup(),
        value: lanes[2].dup(),
        owner: [lanes[3].dup(), lanes[4].dup()],
        is_mint: lanes[5].dup(),
    };
    assert(r.lanes() =~= lins(lanes@));
    r
}

} // verus!
