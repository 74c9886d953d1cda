//! Terms of the extension-field relations.
//!
//! A term is a weight and a product of cells. Which weights and which products
//! there are depends on the references alone; the weights' values come from a
//! challenge, natively or in the trace.

use vstd::prelude::*;
use crate::circuit::{group_circuit, lemma_prefix_trans, prefix, FieldR1csBuilder, Row};
use crate::extension::{
    ext_below, ext_evals, ext_ladder_rows, ext_lins, ext_power_ladder, ext_powers, lemma_base_pow,
    lemma_ext_mul_past, mul_ext, power_table, ExtExpr, ExtLin, Extension, F256,
};
use crate::field::{group_field_units, F128};
use crate::gadget::{computed, holds_past, lemma_computed_trans, lemma_past_split};
use crate::paired_relations::{consistency, input_factors, lane_weight, PairedMerkleUpdateRefs};
use crate::poseidon::{matrix, PoseidonTables};
use crate::relations::{power, ColRef, Product};

verus! {

broadcast use {group_circuit, lemma_computed_trans};

/// References of a feed-forward Merkle family.
#[derive(Clone, Copy, Debug, PartialEq, Eq)]
pub struct FfMerkleFamilyRefs {
    pub c: [usize; 4],
    pub cr: [usize; 2],
    pub sib: [usize; 2],
    pub d: usize,
    pub node: usize,
    pub nodens: usize,
    pub iv: [usize; 2],
}

/// References of a two-permutation Merkle family.
#[derive(Clone, Copy, Debug, PartialEq, Eq)]
pub struct MerkleFamilyRefs {
    pub c: [usize; 4],
    pub sib: [usize; 2],
    pub e: [usize; 2],
    pub d: usize,
    pub even: usize,
    pub evenstart: usize,
    pub evenns: usize,
    pub odd: usize,
    pub oddstart: usize,
    pub oddns: usize,
    pub iv: [usize; 2],
}

/// References of a leaf sponge.
#[derive(Clone, Copy, Debug, PartialEq, Eq)]
pub struct SpongeLeafRefs {
    pub in_: [usize; 2],
    pub c: [usize; 4],
    pub odd: usize,
    pub iv: [usize; 2],
}

/// References of a duplex family.
#[derive(Clone, Copy, Debug, PartialEq, Eq)]
pub struct DuplexFamilyRefs {
    pub c: [usize; 4],
    pub a: [usize; 2],
    pub start: usize,
    pub abs: [usize; 2],
    pub consts: [usize; 4],
}

/// References of the tail of a split duplex.
#[derive(Clone, Copy, Debug, PartialEq, Eq)]
pub struct SplitDuplexTailRefs {
    pub a: [usize; 2],
    pub c: [usize; 4],
    pub consts: [usize; 2],
    pub region: usize,
    pub first: usize,
    pub carry: usize,
}

/// References of a source tree.
#[derive(Clone, Copy, Debug, PartialEq, Eq)]
pub struct SourceTreeRefs {
    pub kid: [usize; 2],
    pub c: [usize; 4],
    pub code: [usize; 2],
    pub even_int: usize,
    pub odd_int: usize,
    pub leafodd: usize,
    pub iv: [usize; 2],
}

/// A Merkle family with its region table.
#[allow(inconsistent_fields)]
#[derive(Clone, Copy, Debug, PartialEq, Eq)]
pub enum MerkleProtocolFamily {
    FeedForward { refs: FfMerkleFamilyRefs, region: usize },
    TwoPermutation { refs: MerkleFamilyRefs, region: usize },
    PairedUpdate { refs: PairedMerkleUpdateRefs, region: usize },
}

/// A term: an index into a table of weights, and a product.
#[derive(Debug)]
pub struct TermShape {
    pub weight: usize,
    pub factors: Vec<ColRef>,
}

/// A term: an index into a table of weights, and a product.
pub struct Shape {
    pub weight: nat,
    pub factors: Seq<ColRef>,
}

impl View for TermShape {
    type V = Shape;

    open spec fn view(&self) -> Shape {
        Shape { weight: self.weight as nat, factors: self.factors@ }
    }
}

pub open spec fn shapes(s: Seq<TermShape>) -> Seq<Shape> {
    Seq::new(s.len(), |i: int| s[i]@)
}

pub open spec fn shape(weight: int, factors: Seq<ColRef>) -> Shape {
    Shape { weight: weight as nat, factors }
}

fn push_shape(out: &mut Vec<TermShape>, weight: usize, factors: Vec<ColRef>)
    ensures
        shapes(final(out)@) == shapes(old(out)@).push(shape(weight as int, factors@)),
{
    let ghost before = out@;
    out.push(TermShape { weight, factors });
    assert(shapes(out@) =~= shapes(before).push(shape(weight as int, factors@)));
}

/// A product names a table.
pub open spec fn has_fixed(factors: Seq<ColRef>) -> bool {
    exists|i: int| 0 <= i < factors.len() && (#[trigger] factors[i]) is Fixed
}

/// A product under a region table, where it names no table of its own.
pub open spec fn gated(region: usize, factors: Seq<ColRef>) -> Seq<ColRef> {
    if has_fixed(factors) {
        factors
    } else {
        seq![ColRef::Fixed(region)] + factors
    }
}

fn gate(region: usize, factors: Vec<ColRef>) -> (r: Vec<ColRef>)
    ensures
        r@ == gated(region, factors@),
{
    let mut i: usize = 0;
    while i < factors.len()
        invariant
            i <= factors@.len(),
            forall|j: int| 0 <= j < i ==> !((#[trigger] factors@[j]) is Fixed),
        decreases factors@.len() - i,
    {
        match factors[i] {
            ColRef::Fixed(_) => {
                assert(factors@[i as int] is Fixed);
                return factors;
            },
            _ => {},
        }
        i += 1;
    }
    let mut r: Vec<ColRef> = vec![ColRef::Fixed(region)];
    let mut k: usize = 0;
    while k < factors.len()
        invariant
            k <= factors@.len(),
            r@ == seq![ColRef::Fixed(region)] + factors@.take(k as int),
        decreases factors@.len() - k,
    {
        r.push(factors[k]);
        k += 1;
        assert(r@ =~= seq![ColRef::Fixed(region)] + factors@.take(k as int));
    }
    assert(factors@.take(k as int) =~= factors@);
    r
}

/// The terms of the first `n` lanes.
pub open spec fn by_lane(f: spec_fn(int) -> Seq<Shape>, n: nat) -> Seq<Shape>
    decreases n,
{
    if n == 0 {
        Seq::empty()
    } else {
        by_lane(f, (n - 1) as nat) + f(n - 1)
    }
}

/// A carried lane and the walk lane that it equals.
pub open spec fn selection_lane(refs: [usize; 4], lane: int) -> Seq<Shape> {
    seq![
        shape(lane + 1, seq![ColRef::Committed(refs@[lane])]),
        shape(lane + 1, seq![ColRef::Internal(lane as usize)]),
    ]
}

fn append_selection_lane(out: &mut Vec<TermShape>, refs: &[usize; 4], lane: usize)
    requires
        lane < 4,
    ensures
        shapes(final(out)@) == shapes(old(out)@) + selection_lane(*refs, lane as int),
{
    let ghost before = shapes(out@);
    let ghost wanted = selection_lane(*refs, lane as int);
    let f0 = vec![ColRef::Committed(refs[lane])];
    assert(f0@ =~= wanted[0].factors);
    push_shape(out, lane + 1, f0);
    let f1 = vec![ColRef::Internal(lane)];
    assert(f1@ =~= wanted[1].factors);
    push_shape(out, lane + 1, f1);
    assert(shapes(out@) =~= before + wanted);
}

/// A family carries the walk output: lane by lane, under the next power.
pub open spec fn selection_lane_terms(refs: [usize; 4]) -> Seq<Shape> {
    by_lane(|lane: int| selection_lane(refs, lane), 4)
}

fn append_selection_lane_terms(out: &mut Vec<TermShape>, refs: &[usize; 4])
    ensures
        shapes(final(out)@) == shapes(old(out)@) + selection_lane_terms(*refs),
{
    let ghost before = shapes(out@);
    let ghost f = |lane: int| selection_lane(*refs, lane);
    let mut lane: usize = 0;
    assert(shapes(out@) =~= before + by_lane(f, 0));
    while lane < 4
        invariant
            lane <= 4,
            f == (|lane: int| selection_lane(*refs, lane)),
            shapes(out@) == before + by_lane(f, lane as nat),
        decreases 4 - lane,
    {
        append_selection_lane(out, refs, lane);
        assert(shapes(out@) =~= before + by_lane(f, (lane + 1) as nat));
        lane += 1;
    }
}

/// The input of a lane of a two-permutation compression.
pub open spec fn two_permutation_lane(refs: MerkleFamilyRefs, region: usize, lane: int) -> Seq<Shape> {
    if lane < 2 {
        seq![
            shape(lane, seq![ColRef::Fixed(region), ColRef::CommittedShift(refs.c@[lane])]),
            shape(lane, seq![ColRef::Fixed(refs.evenstart), ColRef::CommittedShift(refs.c@[lane])]),
            shape(lane, seq![ColRef::Fixed(refs.evenns), ColRef::Committed(refs.d), ColRef::CommittedShift(refs.c@[lane])]),
            shape(lane, seq![ColRef::Fixed(refs.even), ColRef::Committed(refs.d), ColRef::Committed(refs.sib@[lane])]),
            shape(lane, seq![ColRef::Fixed(refs.evenstart), ColRef::Committed(refs.e@[lane])]),
            shape(lane, seq![ColRef::Fixed(refs.evenstart), ColRef::Committed(refs.d), ColRef::Committed(refs.e@[lane])]),
            shape(lane, seq![ColRef::Fixed(refs.odd), ColRef::CommittedShift(refs.sib@[lane])]),
            shape(lane, seq![ColRef::Fixed(refs.odd), ColRef::CommittedShift(refs.d), ColRef::CommittedShift(refs.sib@[lane])]),
            shape(lane, seq![ColRef::Fixed(refs.oddns), ColRef::CommittedShift(refs.d), ColRef::CommittedShift2(refs.c@[lane])]),
            shape(lane, seq![ColRef::Fixed(refs.oddstart), ColRef::CommittedShift(refs.d), ColRef::CommittedShift(refs.e@[lane])]),
        ]
    } else {
        seq![
            shape(lane, seq![ColRef::Fixed(region), ColRef::CommittedShift(refs.c@[lane])]),
            shape(lane, seq![ColRef::Fixed(refs.even), ColRef::CommittedShift(refs.c@[lane])]),
            shape(lane, seq![ColRef::Fixed(refs.iv@[lane - 2])]),
        ]
    }
}

fn append_two_permutation_lane(out: &mut Vec<TermShape>, refs: &MerkleFamilyRefs, region: usize, lane: usize)
    requires
        lane < 4,
    ensures
        shapes(final(out)@) == shapes(old(out)@) + two_permutation_lane(*refs, region, lane as int),
{
    let ghost before = shapes(out@);
    let ghost wanted = two_permutation_lane(*refs, region, lane as int);
    if lane < 2 {
        let f0 = vec![ColRef::Fixed(region), ColRef::CommittedShift(refs.c[lane])];
        assert(f0@ =~= wanted[0].factors);
        push_shape(out, lane, f0);
        let f1 = vec![ColRef::Fixed(refs.evenstart), ColRef::CommittedShift(refs.c[lane])];
        assert(f1@ =~= wanted[1].factors);
        push_shape(out, lane, f1);
        let f2 = vec![ColRef::Fixed(refs.evenns), ColRef::Committed(refs.d), ColRef::CommittedShift(refs.c[lane])];
        assert(f2@ =~= wanted[2].factors);
        push_shape(out, lane, f2);
        let f3 = vec![ColRef::Fixed(refs.even), ColRef::Committed(refs.d), ColRef::Committed(refs.sib[lane])];
        assert(f3@ =~= wanted[3].factors);
        push_shape(out, lane, f3);
        let f4 = vec![ColRef::Fixed(refs.evenstart), ColRef::Committed(refs.e[lane])];
        assert(f4@ =~= wanted[4].factors);
        push_shape(out, lane, f4);
        let f5 = vec![ColRef::Fixed(refs.evenstart), ColRef::Committed(refs.d), ColRef::Committed(refs.e[lane])];
        assert(f5@ =~= wanted[5].factors);
        push_shape(out, lane, f5);
        let f6 = vec![ColRef::Fixed(refs.odd), ColRef::CommittedShift(refs.sib[lane])];
        assert(f6@ =~= wanted[6].factors);
        push_shape(out, lane, f6);
        let f7 = vec![ColRef::Fixed(refs.odd), ColRef::CommittedShift(refs.d), ColRef::CommittedShift(refs.sib[lane])];
        assert(f7@ =~= wanted[7].factors);
        push_shape(out, lane, f7);
        let f8 = vec![ColRef::Fixed(refs.oddns), ColRef::CommittedShift(refs.d), ColRef::CommittedShift2(refs.c[lane])];
        assert(f8@ =~= wanted[8].factors);
        push_shape(out, lane, f8);
        let f9 = vec![ColRef::Fixed(refs.oddstart), ColRef::CommittedShift(refs.d), ColRef::CommittedShift(refs.e[lane])];
        assert(f9@ =~= wanted[9].factors);
        push_shape(out, lane, f9);
    } else {
        let f0 = vec![ColRef::Fixed(region), ColRef::CommittedShift(refs.c[lane])];
        assert(f0@ =~= wanted[0].factors);
        push_shape(out, lane, f0);
        let f1 = vec![ColRef::Fixed(refs.even), ColRef::CommittedShift(refs.c[lane])];
        assert(f1@ =~= wanted[1].factors);
        push_shape(out, lane, f1);
        let f2 = vec![ColRef::Fixed(refs.iv[lane - 2])];
        assert(f2@ =~= wanted[2].factors);
        push_shape(out, lane, f2);
    }
    assert(shapes(out@) =~= before + wanted);
}

/// The input of a two-permutation compression.
pub open spec fn two_permutation_lane_terms(refs: MerkleFamilyRefs, region: usize) -> Seq<Shape> {
    by_lane(|lane: int| two_permutation_lane(refs, region, lane), 4)
}

fn append_two_permutation_lane_terms(out: &mut Vec<TermShape>, refs: &MerkleFamilyRefs, region: usize)
    ensures
        shapes(final(out)@) == shapes(old(out)@) + two_permutation_lane_terms(*refs, region),
{
    let ghost before = shapes(out@);
    let ghost f = |lane: int| two_permutation_lane(*refs, region, lane);
    let mut lane: usize = 0;
    assert(shapes(out@) =~= before + by_lane(f, 0));
    while lane < 4
        invariant
            lane <= 4,
            f == (|lane: int| two_permutation_lane(*refs, region, lane)),
            shapes(out@) == before + by_lane(f, lane as nat),
        decreases 4 - lane,
    {
        append_two_permutation_lane(out, refs, region, lane);
        assert(shapes(out@) =~= before + by_lane(f, (lane + 1) as nat));
        lane += 1;
    }
}

/// A carried lane of a feed-forward compression.
pub open spec fn feed_forward_carry(refs: FfMerkleFamilyRefs, region: usize, lane: int) -> Seq<Shape> {
    seq![
        shape(lane, seq![ColRef::Fixed(region), ColRef::CommittedShift(refs.c@[lane])]),
    ]
}

fn append_feed_forward_carry(out: &mut Vec<TermShape>, refs: &FfMerkleFamilyRefs, region: usize, lane: usize)
    requires
        lane < 4,
    ensures
        shapes(final(out)@) == shapes(old(out)@) + feed_forward_carry(*refs, region, lane as int),
{
    let ghost before = shapes(out@);
    let ghost wanted = feed_forward_carry(*refs, region, lane as int);
    let f0 = vec![ColRef::Fixed(region), ColRef::CommittedShift(refs.c[lane])];
    assert(f0@ =~= wanted[0].factors);
    push_shape(out, lane, f0);
    assert(shapes(out@) =~= before + wanted);
}

/// The carried lanes of a feed-forward compression.
pub open spec fn feed_forward_carry_terms(refs: FfMerkleFamilyRefs, region: usize) -> Seq<Shape> {
    by_lane(|lane: int| feed_forward_carry(refs, region, lane), 4)
}

fn append_feed_forward_carry_terms(out: &mut Vec<TermShape>, refs: &FfMerkleFamilyRefs, region: usize)
    ensures
        shapes(final(out)@) == shapes(old(out)@) + feed_forward_carry_terms(*refs, region),
{
    let ghost before = shapes(out@);
    let ghost f = |lane: int| feed_forward_carry(*refs, region, lane);
    let mut lane: usize = 0;
    assert(shapes(out@) =~= before + by_lane(f, 0));
    while lane < 4
        invariant
            lane <= 4,
            f == (|lane: int| feed_forward_carry(*refs, region, lane)),
            shapes(out@) == before + by_lane(f, lane as nat),
        decreases 4 - lane,
    {
        append_feed_forward_carry(out, refs, region, lane);
        assert(shapes(out@) =~= before + by_lane(f, (lane + 1) as nat));
        lane += 1;
    }
}

/// The children of a feed-forward node, for a rate lane and its capacity lane.
pub open spec fn feed_forward_node(refs: FfMerkleFamilyRefs, lane: int) -> Seq<Shape> {
    if lane < 2 {
        seq![
            shape(lane, seq![ColRef::Fixed(refs.node), ColRef::CommittedShift(refs.c@[lane])]),
            shape(lane, seq![ColRef::Fixed(refs.node), ColRef::Committed(refs.cr@[lane])]),
            shape(lane, seq![ColRef::Fixed(refs.node), ColRef::Committed(refs.d), ColRef::Committed(refs.cr@[lane])]),
            shape(lane, seq![ColRef::Fixed(refs.node), ColRef::Committed(refs.d), ColRef::Committed(refs.sib@[lane])]),
            shape(lane + 2, seq![ColRef::Fixed(refs.node), ColRef::CommittedShift(refs.c@[lane + 2])]),
            shape(lane + 2, seq![ColRef::Fixed(refs.node), ColRef::Committed(refs.sib@[lane])]),
            shape(lane + 2, seq![ColRef::Fixed(refs.node), ColRef::Committed(refs.d), ColRef::Committed(refs.cr@[lane])]),
            shape(lane + 2, seq![ColRef::Fixed(refs.node), ColRef::Committed(refs.d), ColRef::Committed(refs.sib@[lane])]),
            shape(lane + 2, seq![ColRef::Fixed(refs.iv@[lane])]),
        ]
    } else {
        Seq::empty()
    }
}

fn append_feed_forward_node(out: &mut Vec<TermShape>, refs: &FfMerkleFamilyRefs, lane: usize)
    requires
        lane < 2,
    ensures
        shapes(final(out)@) == shapes(old(out)@) + feed_forward_node(*refs, lane as int),
{
    let ghost before = shapes(out@);
    let ghost wanted = feed_forward_node(*refs, lane as int);
    if lane < 2 {
        let f0 = vec![ColRef::Fixed(refs.node), ColRef::CommittedShift(refs.c[lane])];
        assert(f0@ =~= wanted[0].factors);
        push_shape(out, lane, f0);
        let f1 = vec![ColRef::Fixed(refs.node), ColRef::Committed(refs.cr[lane])];
        assert(f1@ =~= wanted[1].factors);
        push_shape(out, lane, f1);
        let f2 = vec![ColRef::Fixed(refs.node), ColRef::Committed(refs.d), ColRef::Committed(refs.cr[lane])];
        assert(f2@ =~= wanted[2].factors);
        push_shape(out, lane, f2);
        let f3 = vec![ColRef::Fixed(refs.node), ColRef::Committed(refs.d), ColRef::Committed(refs.sib[lane])];
        assert(f3@ =~= wanted[3].factors);
        push_shape(out, lane, f3);
        let f4 = vec![ColRef::Fixed(refs.node), ColRef::CommittedShift(refs.c[lane + 2])];
        assert(f4@ =~= wanted[4].factors);
        push_shape(out, lane + 2, f4);
        let f5 = vec![ColRef::Fixed(refs.node), ColRef::Committed(refs.sib[lane])];
        assert(f5@ =~= wanted[5].factors);
        push_shape(out, lane + 2, f5);
        let f6 = vec![ColRef::Fixed(refs.node), ColRef::Committed(refs.d), ColRef::Committed(refs.cr[lane])];
        assert(f6@ =~= wanted[6].factors);
        push_shape(out, lane + 2, f6);
        let f7 = vec![ColRef::Fixed(refs.node), ColRef::Committed(refs.d), ColRef::Committed(refs.sib[lane])];
        assert(f7@ =~= wanted[7].factors);
        push_shape(out, lane + 2, f7);
        let f8 = vec![ColRef::Fixed(refs.iv[lane])];
        assert(f8@ =~= wanted[8].factors);
        push_shape(out, lane + 2, f8);
    }
    assert(shapes(out@) =~= before + wanted);
}

/// The children of a feed-forward node.
pub open spec fn feed_forward_node_terms(refs: FfMerkleFamilyRefs) -> Seq<Shape> {
    by_lane(|lane: int| feed_forward_node(refs, lane), 2)
}

fn append_feed_forward_node_terms(out: &mut Vec<TermShape>, refs: &FfMerkleFamilyRefs)
    ensures
        shapes(final(out)@) == shapes(old(out)@) + feed_forward_node_terms(*refs),
{
    let ghost before = shapes(out@);
    let ghost f = |lane: int| feed_forward_node(*refs, lane);
    let mut lane: usize = 0;
    assert(shapes(out@) =~= before + by_lane(f, 0));
    while lane < 2
        invariant
            lane <= 2,
            f == (|lane: int| feed_forward_node(*refs, lane)),
            shapes(out@) == before + by_lane(f, lane as nat),
        decreases 2 - lane,
    {
        append_feed_forward_node(out, refs, lane);
        assert(shapes(out@) =~= before + by_lane(f, (lane + 1) as nat));
        lane += 1;
    }
}

/// The child of a feed-forward node is the parent before it.
pub open spec fn feed_forward_link(refs: FfMerkleFamilyRefs, lane: int) -> Seq<Shape> {
    if lane < 2 {
        seq![
            shape(lane + 1, seq![ColRef::Fixed(refs.nodens), ColRef::Committed(refs.cr@[lane])]),
            shape(lane + 1, seq![ColRef::Fixed(refs.nodens), ColRef::CommittedShift(refs.c@[lane])]),
            shape(lane + 1, seq![ColRef::Fixed(refs.nodens), ColRef::CommittedShift(refs.cr@[lane])]),
            shape(lane + 1, seq![ColRef::Fixed(refs.nodens), ColRef::CommittedShift(refs.d), ColRef::CommittedShift(refs.cr@[lane])]),
            shape(lane + 1, seq![ColRef::Fixed(refs.nodens), ColRef::CommittedShift(refs.d), ColRef::CommittedShift(refs.sib@[lane])]),
        ]
    } else {
        Seq::empty()
    }
}

fn append_feed_forward_link(out: &mut Vec<TermShape>, refs: &FfMerkleFamilyRefs, lane: usize)
    requires
        lane < 2,
    ensures
        shapes(final(out)@) == shapes(old(out)@) + feed_forward_link(*refs, lane as int),
{
    let ghost before = shapes(out@);
    let ghost wanted = feed_forward_link(*refs, lane as int);
    if lane < 2 {
        let f0 = vec![ColRef::Fixed(refs.nodens), ColRef::Committed(refs.cr[lane])];
        assert(f0@ =~= wanted[0].factors);
        push_shape(out, lane + 1, f0);
        let f1 = vec![ColRef::Fixed(refs.nodens), ColRef::CommittedShift(refs.c[lane])];
        assert(f1@ =~= wanted[1].factors);
        push_shape(out, lane + 1, f1);
        let f2 = vec![ColRef::Fixed(refs.nodens), ColRef::CommittedShift(refs.cr[lane])];
        assert(f2@ =~= wanted[2].factors);
        push_shape(out, lane + 1, f2);
        let f3 = vec![ColRef::Fixed(refs.nodens), ColRef::CommittedShift(refs.d), ColRef::CommittedShift(refs.cr[lane])];
        assert(f3@ =~= wanted[3].factors);
        push_shape(out, lane + 1, f3);
        let f4 = vec![ColRef::Fixed(refs.nodens), ColRef::CommittedShift(refs.d), ColRef::CommittedShift(refs.sib[lane])];
        assert(f4@ =~= wanted[4].factors);
        push_shape(out, lane + 1, f4);
    }
    assert(shapes(out@) =~= before + wanted);
}

/// The children of feed-forward nodes are the parents before them.
pub open spec fn feed_forward_link_terms(refs: FfMerkleFamilyRefs) -> Seq<Shape> {
    by_lane(|lane: int| feed_forward_link(refs, lane), 2)
}

fn append_feed_forward_link_terms(out: &mut Vec<TermShape>, refs: &FfMerkleFamilyRefs)
    ensures
        shapes(final(out)@) == shapes(old(out)@) + feed_forward_link_terms(*refs),
{
    let ghost before = shapes(out@);
    let ghost f = |lane: int| feed_forward_link(*refs, lane);
    let mut lane: usize = 0;
    assert(shapes(out@) =~= before + by_lane(f, 0));
    while lane < 2
        invariant
            lane <= 2,
            f == (|lane: int| feed_forward_link(*refs, lane)),
            shapes(out@) == before + by_lane(f, lane as nat),
        decreases 2 - lane,
    {
        append_feed_forward_link(out, refs, lane);
        assert(shapes(out@) =~= before + by_lane(f, (lane + 1) as nat));
        lane += 1;
    }
}

/// A lane that starts, absorbs or takes a constant.
pub open spec fn duplex_lane(refs: DuplexFamilyRefs, offset: usize, lane: int) -> Seq<Shape> {
    if lane < 2 {
        seq![
            shape(offset + lane, seq![ColRef::Fixed(refs.start), ColRef::CommittedShift(refs.c@[lane])]),
            shape(offset + lane, seq![ColRef::Fixed(refs.abs@[lane]), ColRef::Committed(refs.a@[lane])]),
            shape(offset + lane, seq![ColRef::Fixed(refs.consts@[lane])]),
        ]
    } else {
        seq![
            shape(offset + lane, seq![ColRef::Fixed(refs.start), ColRef::CommittedShift(refs.c@[lane])]),
            shape(offset + lane, seq![ColRef::Fixed(refs.consts@[lane])]),
        ]
    }
}

fn append_duplex_lane(out: &mut Vec<TermShape>, refs: &DuplexFamilyRefs, offset: usize, lane: usize)
    requires
        lane < 4,
        offset <= 4,
    ensures
        shapes(final(out)@) == shapes(old(out)@) + duplex_lane(*refs, offset, lane as int),
{
    let ghost before = shapes(out@);
    let ghost wanted = duplex_lane(*refs, offset, lane as int);
    if lane < 2 {
        let f0 = vec![ColRef::Fixed(refs.start), ColRef::CommittedShift(refs.c[lane])];
        assert(f0@ =~= wanted[0].factors);
        push_shape(out, offset + lane, f0);
        let f1 = vec![ColRef::Fixed(refs.abs[lane]), ColRef::Committed(refs.a[lane])];
        assert(f1@ =~= wanted[1].factors);
        push_shape(out, offset + lane, f1);
        let f2 = vec![ColRef::Fixed(refs.consts[lane])];
        assert(f2@ =~= wanted[2].factors);
        push_shape(out, offset + lane, f2);
    } else {
        let f0 = vec![ColRef::Fixed(refs.start), ColRef::CommittedShift(refs.c[lane])];
        assert(f0@ =~= wanted[0].factors);
        push_shape(out, offset + lane, f0);
        let f1 = vec![ColRef::Fixed(refs.consts[lane])];
        assert(f1@ =~= wanted[1].factors);
        push_shape(out, offset + lane, f1);
    }
    assert(shapes(out@) =~= before + wanted);
}

/// The lanes of a duplex family, from a weight on.
pub open spec fn duplex_lane_terms(refs: DuplexFamilyRefs, offset: usize) -> Seq<Shape> {
    by_lane(|lane: int| duplex_lane(refs, offset, lane), 4)
}

fn append_duplex_lane_terms(out: &mut Vec<TermShape>, refs: &DuplexFamilyRefs, offset: usize)
    requires
        offset <= 4,
    ensures
        shapes(final(out)@) == shapes(old(out)@) + duplex_lane_terms(*refs, offset),
{
    let ghost before = shapes(out@);
    let ghost f = |lane: int| duplex_lane(*refs, offset, lane);
    let mut lane: usize = 0;
    assert(shapes(out@) =~= before + by_lane(f, 0));
    while lane < 4
        invariant
            lane <= 4,
            offset <= 4,
            f == (|lane: int| duplex_lane(*refs, offset, lane)),
            shapes(out@) == before + by_lane(f, lane as nat),
        decreases 4 - lane,
    {
        append_duplex_lane(out, refs, offset, lane);
        assert(shapes(out@) =~= before + by_lane(f, (lane + 1) as nat));
        lane += 1;
    }
}

/// A carried duplex lane.
pub open spec fn duplex_carry(refs: DuplexFamilyRefs, lane: int) -> Seq<Shape> {
    seq![
        shape(lane, seq![ColRef::CommittedShift(refs.c@[lane])]),
    ]
}

fn append_duplex_carry(out: &mut Vec<TermShape>, refs: &DuplexFamilyRefs, lane: usize)
    requires
        lane < 4,
    ensures
        shapes(final(out)@) == shapes(old(out)@) + duplex_carry(*refs, lane as int),
{
    let ghost before = shapes(out@);
    let ghost wanted = duplex_carry(*refs, lane as int);
    let f0 = vec![ColRef::CommittedShift(refs.c[lane])];
    assert(f0@ =~= wanted[0].factors);
    push_shape(out, lane, f0);
    assert(shapes(out@) =~= before + wanted);
}

/// The carried lanes of a duplex family.
pub open spec fn duplex_carry_terms(refs: DuplexFamilyRefs) -> Seq<Shape> {
    by_lane(|lane: int| duplex_carry(refs, lane), 4)
}

fn append_duplex_carry_terms(out: &mut Vec<TermShape>, refs: &DuplexFamilyRefs)
    ensures
        shapes(final(out)@) == shapes(old(out)@) + duplex_carry_terms(*refs),
{
    let ghost before = shapes(out@);
    let ghost f = |lane: int| duplex_carry(*refs, lane);
    let mut lane: usize = 0;
    assert(shapes(out@) =~= before + by_lane(f, 0));
    while lane < 4
        invariant
            lane <= 4,
            f == (|lane: int| duplex_carry(*refs, lane)),
            shapes(out@) == before + by_lane(f, lane as nat),
        decreases 4 - lane,
    {
        append_duplex_carry(out, refs, lane);
        assert(shapes(out@) =~= before + by_lane(f, (lane + 1) as nat));
        lane += 1;
    }
}

/// A lane of a leaf sponge within a region.
pub open spec fn sponge_lane(refs: SpongeLeafRefs, region: usize, lane: int) -> Seq<Shape> {
    if lane < 2 {
        seq![
            shape(lane, gated(region, seq![ColRef::Committed(refs.in_@[lane])])),
            shape(lane, gated(region, seq![ColRef::Fixed(refs.odd), ColRef::CommittedShift(refs.c@[lane])])),
        ]
    } else {
        seq![
            shape(lane, gated(region, seq![ColRef::Fixed(refs.iv@[lane - 2])])),
            shape(lane, gated(region, seq![ColRef::Fixed(refs.odd), ColRef::CommittedShift(refs.c@[lane])])),
        ]
    }
}

fn append_sponge_lane(out: &mut Vec<TermShape>, refs: &SpongeLeafRefs, region: usize, lane: usize)
    requires
        lane < 4,
    ensures
        shapes(final(out)@) == shapes(old(out)@) + sponge_lane(*refs, region, lane as int),
{
    let ghost before = shapes(out@);
    let ghost wanted = sponge_lane(*refs, region, lane as int);
    if lane < 2 {
        let p0 = vec![ColRef::Committed(refs.in_[lane])];
            assert(p0@ =~= seq![ColRef::Committed(refs.in_@[lane as int])]);
            let f0 = gate(region, p0);
        assert(f0@ =~= wanted[0].factors);
        push_shape(out, lane, f0);
        let p1 = vec![ColRef::Fixed(refs.odd), ColRef::CommittedShift(refs.c[lane])];
            assert(p1@ =~= seq![ColRef::Fixed(refs.odd), ColRef::CommittedShift(refs.c@[lane as int])]);
            let f1 = gate(region, p1);
        assert(f1@ =~= wanted[1].factors);
        push_shape(out, lane, f1);
    } else {
        let p0 = vec![ColRef::Fixed(refs.iv[lane - 2])];
            assert(p0@ =~= seq![ColRef::Fixed(refs.iv@[lane - 2])]);
            let f0 = gate(region, p0);
        assert(f0@ =~= wanted[0].factors);
        push_shape(out, lane, f0);
        let p1 = vec![ColRef::Fixed(refs.odd), ColRef::CommittedShift(refs.c[lane])];
            assert(p1@ =~= seq![ColRef::Fixed(refs.odd), ColRef::CommittedShift(refs.c@[lane as int])]);
            let f1 = gate(region, p1);
        assert(f1@ =~= wanted[1].factors);
        push_shape(out, lane, f1);
    }
    assert(shapes(out@) =~= before + wanted);
}

/// The lanes of a leaf sponge within a region.
pub open spec fn sponge_lane_terms(refs: SpongeLeafRefs, region: usize) -> Seq<Shape> {
    by_lane(|lane: int| sponge_lane(refs, region, lane), 4)
}

fn append_sponge_lane_terms(out: &mut Vec<TermShape>, refs: &SpongeLeafRefs, region: usize)
    ensures
        shapes(final(out)@) == shapes(old(out)@) + sponge_lane_terms(*refs, region),
{
    let ghost before = shapes(out@);
    let ghost f = |lane: int| sponge_lane(*refs, region, lane);
    let mut lane: usize = 0;
    assert(shapes(out@) =~= before + by_lane(f, 0));
    while lane < 4
        invariant
            lane <= 4,
            f == (|lane: int| sponge_lane(*refs, region, lane)),
            shapes(out@) == before + by_lane(f, lane as nat),
        decreases 4 - lane,
    {
        append_sponge_lane(out, refs, region, lane);
        assert(shapes(out@) =~= before + by_lane(f, (lane + 1) as nat));
        lane += 1;
    }
}

/// A lane of the tail of a split duplex.
pub open spec fn split_tail_lane(refs: SplitDuplexTailRefs, lane: int) -> Seq<Shape> {
    if lane < 2 {
        seq![
            shape(lane, seq![ColRef::Fixed(refs.region), ColRef::Committed(refs.a@[lane])]),
            shape(lane, seq![ColRef::Fixed(refs.consts@[lane])]),
            shape(lane, seq![ColRef::Fixed(refs.carry), ColRef::CommittedShift(refs.c@[lane])]),
        ]
    } else {
        seq![
            shape(lane, seq![ColRef::Fixed(refs.first), ColRef::CommittedShift(refs.a@[lane - 2])]),
            shape(lane, seq![ColRef::Fixed(refs.carry), ColRef::CommittedShift(refs.c@[lane])]),
        ]
    }
}

fn append_split_tail_lane(out: &mut Vec<TermShape>, refs: &SplitDuplexTailRefs, lane: usize)
    requires
        lane < 4,
    ensures
        shapes(final(out)@) == shapes(old(out)@) + split_tail_lane(*refs, lane as int),
{
    let ghost before = shapes(out@);
    let ghost wanted = split_tail_lane(*refs, lane as int);
    if lane < 2 {
        let f0 = vec![ColRef::Fixed(refs.region), ColRef::Committed(refs.a[lane])];
        assert(f0@ =~= wanted[0].factors);
        push_shape(out, lane, f0);
        let f1 = vec![ColRef::Fixed(refs.consts[lane])];
        assert(f1@ =~= wanted[1].factors);
        push_shape(out, lane, f1);
        let f2 = vec![ColRef::Fixed(refs.carry), ColRef::CommittedShift(refs.c[lane])];
        assert(f2@ =~= wanted[2].factors);
        push_shape(out, lane, f2);
    } else {
        let f0 = vec![ColRef::Fixed(refs.first), ColRef::CommittedShift(refs.a[lane - 2])];
        assert(f0@ =~= wanted[0].factors);
        push_shape(out, lane, f0);
        let f1 = vec![ColRef::Fixed(refs.carry), ColRef::CommittedShift(refs.c[lane])];
        assert(f1@ =~= wanted[1].factors);
        push_shape(out, lane, f1);
    }
    assert(shapes(out@) =~= before + wanted);
}

/// The tail of a split duplex.
pub open spec fn split_tail_lane_terms(refs: SplitDuplexTailRefs) -> Seq<Shape> {
    by_lane(|lane: int| split_tail_lane(refs, lane), 4)
}

fn append_split_tail_lane_terms(out: &mut Vec<TermShape>, refs: &SplitDuplexTailRefs)
    ensures
        shapes(final(out)@) == shapes(old(out)@) + split_tail_lane_terms(*refs),
{
    let ghost before = shapes(out@);
    let ghost f = |lane: int| split_tail_lane(*refs, lane);
    let mut lane: usize = 0;
    assert(shapes(out@) =~= before + by_lane(f, 0));
    while lane < 4
        invariant
            lane <= 4,
            f == (|lane: int| split_tail_lane(*refs, lane)),
            shapes(out@) == before + by_lane(f, lane as nat),
        decreases 4 - lane,
    {
        append_split_tail_lane(out, refs, lane);
        assert(shapes(out@) =~= before + by_lane(f, (lane + 1) as nat));
        lane += 1;
    }
}

/// A lane of a source tree.
pub open spec fn source_tree_lane(refs: SourceTreeRefs, lane: int) -> Seq<Shape> {
    if lane < 2 {
        seq![
            shape(lane, seq![ColRef::Fixed(refs.even_int), ColRef::Committed(refs.kid@[lane])]),
            shape(lane, seq![ColRef::Fixed(refs.odd_int), ColRef::Committed(refs.kid@[lane])]),
            shape(lane, seq![ColRef::Fixed(refs.odd_int), ColRef::CommittedShift(refs.c@[lane])]),
            shape(lane, seq![ColRef::Fixed(refs.leafodd), ColRef::Committed(refs.code@[lane])]),
        ]
    } else {
        seq![
            shape(lane, seq![ColRef::Fixed(refs.iv@[lane - 2])]),
            shape(lane, seq![ColRef::Fixed(refs.odd_int), ColRef::CommittedShift(refs.c@[lane])]),
        ]
    }
}

fn append_source_tree_lane(out: &mut Vec<TermShape>, refs: &SourceTreeRefs, lane: usize)
    requires
        lane < 4,
    ensures
        shapes(final(out)@) == shapes(old(out)@) + source_tree_lane(*refs, lane as int),
{
    let ghost before = shapes(out@);
    let ghost wanted = source_tree_lane(*refs, lane as int);
    if lane < 2 {
        let f0 = vec![ColRef::Fixed(refs.even_int), ColRef::Committed(refs.kid[lane])];
        assert(f0@ =~= wanted[0].factors);
        push_shape(out, lane, f0);
        let f1 = vec![ColRef::Fixed(refs.odd_int), ColRef::Committed(refs.kid[lane])];
        assert(f1@ =~= wanted[1].factors);
        push_shape(out, lane, f1);
        let f2 = vec![ColRef::Fixed(refs.odd_int), ColRef::CommittedShift(refs.c[lane])];
        assert(f2@ =~= wanted[2].factors);
        push_shape(out, lane, f2);
        let f3 = vec![ColRef::Fixed(refs.leafodd), ColRef::Committed(refs.code[lane])];
        assert(f3@ =~= wanted[3].factors);
        push_shape(out, lane, f3);
    } else {
        let f0 = vec![ColRef::Fixed(refs.iv[lane - 2])];
        assert(f0@ =~= wanted[0].factors);
        push_shape(out, lane, f0);
        let f1 = vec![ColRef::Fixed(refs.odd_int), ColRef::CommittedShift(refs.c[lane])];
        assert(f1@ =~= wanted[1].factors);
        push_shape(out, lane, f1);
    }
    assert(shapes(out@) =~= before + wanted);
}

/// The lanes of a source tree.
pub open spec fn source_tree_lane_terms(refs: SourceTreeRefs) -> Seq<Shape> {
    by_lane(|lane: int| source_tree_lane(refs, lane), 4)
}

fn append_source_tree_lane_terms(out: &mut Vec<TermShape>, refs: &SourceTreeRefs)
    ensures
        shapes(final(out)@) == shapes(old(out)@) + source_tree_lane_terms(*refs),
{
    let ghost before = shapes(out@);
    let ghost f = |lane: int| source_tree_lane(*refs, lane);
    let mut lane: usize = 0;
    assert(shapes(out@) =~= before + by_lane(f, 0));
    while lane < 4
        invariant
            lane <= 4,
            f == (|lane: int| source_tree_lane(*refs, lane)),
            shapes(out@) == before + by_lane(f, lane as nat),
        decreases 4 - lane,
    {
        append_source_tree_lane(out, refs, lane);
        assert(shapes(out@) =~= before + by_lane(f, (lane + 1) as nat));
        lane += 1;
    }
}

// ---------------------------------------------------------------------------
// Families
// ---------------------------------------------------------------------------

/// The direction bit of a two-permutation family is a bit where a level starts.
pub open spec fn direction_terms(refs: MerkleFamilyRefs) -> Seq<Shape> {
    let (even, d) = (ColRef::Fixed(refs.even), ColRef::Committed(refs.d));
    seq![shape(0, seq![even, d, d]), shape(0, seq![even, d])]
}

/// The sides of the first `n` consistency equations of paired updates, each
/// under its own power.
pub open spec fn paired_zero_terms(refs: PairedMerkleUpdateRefs, n: nat) -> Seq<Shape>
    decreases n,
{
    if n == 0 {
        Seq::empty()
    } else {
        let e = consistency(refs)[n - 1];
        paired_zero_terms(refs, (n - 1) as nat).push(shape(n - 1, e.left)).push(
            shape(n - 1, e.right),
        )
    }
}

/// Products under one weight, gated by a region.
pub open spec fn gated_terms(weight: int, region: usize, factors: Seq<Seq<ColRef>>) -> Seq<Shape> {
    Seq::new(factors.len(), |i: int| shape(weight, gated(region, factors[i])))
}

/// The input of paired updates within a region.
pub open spec fn paired_terms(refs: PairedMerkleUpdateRefs, region: usize) -> Seq<Shape> {
    by_lane(|lane: int| gated_terms(lane, region, input_factors(refs, lane)), 4)
}

/// The terms that the first `n` families contribute.
pub open spec fn gather(
    families: Seq<MerkleProtocolFamily>,
    f: spec_fn(MerkleProtocolFamily) -> Seq<Shape>,
    n: nat,
) -> Seq<Shape>
    decreases n,
{
    if n == 0 {
        Seq::empty()
    } else {
        gather(families, f, (n - 1) as nat) + f(families[n - 1])
    }
}

pub open spec fn family_direction(f: MerkleProtocolFamily) -> Seq<Shape> {
    match f {
        MerkleProtocolFamily::TwoPermutation { refs, .. } => direction_terms(refs),
        _ => Seq::empty(),
    }
}

pub open spec fn family_link(f: MerkleProtocolFamily) -> Seq<Shape> {
    match f {
        MerkleProtocolFamily::FeedForward { refs, .. } => feed_forward_link_terms(refs),
        _ => Seq::empty(),
    }
}

pub open spec fn family_paired_zero(f: MerkleProtocolFamily) -> Seq<Shape> {
    match f {
        MerkleProtocolFamily::PairedUpdate { refs, .. } => paired_zero_terms(refs, 6),
        _ => Seq::empty(),
    }
}

pub open spec fn family_feed_forward(f: MerkleProtocolFamily) -> Seq<Shape> {
    match f {
        MerkleProtocolFamily::FeedForward { refs, region } => feed_forward_carry_terms(
            refs,
            region,
        ) + feed_forward_node_terms(refs),
        _ => Seq::empty(),
    }
}

pub open spec fn family_two_permutation(f: MerkleProtocolFamily) -> Seq<Shape> {
    match f {
        MerkleProtocolFamily::TwoPermutation { refs, region } => two_permutation_lane_terms(
            refs,
            region,
        ),
        _ => Seq::empty(),
    }
}

pub open spec fn family_paired(f: MerkleProtocolFamily) -> Seq<Shape> {
    match f {
        MerkleProtocolFamily::PairedUpdate { refs, region } => paired_terms(refs, region),
        _ => Seq::empty(),
    }
}

/// The terms that must vanish: two-permutation families, then feed-forward
/// ones, then paired ones. The weight is the power of the challenge.
pub open spec fn zero_shapes(families: Seq<MerkleProtocolFamily>) -> Seq<Shape> {
    gather(families, |f: MerkleProtocolFamily| family_direction(f), families.len()) + gather(
        families,
        |f: MerkleProtocolFamily| family_link(f),
        families.len(),
    ) + gather(families, |f: MerkleProtocolFamily| family_paired_zero(f), families.len())
}

/// The terms of the permutation inputs: feed-forward families, then
/// two-permutation ones, then paired ones. The weight is the lane.
pub open spec fn substitution_shapes(families: Seq<MerkleProtocolFamily>) -> Seq<Shape> {
    gather(families, |f: MerkleProtocolFamily| family_feed_forward(f), families.len()) + gather(
        families,
        |f: MerkleProtocolFamily| family_two_permutation(f),
        families.len(),
    ) + gather(families, |f: MerkleProtocolFamily| family_paired(f), families.len())
}

fn append_direction(out: &mut Vec<TermShape>, refs: &MerkleFamilyRefs)
    ensures
        shapes(final(out)@) == shapes(old(out)@) + direction_terms(*refs),
{
    let ghost before = shapes(out@);
    let ghost wanted = direction_terms(*refs);
    let (even, d) = (ColRef::Fixed(refs.even), ColRef::Committed(refs.d));
    let (f0, f1) = (vec![even, d, d], vec![even, d]);
    assert(f0@ =~= wanted[0].factors && f1@ =~= wanted[1].factors);
    push_shape(out, 0, f0);
    push_shape(out, 0, f1);
    assert(shapes(out@) =~= before + wanted);
}

fn push_sides(out: &mut Vec<TermShape>, weight: usize, left: Vec<ColRef>, right: Vec<ColRef>)
    ensures
        shapes(final(out)@) == shapes(old(out)@).push(shape(weight as int, left@)).push(
            shape(weight as int, right@),
        ),
{
    push_shape(out, weight, left);
    push_shape(out, weight, right);
}

fn append_paired_zero(out: &mut Vec<TermShape>, refs: &PairedMerkleUpdateRefs)
    ensures
        shapes(final(out)@) == shapes(old(out)@) + paired_zero_terms(*refs, 6),
{
    let ghost before = shapes(out@);
    let ghost eqs = consistency(*refs);
    let (old_even, bridge, copy) = (
        ColRef::Fixed(refs.old_even),
        ColRef::Fixed(refs.bridge),
        ColRef::Fixed(refs.copy_step),
    );
    let d = ColRef::Committed(refs.d);
    reveal_with_fuel(paired_zero_terms, 7);
    let (l0, r0) = (vec![old_even, d, d], vec![old_even, d]);
    assert(l0@ =~= eqs[0].left && r0@ =~= eqs[0].right);
    push_sides(out, 0, l0, r0);
    let (l1, r1) = (
        vec![bridge, ColRef::Committed(refs.e[0])],
        vec![bridge, ColRef::CommittedShift2(refs.c[0])],
    );
    assert(l1@ =~= eqs[1].left && r1@ =~= eqs[1].right);
    push_sides(out, 1, l1, r1);
    let (l2, r2) = (
        vec![bridge, ColRef::Committed(refs.e[1])],
        vec![bridge, ColRef::CommittedShift2(refs.c[1])],
    );
    assert(l2@ =~= eqs[2].left && r2@ =~= eqs[2].right);
    push_sides(out, 2, l2, r2);
    let (l3, r3) = (
        vec![copy, ColRef::Committed(refs.sib[0])],
        vec![copy, ColRef::CommittedShift(refs.sib[0])],
    );
    assert(l3@ =~= eqs[3].left && r3@ =~= eqs[3].right);
    push_sides(out, 3, l3, r3);
    let (l4, r4) = (
        vec![copy, ColRef::Committed(refs.sib[1])],
        vec![copy, ColRef::CommittedShift(refs.sib[1])],
    );
    assert(l4@ =~= eqs[4].left && r4@ =~= eqs[4].right);
    push_sides(out, 4, l4, r4);
    let (l5, r5) = (vec![copy, d], vec![copy, ColRef::CommittedShift(refs.d)]);
    assert(l5@ =~= eqs[5].left && r5@ =~= eqs[5].right);
    push_sides(out, 5, l5, r5);
    assert(shapes(out@) =~= before + paired_zero_terms(*refs, 6));
}

fn push_gated(out: &mut Vec<TermShape>, weight: usize, region: usize, factors: Vec<ColRef>)
    ensures
        shapes(final(out)@) == shapes(old(out)@).push(
            shape(weight as int, gated(region, factors@)),
        ),
{
    let f = gate(region, factors);
    push_shape(out, weight, f);
}

fn append_paired_lane(
    out: &mut Vec<TermShape>,
    refs: &PairedMerkleUpdateRefs,
    region: usize,
    lane: usize,
)
    requires
        lane < 4,
    ensures
        shapes(final(out)@) == shapes(old(out)@) + gated_terms(
            lane as int,
            region,
            input_factors(*refs, lane as int),
        ),
{
    let ghost before = shapes(out@);
    let ghost wanted = input_factors(*refs, lane as int);
    let even = ColRef::Fixed(refs.even);
    let c_shift = ColRef::CommittedShift(refs.c[lane]);
    let (f0, f1) = (vec![c_shift], vec![even, c_shift]);
    assert(f0@ =~= wanted[0] && f1@ =~= wanted[1]);
    push_gated(out, lane, region, f0);
    push_gated(out, lane, region, f1);
    if lane < 2 {
        let e = ColRef::Committed(refs.e[lane]);
        let e_shift = ColRef::CommittedShift(refs.e[lane]);
        let e_shift2 = ColRef::CommittedShift2(refs.e[lane]);
        let sib = ColRef::Committed(refs.sib[lane]);
        let sib_shift = ColRef::CommittedShift(refs.sib[lane]);
        let d = ColRef::Committed(refs.d);
        let d_shift = ColRef::CommittedShift(refs.d);
        let (start, later) = (ColRef::Fixed(refs.even_start), ColRef::Fixed(refs.even_nonstart));
        let odd = ColRef::Fixed(refs.odd);
        let f2 = vec![start, e];
        let f3 = vec![start, d, e];
        let f4 = vec![later, e_shift];
        let f5 = vec![later, d, e_shift];
        let f6 = vec![even, d, sib];
        let f7 = vec![odd, sib_shift];
        let f8 = vec![odd, d_shift, sib_shift];
        let f9 = vec![ColRef::Fixed(refs.odd_start), d_shift, e_shift];
        let f10 = vec![ColRef::Fixed(refs.odd_nonstart), d_shift, e_shift2];
        assert(f2@ =~= wanted[2] && f3@ =~= wanted[3] && f4@ =~= wanted[4]);
        assert(f5@ =~= wanted[5] && f6@ =~= wanted[6] && f7@ =~= wanted[7]);
        assert(f8@ =~= wanted[8] && f9@ =~= wanted[9] && f10@ =~= wanted[10]);
        push_gated(out, lane, region, f2);
        push_gated(out, lane, region, f3);
        push_gated(out, lane, region, f4);
        push_gated(out, lane, region, f5);
        push_gated(out, lane, region, f6);
        push_gated(out, lane, region, f7);
        push_gated(out, lane, region, f8);
        push_gated(out, lane, region, f9);
        push_gated(out, lane, region, f10);
    } else {
        let f2 = vec![ColRef::Fixed(refs.iv[lane - 2])];
        assert(f2@ =~= wanted[2]);
        push_gated(out, lane, region, f2);
    }
    assert(shapes(out@) =~= before + gated_terms(lane as int, region, wanted));
}

fn append_paired_terms(out: &mut Vec<TermShape>, refs: &PairedMerkleUpdateRefs, region: usize)
    ensures
        shapes(final(out)@) == shapes(old(out)@) + paired_terms(*refs, region),
{
    let ghost before = shapes(out@);
    let ghost f = |lane: int| gated_terms(lane, region, input_factors(*refs, lane));
    let mut lane: usize = 0;
    assert(shapes(out@) =~= before + by_lane(f, 0));
    while lane < 4
        invariant
            lane <= 4,
            f == (|lane: int| gated_terms(lane, region, input_factors(*refs, lane))),
            shapes(out@) == before + by_lane(f, lane as nat),
        decreases 4 - lane,
    {
        append_paired_lane(out, refs, region, lane);
        assert(shapes(out@) =~= before + by_lane(f, (lane + 1) as nat));
        lane += 1;
    }
}

/// One pass over the families for one kind of terms.
fn append_family(out: &mut Vec<TermShape>, family: &MerkleProtocolFamily, pass: usize)
    requires
        pass < 6,
    ensures
        shapes(final(out)@) == shapes(old(out)@) + family_pass(pass as int, *family),
{
    let ghost before = shapes(out@);
    match family {
        MerkleProtocolFamily::FeedForward { refs, region } => {
            if pass == 1 {
                append_feed_forward_link_terms(out, refs);
            } else if pass == 3 {
                append_feed_forward_carry_terms(out, refs, *region);
                append_feed_forward_node_terms(out, refs);
                assert(shapes(out@) =~= before + family_pass(pass as int, *family));
            } else {
                assert(shapes(out@) =~= before + family_pass(pass as int, *family));
            }
        },
        MerkleProtocolFamily::TwoPermutation { refs, region } => {
            if pass == 0 {
                append_direction(out, refs);
            } else if pass == 4 {
                append_two_permutation_lane_terms(out, refs, *region);
            } else {
                assert(shapes(out@) =~= before + family_pass(pass as int, *family));
            }
        },
        MerkleProtocolFamily::PairedUpdate { refs, region } => {
            if pass == 2 {
                append_paired_zero(out, refs);
            } else if pass == 5 {
                append_paired_terms(out, refs, *region);
            } else {
                assert(shapes(out@) =~= before + family_pass(pass as int, *family));
            }
        },
    }
}

spec fn family_pass(pass: int, f: MerkleProtocolFamily) -> Seq<Shape> {
    if pass == 0 {
        family_direction(f)
    } else if pass == 1 {
        family_link(f)
    } else if pass == 2 {
        family_paired_zero(f)
    } else if pass == 3 {
        family_feed_forward(f)
    } else if pass == 4 {
        family_two_permutation(f)
    } else {
        family_paired(f)
    }
}

fn append_families(
    out: &mut Vec<TermShape>,
    families: &Vec<MerkleProtocolFamily>,
    pass: usize,
    Ghost(f): Ghost<spec_fn(MerkleProtocolFamily) -> Seq<Shape>>,
)
    requires
        pass < 6,
        forall|x: MerkleProtocolFamily| #[trigger] f(x) == family_pass(pass as int, x),
    ensures
        shapes(final(out)@) == shapes(old(out)@) + gather(families@, f, families@.len()),
{
    let ghost before = shapes(out@);
    let mut i: usize = 0;
    assert(shapes(out@) =~= before + gather(families@, f, 0));
    while i < families.len()
        invariant
            i <= families@.len(),
            pass < 6,
            forall|x: MerkleProtocolFamily| #[trigger] f(x) == family_pass(pass as int, x),
            shapes(out@) == before + gather(families@, f, i as nat),
        decreases families@.len() - i,
    {
        append_family(out, &families[i], pass);
        assert(f(families@[i as int]) == family_pass(pass as int, families@[i as int]));
        assert(shapes(out@) =~= before + gather(families@, f, (i + 1) as nat));
        i += 1;
    }
}

/// The terms that must vanish.
pub fn merkle_zero_shapes(families: &Vec<MerkleProtocolFamily>) -> (r: Vec<TermShape>)
    ensures
        shapes(r@) == zero_shapes(families@),
{
    let mut out: Vec<TermShape> = Vec::new();
    assert(shapes(out@) =~= Seq::empty());
    append_families(&mut out, families, 0, Ghost(|f: MerkleProtocolFamily| family_direction(f)));
    append_families(&mut out, families, 1, Ghost(|f: MerkleProtocolFamily| family_link(f)));
    append_families(&mut out, families, 2, Ghost(|f: MerkleProtocolFamily| family_paired_zero(f)));
    assert(shapes(out@) =~= zero_shapes(families@));
    out
}

/// The terms of the permutation inputs.
pub fn merkle_substitution_shapes(families: &Vec<MerkleProtocolFamily>) -> (r: Vec<TermShape>)
    ensures
        shapes(r@) == substitution_shapes(families@),
{
    let mut out: Vec<TermShape> = Vec::new();
    assert(shapes(out@) =~= Seq::empty());
    append_families(
        &mut out,
        families,
        3,
        Ghost(|f: MerkleProtocolFamily| family_feed_forward(f)),
    );
    append_families(
        &mut out,
        families,
        4,
        Ghost(|f: MerkleProtocolFamily| family_two_permutation(f)),
    );
    append_families(&mut out, families, 5, Ghost(|f: MerkleProtocolFamily| family_paired(f)));
    assert(shapes(out@) =~= substitution_shapes(families@));
    out
}

// ---------------------------------------------------------------------------
// Duplexes, leaves and the spine
// ---------------------------------------------------------------------------

/// The lanes of the first `n` duplex families under the same weights.
pub open spec fn duplex_sets(sets: Seq<DuplexFamilyRefs>, n: nat) -> Seq<Shape>
    decreases n,
{
    if n == 0 {
        Seq::empty()
    } else {
        duplex_sets(sets, (n - 1) as nat) + duplex_lane_terms(sets[n - 1], 0)
    }
}

/// The inputs of a duplex family and of those that record it.
pub open spec fn duplex_shapes(sets: Seq<DuplexFamilyRefs>) -> Seq<Shape> {
    duplex_carry_terms(sets[0]) + duplex_sets(sets, sets.len())
}

/// The lanes of the first `n` pairs: the second of a pair under the selected
/// weights, which follow the others.
pub open spec fn duplex_pairs(sets: Seq<DuplexFamilyRefs>, n: nat) -> Seq<Shape>
    decreases n,
{
    if n == 0 {
        Seq::empty()
    } else {
        duplex_pairs(sets, (n - 1) as nat) + duplex_lane_terms(sets[2 * (n - 1)], 0)
            + duplex_lane_terms(sets[2 * (n - 1) + 1], 4)
    }
}

/// The inputs of paired duplex families, one of each pair selected.
pub open spec fn duplex_selected_shapes(sets: Seq<DuplexFamilyRefs>) -> Seq<Shape> {
    duplex_carry_terms(sets[0]) + duplex_pairs(sets, sets.len() / 2)
}

/// A spine: its tree, its wrapping sponge, and where its columns are.
#[derive(Debug)]
pub struct SpineUnionSpec {
    pub tree_refs: SourceTreeRefs,
    pub wrap_refs: SpongeLeafRefs,
    pub wrap_region: usize,
    pub kid_meta: [usize; 2],
    pub c_meta: [usize; 2],
    pub local_log: usize,
    pub cap_log: usize,
    pub expo_wlog: usize,
    pub base_bits: Vec<F128>,
    pub walk_high_bits: Vec<F128>,
}

/// What the leaf walk joins.
#[derive(Debug)]
pub struct WalkAUnion {
    pub leaf_refs: Vec<(SpongeLeafRefs, usize)>,
    pub split_tails: Vec<SplitDuplexTailRefs>,
    pub es_sponge: Option<(SpongeLeafRefs, usize)>,
    pub spine: Option<SpineUnionSpec>,
}

pub open spec fn leaves_shapes(leaves: Seq<(SpongeLeafRefs, usize)>, n: nat) -> Seq<Shape>
    decreases n,
{
    if n == 0 {
        Seq::empty()
    } else {
        leaves_shapes(leaves, (n - 1) as nat) + sponge_lane_terms(
            leaves[n - 1].0,
            leaves[n - 1].1,
        )
    }
}

pub open spec fn tails_shapes(tails: Seq<SplitDuplexTailRefs>, n: nat) -> Seq<Shape>
    decreases n,
{
    if n == 0 {
        Seq::empty()
    } else {
        tails_shapes(tails, (n - 1) as nat) + split_tail_lane_terms(tails[n - 1])
    }
}

/// The inputs of the leaf walk.
pub open spec fn walk_a_shapes(u: WalkAUnion) -> Seq<Shape> {
    leaves_shapes(u.leaf_refs@, u.leaf_refs@.len()) + tails_shapes(
        u.split_tails@,
        u.split_tails@.len(),
    ) + (match u.es_sponge {
        Some((refs, region)) => sponge_lane_terms(refs, region),
        None => Seq::empty(),
    }) + (match u.spine {
        Some(spec) => source_tree_lane_terms(spec.tree_refs) + sponge_lane_terms(
            spec.wrap_refs,
            spec.wrap_region,
        ),
        None => Seq::empty(),
    })
}

/// The spine's children are its carried digests: a column against every second
/// slot of another, lane by lane, under the next power.
pub open spec fn exposure_shapes() -> Seq<Shape> {
    seq![
        shape(1, seq![ColRef::Fixed(0), ColRef::Committed(0)]),
        shape(1, seq![ColRef::Fixed(0), ColRef::Window { col: 2, stride_log: 1, offset: 1 }]),
        shape(2, seq![ColRef::Fixed(0), ColRef::Committed(1)]),
        shape(2, seq![ColRef::Fixed(0), ColRef::Window { col: 3, stride_log: 1, offset: 1 }]),
    ]
}

fn duplex_term_shapes(sets: &Vec<DuplexFamilyRefs>) -> (r: Vec<TermShape>)
    requires
        sets@.len() > 0,
    ensures
        shapes(r@) == duplex_shapes(sets@),
{
    let mut out: Vec<TermShape> = Vec::new();
    assert(shapes(out@) =~= Seq::empty());
    append_duplex_carry_terms(&mut out, &sets[0]);
    let ghost head = duplex_carry_terms(sets@[0]);
    assert(shapes(out@) =~= head + duplex_sets(sets@, 0));
    let mut i: usize = 0;
    while i < sets.len()
        invariant
            i <= sets@.len(),
            shapes(out@) == head + duplex_sets(sets@, i as nat),
        decreases sets@.len() - i,
    {
        append_duplex_lane_terms(&mut out, &sets[i], 0);
        assert(shapes(out@) =~= head + duplex_sets(sets@, (i + 1) as nat));
        i += 1;
    }
    out
}

fn duplex_selected_term_shapes(sets: &Vec<DuplexFamilyRefs>) -> (r: Vec<TermShape>)
    requires
        sets@.len() > 0,
        sets@.len() % 2 == 0,
    ensures
        shapes(r@) == duplex_selected_shapes(sets@),
{
    let mut out: Vec<TermShape> = Vec::new();
    assert(shapes(out@) =~= Seq::empty());
    append_duplex_carry_terms(&mut out, &sets[0]);
    let ghost head = duplex_carry_terms(sets@[0]);
    assert(shapes(out@) =~= head + duplex_pairs(sets@, 0));
    let count: usize = sets.len();
    let pairs: usize = count / 2;
    let mut i: usize = 0;
    while i < pairs
        invariant
            i <= pairs,
            count == sets@.len(),
            pairs == count / 2,
            shapes(out@) == head + duplex_pairs(sets@, i as nat),
        decreases pairs - i,
    {
        append_duplex_lane_terms(&mut out, &sets[2 * i], 0);
        append_duplex_lane_terms(&mut out, &sets[2 * i + 1], 4);
        assert(shapes(out@) =~= head + duplex_pairs(sets@, (i + 1) as nat));
        i += 1;
    }
    out
}

/// The inputs of the leaf walk.
pub fn walk_a_term_shapes(union: &WalkAUnion) -> (r: Vec<TermShape>)
    ensures
        shapes(r@) == walk_a_shapes(*union),
{
    let mut out: Vec<TermShape> = Vec::new();
    let ghost leaves = union.leaf_refs@;
    let ghost tails = union.split_tails@;
    assert(shapes(out@) =~= leaves_shapes(leaves, 0));
    let mut i: usize = 0;
    while i < union.leaf_refs.len()
        invariant
            i <= leaves.len(),
            leaves == union.leaf_refs@,
            shapes(out@) == leaves_shapes(leaves, i as nat),
        decreases leaves.len() - i,
    {
        append_sponge_lane_terms(&mut out, &union.leaf_refs[i].0, union.leaf_refs[i].1);
        i += 1;
    }
    let ghost head = leaves_shapes(leaves, leaves.len());
    assert(shapes(out@) =~= head + tails_shapes(tails, 0));
    let mut k: usize = 0;
    while k < union.split_tails.len()
        invariant
            k <= tails.len(),
            tails == union.split_tails@,
            shapes(out@) == head + tails_shapes(tails, k as nat),
        decreases tails.len() - k,
    {
        append_split_tail_lane_terms(&mut out, &union.split_tails[k]);
        assert(shapes(out@) =~= head + tails_shapes(tails, (k + 1) as nat));
        k += 1;
    }
    match &union.es_sponge {
        Some((refs, region)) => {
            append_sponge_lane_terms(&mut out, refs, *region);
        },
        None => {},
    }
    match &union.spine {
        Some(spec) => {
            append_source_tree_lane_terms(&mut out, &spec.tree_refs);
            append_sponge_lane_terms(&mut out, &spec.wrap_refs, spec.wrap_region);
        },
        None => {},
    }
    assert(shapes(out@) =~= walk_a_shapes(*union));
    out
}

/// The terms of the spine's exposure.
pub fn exposure_term_shapes() -> (r: Vec<TermShape>)
    ensures
        shapes(r@) == exposure_shapes(),
{
    let ghost wanted = exposure_shapes();
    let mut out: Vec<TermShape> = Vec::new();
    assert(shapes(out@) =~= Seq::empty());
    let gate_ref = ColRef::Fixed(0);
    let f0 = vec![gate_ref, ColRef::Committed(0)];
    let f1 = vec![gate_ref, ColRef::Window { col: 2, stride_log: 1, offset: 1 }];
    let f2 = vec![gate_ref, ColRef::Committed(1)];
    let f3 = vec![gate_ref, ColRef::Window { col: 3, stride_log: 1, offset: 1 }];
    assert(f0@ =~= wanted[0].factors && f1@ =~= wanted[1].factors);
    assert(f2@ =~= wanted[2].factors && f3@ =~= wanted[3].factors);
    push_shape(&mut out, 1, f0);
    push_shape(&mut out, 1, f1);
    push_shape(&mut out, 2, f2);
    push_shape(&mut out, 2, f3);
    assert(shapes(out@) =~= wanted);
    out
}

// ---------------------------------------------------------------------------
// Weights
// ---------------------------------------------------------------------------

/// A term with its coefficient.
#[derive(Debug)]
pub struct C1RelationTerm {
    pub coeff: F256,
    pub factors: Vec<ColRef>,
}

/// A term with its coefficient.
pub struct C1Term {
    pub coeff: F256,
    pub factors: Seq<ColRef>,
}

impl View for C1RelationTerm {
    type V = C1Term;

    open spec fn view(&self) -> C1Term {
        C1Term { coeff: self.coeff, factors: self.factors@ }
    }
}

/// A term with its coefficient in the trace.
#[derive(Debug)]
pub struct C1RelationTermTrace {
    pub coeff: ExtExpr,
    pub factors: Vec<ColRef>,
}

/// A term with its coefficient in the trace.
pub struct C1TermLin {
    pub coeff: ExtLin,
    pub factors: Seq<ColRef>,
}

impl View for C1RelationTermTrace {
    type V = C1TermLin;

    open spec fn view(&self) -> C1TermLin {
        C1TermLin { coeff: self.coeff@, factors: self.factors@ }
    }
}

pub open spec fn c1_terms(s: Seq<C1RelationTerm>) -> Seq<C1Term> {
    Seq::new(s.len(), |i: int| s[i]@)
}

pub open spec fn c1_trace_terms(s: Seq<C1RelationTermTrace>) -> Seq<C1TermLin> {
    Seq::new(s.len(), |i: int| s[i]@)
}

/// A weight of a table.
pub open spec fn weight_of(table: Seq<F256>, i: nat) -> F256 {
    if i < table.len() {
        table[i as int]
    } else {
        F256::zero()
    }
}

pub open spec fn weight_lin(table: Seq<ExtLin>, i: nat) -> ExtLin {
    if i < table.len() {
        table[i as int]
    } else {
        ExtLin::zero()
    }
}

/// Terms under a table of weights.
pub open spec fn weighted(s: Seq<Shape>, table: Seq<F256>) -> Seq<C1Term> {
    Seq::new(
        s.len(),
        |i: int| C1Term { coeff: weight_of(table, s[i].weight), factors: s[i].factors },
    )
}

/// Terms under a table of weights in the trace.
pub open spec fn weighted_lins(s: Seq<Shape>, table: Seq<ExtLin>) -> Seq<C1TermLin> {
    Seq::new(
        s.len(),
        |i: int| C1TermLin { coeff: weight_lin(table, s[i].weight), factors: s[i].factors },
    )
}

/// Terms in the trace have the factors of the native terms, and coefficients
/// that evaluate to theirs.
pub proof fn lemma_terms_lift(s: Seq<Shape>, table: Seq<ExtLin>, z: Seq<F128>, i: int)
    requires
        0 <= i < s.len(),
    ensures
        weighted_lins(s, table)[i].factors == weighted(s, ext_evals(table, z))[i].factors,
        weighted_lins(s, table)[i].coeff.eval(z) == weighted(s, ext_evals(table, z))[i].coeff,
{
    broadcast use crate::circuit::group_lin;

}

fn copy_factors(s: &Vec<ColRef>) -> (r: Vec<ColRef>)
    ensures
        r@ == s@,
{
    let mut r: Vec<ColRef> = Vec::new();
    while r.len() < s.len()
        invariant
            r@.len() <= s@.len(),
            r@ == s@.take(r@.len() as int),
        decreases s@.len() - r@.len(),
    {
        let i: usize = r.len();
        r.push(s[i]);
        assert(r@ =~= s@.take(i + 1));
    }
    assert(s@.take(s@.len() as int) =~= s@);
    r
}

/// Terms under a table of weights.
pub fn attach(s: &Vec<TermShape>, table: &Vec<F256>) -> (r: Vec<C1RelationTerm>)
    ensures
        c1_terms(r@) == weighted(shapes(s@), table@),
{
    let mut r: Vec<C1RelationTerm> = Vec::new();
    while r.len() < s.len()
        invariant
            r@.len() <= s@.len(),
            forall|i: int|
                0 <= i < r@.len() ==> (#[trigger] r@[i])@ == (C1Term {
                    coeff: weight_of(table@, s@[i]@.weight),
                    factors: s@[i]@.factors,
                }),
        decreases s@.len() - r@.len(),
    {
        let i: usize = r.len();
        let coeff = if s[i].weight < table.len() {
            table[s[i].weight]
        } else {
            F256::zero()
        };
        r.push(C1RelationTerm { coeff, factors: copy_factors(&s[i].factors) });
    }
    assert(c1_terms(r@) =~= weighted(shapes(s@), table@));
    r
}

/// Terms under a table of weights in the trace.
pub fn attach_trace(s: &Vec<TermShape>, table: &Vec<ExtExpr>) -> (r: Vec<C1RelationTermTrace>)
    ensures
        c1_trace_terms(r@) == weighted_lins(shapes(s@), ext_lins(table@)),
{
    let mut r: Vec<C1RelationTermTrace> = Vec::new();
    while r.len() < s.len()
        invariant
            r@.len() <= s@.len(),
            forall|i: int|
                0 <= i < r@.len() ==> (#[trigger] r@[i])@ == (C1TermLin {
                    coeff: weight_lin(ext_lins(table@), s@[i]@.weight),
                    factors: s@[i]@.factors,
                }),
        decreases s@.len() - r@.len(),
    {
        let i: usize = r.len();
        let coeff = if s[i].weight < table.len() {
            assert(ext_lins(table@)[s@[i as int].weight as int] == table@[s@[i as int].weight as int]@);
            table[s[i].weight].dup()
        } else {
            ExtExpr::zero()
        };
        r.push(C1RelationTermTrace { coeff, factors: copy_factors(&s[i].factors) });
    }
    assert(c1_trace_terms(r@) =~= weighted_lins(shapes(s@), ext_lins(table@)));
    r
}

/// The weight of an input lane: a column of the matrix under the first powers
/// of the challenge.
pub open spec fn mds_weight(e: Extension, full: Seq<Seq<F128>>, alpha: F256, lane: int, n: nat) -> F256
    decreases n,
{
    if n == 0 {
        F256::zero()
    } else {
        mds_weight(e, full, alpha, lane, (n - 1) as nat).plus(
            e.pow(alpha, n).scaled(full[n - 1][lane]),
        )
    }
}

pub open spec fn mds_weights(e: Extension, full: Seq<Seq<F128>>, alpha: F256) -> Seq<F256> {
    Seq::new(4, |lane: int| mds_weight(e, full, alpha, lane, 4))
}

/// The weights of every lane.
pub fn c1_mds_weights(e: &Extension, tables: &PoseidonTables, alpha: F256) -> (r: Vec<F256>)
    ensures
        r@ == mds_weights(*e, tables@.full, alpha),
{
    let powers = power_table(e, alpha, 5);
    let mut r: Vec<F256> = Vec::new();
    while r.len() < 4
        invariant
            r@.len() <= 4,
            powers@ == ext_powers(*e, alpha, 5),
            forall|l: int|
                0 <= l < r@.len() ==> #[trigger] r@[l] == mds_weight(
                    *e,
                    tables@.full,
                    alpha,
                    l,
                    4,
                ),
        decreases 4 - r@.len(),
    {
        let lane: usize = r.len();
        let mut sum = F256::zero();
        let mut row: usize = 0;
        while row < 4
            invariant
                row <= 4,
                lane < 4,
                powers@ == ext_powers(*e, alpha, 5),
                sum == mds_weight(*e, tables@.full, alpha, lane as int, row as nat),
            decreases 4 - row,
        {
            assert(tables@.full[row as int] == tables.mds_full@[row as int]@);
            sum = sum.add(powers[row + 1].scale_base(tables.mds_full[row][lane]));
            row += 1;
        }
        r.push(sum);
    }
    assert(r@ =~= mds_weights(*e, tables@.full, alpha));
    r
}

/// The weight of an input lane in the trace.
pub open spec fn mds_weight_lin(
    powers: Seq<ExtLin>,
    full: Seq<Seq<F128>>,
    lane: int,
    n: nat,
) -> ExtLin
    decreases n,
{
    if n == 0 {
        ExtLin::zero()
    } else {
        mds_weight_lin(powers, full, lane, (n - 1) as nat).plus(
            powers[n as int].scaled(full[n - 1][lane]),
        )
    }
}

pub open spec fn mds_weight_lins(powers: Seq<ExtLin>, full: Seq<Seq<F128>>) -> Seq<ExtLin> {
    Seq::new(4, |lane: int| mds_weight_lin(powers, full, lane, 4))
}

proof fn lemma_mds_weight_lin(
    e: Extension,
    powers: Seq<ExtLin>,
    full: Seq<Seq<F128>>,
    alpha: F256,
    lane: int,
    n: nat,
    z: Seq<F128>,
)
    requires
        powers.len() == 5,
        n <= 4,
        ext_evals(powers, z) == ext_powers(e, alpha, 5),
    ensures
        mds_weight_lin(powers, full, lane, n).eval(z) == mds_weight(e, full, alpha, lane, n),
    decreases n,
{
    broadcast use crate::circuit::group_lin;

    if n > 0 {
        lemma_mds_weight_lin(e, powers, full, alpha, lane, (n - 1) as nat, z);
        assert(ext_evals(powers, z)[n as int] == e.pow(alpha, n));
    }
}

/// The weights of every lane in the trace evaluate to the native weights.
pub proof fn lemma_mds_weights_lift(
    e: Extension,
    powers: Seq<ExtLin>,
    full: Seq<Seq<F128>>,
    alpha: F256,
    z: Seq<F128>,
)
    requires
        powers.len() == 5,
        ext_evals(powers, z) == ext_powers(e, alpha, 5),
    ensures
        ext_evals(mds_weight_lins(powers, full), z) == mds_weights(e, full, alpha),
{
    assert forall|l: int| 0 <= l < 4 implies ext_evals(mds_weight_lins(powers, full), z)[l]
        == mds_weights(e, full, alpha)[l] by {
        lemma_mds_weight_lin(e, powers, full, alpha, l, 4, z);
    }
    assert(ext_evals(mds_weight_lins(powers, full), z) =~= mds_weights(e, full, alpha));
}

/// The weights of every lane in the trace, with the powers they are made of.
pub fn c1_weights_trace(
    b: &mut FieldR1csBuilder,
    e: &Extension,
    tables: &PoseidonTables,
    alpha: &ExtExpr,
) -> (r: (Vec<ExtExpr>, Vec<ExtExpr>))
    requires
        old(b)@.wf(),
        alpha@.below(old(b)@.rows.len()),
    ensures
        (final(b)@.rows, ext_lins(r.1@)) == ext_ladder_rows(old(b)@.rows, *e, alpha@, 5),
        ext_lins(r.0@) == mds_weight_lins(ext_lins(r.1@), tables@.full),
        r.0@.len() == 4,
        r.1@.len() == 5,
        computed(old(b)@, final(b)@),
        ext_below(ext_lins(r.0@), final(b)@.rows.len()),
        ext_below(ext_lins(r.1@), final(b)@.rows.len()),
{
    let powers = ext_power_ladder(b, e, alpha, 5);
    let ghost pl = ext_lins(powers@);
    let ghost n = b@.rows.len();
    let mut weights: Vec<ExtExpr> = Vec::new();
    while weights.len() < 4
        invariant
            weights@.len() <= 4,
            powers@.len() == 5,
            pl == ext_lins(powers@),
            ext_below(pl, n),
            forall|l: int|
                0 <= l < weights@.len() ==> (#[trigger] weights@[l])@ == mds_weight_lin(
                    pl,
                    tables@.full,
                    l,
                    4,
                ) && weights@[l]@.below(n),
        decreases 4 - weights@.len(),
    {
        let lane: usize = weights.len();
        let mut sum = ExtExpr::zero();
        let mut row: usize = 0;
        while row < 4
            invariant
                row <= 4,
                lane < 4,
                powers@.len() == 5,
                pl == ext_lins(powers@),
                ext_below(pl, n),
                sum@ == mds_weight_lin(pl, tables@.full, lane as int, row as nat),
                sum@.below(n),
            decreases 4 - row,
        {
            assert(tables@.full[row as int] == tables.mds_full@[row as int]@);
            assert(pl[row + 1].below(n));
            sum = sum.add(&powers[row + 1].scale_base(tables.mds_full[row][lane]));
            row += 1;
        }
        weights.push(sum);
    }
    proof {
        assert(ext_lins(weights@) =~= mds_weight_lins(pl, tables@.full));
        assert forall|i: int| 0 <= i < 4 implies (#[trigger] ext_lins(weights@)[i]).below(n) by {
            assert(weights@[i]@.below(n));
        }
    }
    (weights, powers)
}

// ---------------------------------------------------------------------------
// Native terms
// ---------------------------------------------------------------------------

/// The relation that a family carries the walk output.
pub fn c1_carry_selection_terms(e: &Extension, columns: &[usize; 4], beta: F256) -> (r: Vec<
    C1RelationTerm,
>)
    ensures
        c1_terms(r@) == weighted(selection_lane_terms(*columns), ext_powers(*e, beta, 5)),
{
    let mut s: Vec<TermShape> = Vec::new();
    assert(shapes(s@) =~= Seq::empty());
    append_selection_lane_terms(&mut s, columns);
    assert(shapes(s@) =~= selection_lane_terms(*columns));
    attach(&s, &power_table(e, beta, 5))
}

/// The relation that must vanish on Merkle families.
pub fn c1_merkle_zero_terms(
    e: &Extension,
    families: &Vec<MerkleProtocolFamily>,
    lambda: F256,
) -> (r: Vec<C1RelationTerm>)
    ensures
        c1_terms(r@) == weighted(zero_shapes(families@), ext_powers(*e, lambda, 6)),
{
    attach(&merkle_zero_shapes(families), &power_table(e, lambda, 6))
}

/// The relation of the permutation inputs of Merkle families.
pub fn c1_merkle_substitution_terms(
    e: &Extension,
    tables: &PoseidonTables,
    families: &Vec<MerkleProtocolFamily>,
    alpha: F256,
) -> (r: Vec<C1RelationTerm>)
    ensures
        c1_terms(r@) == weighted(
            substitution_shapes(families@),
            mds_weights(*e, tables@.full, alpha),
        ),
{
    attach(&merkle_substitution_shapes(families), &c1_mds_weights(e, tables, alpha))
}

/// A duplex family with those that record it.
pub open spec fn with_recordings(
    refs: DuplexFamilyRefs,
    recordings: Seq<DuplexFamilyRefs>,
) -> Seq<DuplexFamilyRefs> {
    seq![refs] + recordings
}

fn joined_sets(refs: &DuplexFamilyRefs, recordings: &Vec<DuplexFamilyRefs>) -> (r: Vec<
    DuplexFamilyRefs,
>)
    ensures
        r@ == with_recordings(*refs, recordings@),
{
    let mut sets: Vec<DuplexFamilyRefs> = vec![*refs];
    let mut i: usize = 0;
    assert(sets@ =~= seq![*refs] + recordings@.take(0));
    while i < recordings.len()
        invariant
            i <= recordings@.len(),
            sets@ == seq![*refs] + recordings@.take(i as int),
        decreases recordings@.len() - i,
    {
        sets.push(recordings[i]);
        i += 1;
        assert(sets@ =~= seq![*refs] + recordings@.take(i as int));
    }
    assert(recordings@.take(i as int) =~= recordings@);
    sets
}

/// The relation of the permutation inputs of a duplex family.
pub fn c1_duplex_terms(
    e: &Extension,
    tables: &PoseidonTables,
    refs: &DuplexFamilyRefs,
    recording_refs: &Vec<DuplexFamilyRefs>,
    alpha: F256,
) -> (r: Vec<C1RelationTerm>)
    ensures
        c1_terms(r@) == weighted(
            duplex_shapes(with_recordings(*refs, recording_refs@)),
            mds_weights(*e, tables@.full, alpha),
        ),
{
    let sets = joined_sets(refs, recording_refs);
    attach(&duplex_term_shapes(&sets), &c1_mds_weights(e, tables, alpha))
}

/// Weights, then the same weights times a selector.
pub open spec fn selected_weights(weights: Seq<F256>, selector: F128) -> Seq<F256> {
    weights + Seq::new(4, |l: int| weights[l].scaled(selector))
}

/// The relation of the permutation inputs of paired duplex families, one of
/// each pair selected.
pub fn c1_duplex_terms_selected(
    e: &Extension,
    tables: &PoseidonTables,
    sets: &Vec<DuplexFamilyRefs>,
    selector: F128,
    alpha: F256,
) -> (r: Vec<C1RelationTerm>)
    requires
        sets@.len() > 0,
        sets@.len() % 2 == 0,
    ensures
        c1_terms(r@) == weighted(
            duplex_selected_shapes(sets@),
            selected_weights(mds_weights(*e, tables@.full, alpha), selector),
        ),
{
    let mut weights = c1_mds_weights(e, tables, alpha);
    let ghost w = mds_weights(*e, tables@.full, alpha);
    let mut lane: usize = 0;
    assert(weights@ =~= w + Seq::new(0, |l: int| w[l].scaled(selector)));
    while lane < 4
        invariant
            lane <= 4,
            w.len() == 4,
            weights@ == w + Seq::new(lane as nat, |l: int| w[l].scaled(selector)),
        decreases 4 - lane,
    {
        let next = weights[lane].scale_base(selector);
        weights.push(next);
        lane += 1;
        assert(weights@ =~= w + Seq::new(lane as nat, |l: int| w[l].scaled(selector)));
    }
    assert(weights@ =~= selected_weights(w, selector));
    attach(&duplex_selected_term_shapes(sets), &weights)
}

/// The relation of the permutation inputs of the leaf walk.
pub fn c1_walk_a_union_terms(
    e: &Extension,
    tables: &PoseidonTables,
    union: &WalkAUnion,
    alpha: F256,
) -> (r: Vec<C1RelationTerm>)
    ensures
        c1_terms(r@) == weighted(walk_a_shapes(*union), mds_weights(*e, tables@.full, alpha)),
{
    attach(&walk_a_term_shapes(union), &c1_mds_weights(e, tables, alpha))
}

/// The relation that exposes the spine's children.
pub fn c1_spine_exposure_terms(e: &Extension, gamma: F256) -> (r: Vec<C1RelationTerm>)
    ensures
        c1_terms(r@) == weighted(exposure_shapes(), ext_powers(*e, gamma, 3)),
{
    attach(&exposure_term_shapes(), &power_table(e, gamma, 3))
}

// ---------------------------------------------------------------------------
// Terms in the trace
// ---------------------------------------------------------------------------

/// The relation that a family carries the walk output, in the trace.
pub fn c1_selection_terms_trace(
    b: &mut FieldR1csBuilder,
    e: &Extension,
    columns: &[usize; 4],
    beta: &ExtExpr,
) -> (r: Vec<C1RelationTermTrace>)
    requires
        old(b)@.wf(),
        beta@.below(old(b)@.rows.len()),
    ensures
        final(b)@.rows == ext_ladder_rows(old(b)@.rows, *e, beta@, 5).0,
        c1_trace_terms(r@) == weighted_lins(
            selection_lane_terms(*columns),
            ext_ladder_rows(old(b)@.rows, *e, beta@, 5).1,
        ),
        computed(old(b)@, final(b)@),
{
    let mut s: Vec<TermShape> = Vec::new();
    assert(shapes(s@) =~= Seq::empty());
    append_selection_lane_terms(&mut s, columns);
    assert(shapes(s@) =~= selection_lane_terms(*columns));
    let powers = ext_power_ladder(b, e, beta, 5);
    attach_trace(&s, &powers)
}

/// The relation that must vanish on Merkle families, in the trace.
pub fn c1_merkle_zero_terms_trace(
    b: &mut FieldR1csBuilder,
    e: &Extension,
    families: &Vec<MerkleProtocolFamily>,
    lambda: &ExtExpr,
) -> (r: Vec<C1RelationTermTrace>)
    requires
        old(b)@.wf(),
        lambda@.below(old(b)@.rows.len()),
    ensures
        final(b)@.rows == ext_ladder_rows(old(b)@.rows, *e, lambda@, 6).0,
        c1_trace_terms(r@) == weighted_lins(
            zero_shapes(families@),
            ext_ladder_rows(old(b)@.rows, *e, lambda@, 6).1,
        ),
        computed(old(b)@, final(b)@),
{
    let powers = ext_power_ladder(b, e, lambda, 6);
    attach_trace(&merkle_zero_shapes(families), &powers)
}

/// The relation of the permutation inputs of Merkle families, in the trace,
/// with the powers of the challenge.
pub fn c1_merkle_substitution_terms_trace(
    b: &mut FieldR1csBuilder,
    e: &Extension,
    tables: &PoseidonTables,
    families: &Vec<MerkleProtocolFamily>,
    alpha: &ExtExpr,
) -> (r: (Vec<C1RelationTermTrace>, Vec<ExtExpr>))
    requires
        old(b)@.wf(),
        alpha@.below(old(b)@.rows.len()),
    ensures
        (final(b)@.rows, ext_lins(r.1@)) == ext_ladder_rows(old(b)@.rows, *e, alpha@, 5),
        c1_trace_terms(r.0@) == weighted_lins(
            substitution_shapes(families@),
            mds_weight_lins(ext_lins(r.1@), tables@.full),
        ),
        r.1@.len() == 5,
        computed(old(b)@, final(b)@),
        ext_below(ext_lins(r.1@), final(b)@.rows.len()),
{
    let (weights, powers) = c1_weights_trace(b, e, tables, alpha);
    (attach_trace(&merkle_substitution_shapes(families), &weights), powers)
}

/// The relation of the permutation inputs of a duplex family, in the trace.
pub fn c1_duplex_terms_trace(
    b: &mut FieldR1csBuilder,
    e: &Extension,
    tables: &PoseidonTables,
    refs: &DuplexFamilyRefs,
    recording_refs: &Vec<DuplexFamilyRefs>,
    alpha: &ExtExpr,
) -> (r: (Vec<C1RelationTermTrace>, Vec<ExtExpr>))
    requires
        old(b)@.wf(),
        alpha@.below(old(b)@.rows.len()),
    ensures
        (final(b)@.rows, ext_lins(r.1@)) == ext_ladder_rows(old(b)@.rows, *e, alpha@, 5),
        c1_trace_terms(r.0@) == weighted_lins(
            duplex_shapes(with_recordings(*refs, recording_refs@)),
            mds_weight_lins(ext_lins(r.1@), tables@.full),
        ),
        r.1@.len() == 5,
        computed(old(b)@, final(b)@),
        ext_below(ext_lins(r.1@), final(b)@.rows.len()),
{
    let (weights, powers) = c1_weights_trace(b, e, tables, alpha);
    let sets = joined_sets(refs, recording_refs);
    (attach_trace(&duplex_term_shapes(&sets), &weights), powers)
}

/// The rows that multiply the first `n` weights by a selector, and the
/// products.
pub open spec fn selected_rows(
    c: Seq<Row>,
    e: Extension,
    weights: Seq<ExtLin>,
    selector: ExtLin,
    n: nat,
) -> (Seq<Row>, Seq<ExtLin>)
    decreases n,
{
    if n == 0 {
        (c, Seq::empty())
    } else {
        let (c1, out) = selected_rows(c, e, weights, selector, (n - 1) as nat);
        let (c2, p) = crate::extension::ext_mul_rows(c1, e, weights[n - 1], selector);
        (c2, out.push(p))
    }
}

/// The products evaluate to products.
pub proof fn lemma_selected_past(
    c: Seq<Row>,
    e: Extension,
    weights: Seq<ExtLin>,
    selector: ExtLin,
    n: nat,
    z: Seq<F128>,
)
    requires
        n <= weights.len(),
    ensures
        prefix(c, selected_rows(c, e, weights, selector, n).0),
        selected_rows(c, e, weights, selector, n).1.len() == n,
        holds_past(selected_rows(c, e, weights, selector, n).0, c.len(), z) ==> forall|i: int|
            0 <= i < n ==> (#[trigger] selected_rows(c, e, weights, selector, n).1[i]).eval(z)
                == e.times(weights[i].eval(z), selector.eval(z)),
    decreases n,
{
    broadcast use lemma_prefix_trans;

    if n > 0 {
        let m = (n - 1) as nat;
        let (c1, out) = selected_rows(c, e, weights, selector, m);
        lemma_selected_past(c, e, weights, selector, m, z);
        lemma_ext_mul_past(c1, e, weights[n - 1], selector, z);
        let (c2, now) = selected_rows(c, e, weights, selector, n);
        if holds_past(c2, c.len(), z) {
            lemma_past_split(c2, c1, c.len(), z);
            assert forall|i: int| 0 <= i < n implies (#[trigger] now[i]).eval(z) == e.times(
                weights[i].eval(z),
                selector.eval(z),
            ) by {
                if i < m {
                    assert(now[i] == out[i]);
                }
            }
        }
    }
}

/// The relation of the permutation inputs of paired duplex families, one of
/// each pair selected, in the trace.
pub fn c1_duplex_terms_selected_trace(
    b: &mut FieldR1csBuilder,
    e: &Extension,
    tables: &PoseidonTables,
    sets: &Vec<DuplexFamilyRefs>,
    selector: &ExtExpr,
    alpha: &ExtExpr,
) -> (r: (Vec<C1RelationTermTrace>, Vec<ExtExpr>))
    requires
        old(b)@.wf(),
        sets@.len() > 0,
        sets@.len() % 2 == 0,
        alpha@.below(old(b)@.rows.len()),
        selector@.below(old(b)@.rows.len()),
    ensures
        ({
            let (c1, powers) = ext_ladder_rows(old(b)@.rows, *e, alpha@, 5);
            let weights = mds_weight_lins(powers, tables@.full);
            let (c2, selected) = selected_rows(c1, *e, weights, selector@, 4);
            &&& final(b)@.rows == c2
            &&& ext_lins(r.1@) == powers
            &&& c1_trace_terms(r.0@) == weighted_lins(
                duplex_selected_shapes(sets@),
                weights + selected,
            )
        }),
        r.1@.len() == 5,
        computed(old(b)@, final(b)@),
        ext_below(ext_lins(r.1@), final(b)@.rows.len()),
{
    let (mut weights, powers) = c1_weights_trace(b, e, tables, alpha);
    let ghost w = ext_lins(weights@);
    let ghost b1 = b@;
    let mut lane: usize = 0;
    proof {
        crate::gadget::lemma_computed_refl(b1);
        assert(ext_lins(weights@) =~= w + selected_rows(b1.rows, *e, w, selector@, 0).1);
    }
    while lane < 4
        invariant
            lane <= 4,
            w.len() == 4,
            ext_below(w, b1.rows.len()),
            selector@.below(b1.rows.len()),
            weights@.len() == 4 + lane,
            b@.wf(),
            computed(b1, b@),
            b@.rows == selected_rows(b1.rows, *e, w, selector@, lane as nat).0,
            ext_lins(weights@) == w + selected_rows(b1.rows, *e, w, selector@, lane as nat).1,
            selected_rows(b1.rows, *e, w, selector@, lane as nat).1.len() == lane,
        decreases 4 - lane,
    {
        let ghost prior = weights@;
        proof {
            assert(ext_lins(weights@)[lane as int] == w[lane as int]);
            assert(w[lane as int].below(b1.rows.len()));
        }
        let p = mul_ext(b, e, &weights[lane], selector);
        weights.push(p);
        proof {
            assert(ext_lins(weights@) =~= ext_lins(prior).push(p@));
            assert(ext_lins(weights@) =~= w + selected_rows(
                b1.rows,
                *e,
                w,
                selector@,
                (lane + 1) as nat,
            ).1);
        }
        lane += 1;
    }
    proof {
        assert forall|i: int| 0 <= i < 5 implies (#[trigger] ext_lins(powers@)[i]).below(
            b@.rows.len(),
        ) by {
            assert(ext_lins(powers@)[i].below(b1.rows.len()));
        }
    }
    (attach_trace(&duplex_selected_term_shapes(sets), &weights), powers)
}

/// The relation of the permutation inputs of the leaf walk, in the trace.
pub fn c1_walk_a_terms_trace(
    b: &mut FieldR1csBuilder,
    e: &Extension,
    tables: &PoseidonTables,
    union: &WalkAUnion,
    alpha: &ExtExpr,
) -> (r: (Vec<C1RelationTermTrace>, Vec<ExtExpr>))
    requires
        old(b)@.wf(),
        alpha@.below(old(b)@.rows.len()),
    ensures
        (final(b)@.rows, ext_lins(r.1@)) == ext_ladder_rows(old(b)@.rows, *e, alpha@, 5),
        c1_trace_terms(r.0@) == weighted_lins(
            walk_a_shapes(*union),
            mds_weight_lins(ext_lins(r.1@), tables@.full),
        ),
        r.1@.len() == 5,
        computed(old(b)@, final(b)@),
        ext_below(ext_lins(r.1@), final(b)@.rows.len()),
{
    let (weights, powers) = c1_weights_trace(b, e, tables, alpha);
    (attach_trace(&walk_a_term_shapes(union), &weights), powers)
}

/// The relation that exposes the spine's children, in the trace.
pub fn c1_spine_exposure_terms_trace(
    b: &mut FieldR1csBuilder,
    e: &Extension,
    gamma: &ExtExpr,
) -> (r: Vec<C1RelationTermTrace>)
    requires
        old(b)@.wf(),
        gamma@.below(old(b)@.rows.len()),
    ensures
        final(b)@.rows == ext_ladder_rows(old(b)@.rows, *e, gamma@, 3).0,
        c1_trace_terms(r@) == weighted_lins(
            exposure_shapes(),
            ext_ladder_rows(old(b)@.rows, *e, gamma@, 3).1,
        ),
        computed(old(b)@, final(b)@),
{
    let powers = ext_power_ladder(b, e, gamma, 3);
    attach_trace(&exposure_term_shapes(), &powers)
}

// ---------------------------------------------------------------------------
// Laws
// ---------------------------------------------------------------------------

/// On a challenge from the base, the weights are those of the base.
pub proof fn lemma_base_weights(
    e: Extension,
    full: Seq<Seq<F128>>,
    alpha: F128,
    lane: int,
    n: nat,
)
    ensures
        mds_weight(e, full, F256::of_base(alpha), lane, n) == F256::of_base(
            lane_weight(full, alpha, lane, n),
        ),
    decreases n,
{
    broadcast use group_field_units;

    if n > 0 {
        lemma_base_weights(e, full, alpha, lane, (n - 1) as nat);
        lemma_base_pow(e, alpha, n);
    }
}

proof fn lemma_paired_zero_len(refs: PairedMerkleUpdateRefs, n: nat)
    ensures
        paired_zero_terms(refs, n).len() == 2 * n,
    decreases n,
{
    if n > 0 {
        lemma_paired_zero_len(refs, (n - 1) as nat);
    }
}

/// On a challenge from the base, the vanishing relation of paired updates is
/// the consistency relation of the base: the same products, with the
/// coefficients of the base.
pub proof fn lemma_paired_zero_lift(
    e: Extension,
    refs: PairedMerkleUpdateRefs,
    mix: F128,
    n: nat,
    i: int,
)
    requires
        n <= 6,
        0 <= i < 2 * n,
    ensures
        paired_zero_terms(refs, n).len() == 2 * n,
        crate::relations::mixed(consistency(refs), mix, n).len() == 2 * n,
        weighted(paired_zero_terms(refs, n), ext_powers(e, F256::of_base(mix), 6))[i] == (C1Term {
            coeff: F256::of_base(crate::relations::mixed(consistency(refs), mix, n)[i].coeff),
            factors: crate::relations::mixed(consistency(refs), mix, n)[i].factors,
        }),
    decreases n,
{
    let m = (n - 1) as nat;
    lemma_paired_zero_len(refs, m);
    let eq = consistency(refs)[m as int];
    let (pm, mm) = (paired_zero_terms(refs, m), crate::relations::mixed(consistency(refs), mix, m));
    if m > 0 {
        lemma_paired_zero_lift(
            e,
            refs,
            mix,
            m,
            if i < 2 * m {
                i
            } else {
                0
            },
        );
    }
    assert(mm.len() == 2 * m);
    let (pn, mn) = (paired_zero_terms(refs, n), crate::relations::mixed(consistency(refs), mix, n));
    assert(pn == pm.push(shape(m as int, eq.left)).push(shape(m as int, eq.right)));
    if i < 2 * m {
        assert(pn[i] == pm[i]);
        assert(mn[i] == mm[i]);
    } else {
        lemma_base_pow(e, mix, m);
        assert(ext_powers(e, F256::of_base(mix), 6)[m as int] == e.pow(F256::of_base(mix), m));
        assert(pn[i].weight == m);
        assert(mn[i].coeff == power(mix, m));
        assert(pn[i].factors == mn[i].factors);
    }
}

/// Terms under a table of weights of the base.
pub open spec fn base_weighted(s: Seq<Shape>, table: Seq<F128>) -> Seq<Product> {
    Seq::new(
        s.len(),
        |i: int|
            Product {
                coeff: if s[i].weight < table.len() {
                    table[s[i].weight as int]
                } else {
                    F128::zero()
                },
                factors: s[i].factors,
            },
    )
}

/// Terms of the base in the extension: the same products in the same order, with
/// the same coefficients.
pub open spec fn lifted(s: Seq<Product>) -> Seq<C1Term> {
    Seq::new(s.len(), |i: int| C1Term { coeff: F256::of_base(s[i].coeff), factors: s[i].factors })
}

/// The first `n` powers.
pub open spec fn base_powers(x: F128, n: nat) -> Seq<F128> {
    Seq::new(n, |i: int| power(x, i as nat))
}

/// The weights of every lane in the base.
pub open spec fn base_mds_weights(full: Seq<Seq<F128>>, alpha: F128) -> Seq<F128> {
    Seq::new(4, |lane: int| lane_weight(full, alpha, lane, 4))
}

/// Under weights that all come from the base, terms are those of the base.
pub proof fn lemma_weighted_lift(s: Seq<Shape>, wide: Seq<F256>, base: Seq<F128>)
    requires
        wide.len() == base.len(),
        forall|i: int| 0 <= i < base.len() ==> #[trigger] wide[i] == F256::of_base(base[i]),
    ensures
        weighted(s, wide) == lifted(base_weighted(s, base)),
{
    assert(weighted(s, wide) =~= lifted(base_weighted(s, base))) by {
        assert forall|i: int| 0 <= i < s.len() implies weighted(s, wide)[i] == lifted(
            base_weighted(s, base),
        )[i] by {
            let k = s[i].weight as int;
            if k < base.len() {
                assert(wide[k] == F256::of_base(base[k]));
            }
        }
    }
}

/// On a challenge from the base, terms under its powers are those of the base.
pub proof fn lemma_power_terms_lift(e: Extension, s: Seq<Shape>, x: F128, n: nat)
    ensures
        weighted(s, ext_powers(e, F256::of_base(x), n)) == lifted(
            base_weighted(s, base_powers(x, n)),
        ),
{
    let (wide, base) = (ext_powers(e, F256::of_base(x), n), base_powers(x, n));
    assert forall|i: int| 0 <= i < n implies #[trigger] wide[i] == F256::of_base(base[i]) by {
        lemma_base_pow(e, x, i as nat);
    }
    lemma_weighted_lift(s, wide, base);
}

/// On a challenge from the base, terms under the lanes' weights are those of the
/// base.
pub proof fn lemma_mds_terms_lift(
    e: Extension,
    full: Seq<Seq<F128>>,
    s: Seq<Shape>,
    alpha: F128,
)
    ensures
        weighted(s, mds_weights(e, full, F256::of_base(alpha))) == lifted(
            base_weighted(s, base_mds_weights(full, alpha)),
        ),
{
    let wide = mds_weights(e, full, F256::of_base(alpha));
    let base = base_mds_weights(full, alpha);
    assert forall|i: int| 0 <= i < 4 implies #[trigger] wide[i] == F256::of_base(base[i]) by {
        lemma_base_weights(e, full, alpha, i, 4);
    }
    lemma_weighted_lift(s, wide, base);
}

/// On a challenge from the base, the relation that must vanish on Merkle families
/// is that of the base, whatever the families: as many terms, in the same order,
/// with the same products and coefficients.
pub proof fn lemma_merkle_zero_lift(
    e: Extension,
    families: Seq<MerkleProtocolFamily>,
    lambda: F128,
)
    ensures
        weighted(zero_shapes(families), ext_powers(e, F256::of_base(lambda), 6)) == lifted(
            base_weighted(zero_shapes(families), base_powers(lambda, 6)),
        ),
{
    lemma_power_terms_lift(e, zero_shapes(families), lambda, 6);
}

/// On a challenge from the base, the relation of the permutation inputs of Merkle
/// families is that of the base.
pub proof fn lemma_merkle_substitution_lift(
    e: Extension,
    full: Seq<Seq<F128>>,
    families: Seq<MerkleProtocolFamily>,
    alpha: F128,
)
    ensures
        weighted(
            substitution_shapes(families),
            mds_weights(e, full, F256::of_base(alpha)),
        ) == lifted(base_weighted(substitution_shapes(families), base_mds_weights(full, alpha))),
{
    lemma_mds_terms_lift(e, full, substitution_shapes(families), alpha);
}

/// On a challenge from the base, the relation of paired duplex families is that of
/// the base, selected or not.
pub proof fn lemma_duplex_selected_lift(
    e: Extension,
    full: Seq<Seq<F128>>,
    sets: Seq<DuplexFamilyRefs>,
    selector: F128,
    alpha: F128,
)
    ensures
        ({
            let base = base_mds_weights(full, alpha);
            let chosen = base + Seq::new(4, |l: int| base[l].times(selector));
            weighted(
                duplex_selected_shapes(sets),
                selected_weights(mds_weights(e, full, F256::of_base(alpha)), selector),
            ) == lifted(base_weighted(duplex_selected_shapes(sets), chosen))
        }),
{
    broadcast use group_field_units;

    let weights = mds_weights(e, full, F256::of_base(alpha));
    let wide = selected_weights(weights, selector);
    let low = base_mds_weights(full, alpha);
    let base = low + Seq::new(4, |l: int| low[l].times(selector));
    assert forall|i: int| 0 <= i < 8 implies #[trigger] wide[i] == F256::of_base(base[i]) by {
        let lane = if i < 4 {
            i
        } else {
            i - 4
        };
        lemma_base_weights(e, full, alpha, lane, 4);
        assert(weights[lane] == F256::of_base(low[lane]));
    }
    lemma_weighted_lift(duplex_selected_shapes(sets), wide, base);
}

} // verus!
