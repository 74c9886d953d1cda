//! Block shape classes for the eight-input, two-output transaction form.

use vstd::prelude::*;
use crate::bytes::{
    enc_all, lemma_enc_all_push, lemma_le_bytes_len, lemma_le_value_bytes, le_bytes, put_le,
};
use crate::sorting::{next_pow2, next_power_of_two};

verus! {

/// Inputs of a transaction.
pub const TX_INPUTS: usize = 8;

/// Outputs of a transaction.
pub const TX_OUTPUTS: usize = 2;

/// Inputs and outputs of a transaction.
pub const TX_ACTIONS: usize = 10;

/// Leaves of a transaction body.
pub const BODY_HASH_LEAVES: usize = 16;

/// Hash slots of a transaction body.
pub const N_SPINE_SLOTS: usize = 31;

/// Pages of the small class.
pub const SMALL_TIER: usize = 25;

/// Pages of the large class, the consensus maximum.
pub const LARGE_TIER: usize = 255;

/// Live inputs of a block.
pub const BLOCK_MAX_LIVE_INPUTS: usize = 1020;

/// Distinct segments a block may touch.
pub const BLOCK_MAX_DISTINCT_SEGMENTS: usize = 256;

/// Frontier siblings of the small class.
pub const SMALL_FRONTIER: usize = 6029;

/// Frontier siblings of the large class.
pub const LARGE_FRONTIER: usize = 22468;

/// One block shape class: a page tier.
///
/// Every structure of a block is padded to this tier.
#[derive(Clone, Copy, Debug, PartialEq, Eq, Structural)]
pub struct ShapeClass {
    pub tier: usize,
}

impl ShapeClass {
    /// The tier is one of the ladder.
    pub open spec fn wf(self) -> bool {
        self.tier == SMALL_TIER || self.tier == LARGE_TIER
    }

    pub open spec fn spend(self) -> nat {
        if self.tier * TX_INPUTS < BLOCK_MAX_LIVE_INPUTS {
            (self.tier * TX_INPUTS) as nat
        } else {
            BLOCK_MAX_LIVE_INPUTS as nat
        }
    }

    pub open spec fn touched(self) -> nat {
        self.spend() + self.tier as nat * 2 + 1
    }

    pub open spec fn segments(self) -> nat {
        if self.touched() < BLOCK_MAX_DISTINCT_SEGMENTS {
            self.touched()
        } else {
            BLOCK_MAX_DISTINCT_SEGMENTS as nat
        }
    }

    pub open spec fn candidates(self) -> nat {
        self.tier as nat * 10 + 3
    }

    pub open spec fn siblings(self) -> nat {
        if self.tier == SMALL_TIER {
            SMALL_FRONTIER as nat
        } else {
            LARGE_FRONTIER as nat
        }
    }

    pub open spec fn combines(self) -> nat {
        (self.touched() + self.siblings() - 1) as nat
    }

    /// The class that holds `page_count` pages, if there is one.
    pub fn for_page_count(page_count: usize) -> (r: Option<Self>)
        ensures
            match r {
                Some(c) => c.wf() && page_count <= c.tier && forall|d: ShapeClass|
                    d.wf() && page_count <= d.tier ==> c.tier <= (#[trigger] d.tier),
                None => page_count > LARGE_TIER,
            },
    {
        if page_count <= SMALL_TIER {
            Some(ShapeClass { tier: SMALL_TIER })
        } else if page_count <= LARGE_TIER {
            Some(ShapeClass { tier: LARGE_TIER })
        } else {
            None
        }
    }

    /// Live inputs.
    pub fn spend_capacity(self) -> (r: usize)
        requires
            self.wf(),
        ensures
            r == self.spend(),
    {
        let inputs: usize = self.tier * TX_INPUTS;
        if inputs < BLOCK_MAX_LIVE_INPUTS {
            inputs
        } else {
            BLOCK_MAX_LIVE_INPUTS
        }
    }

    /// Authorization slots: the tier padded to a power of two.
    pub fn authorization_capacity(self) -> (r: usize)
        requires
            self.tier <= usize::MAX / 2 + 1,
        ensures
            r == next_pow2(self.tier as nat),
    {
        if self.tier == 0 {
            1
        } else {
            next_power_of_two(self.tier)
        }
    }

    /// Touched slots: the live inputs, the outputs and the coinbase.
    pub fn touched_capacity(self) -> (r: usize)
        requires
            self.wf(),
        ensures
            r == self.touched(),
    {
        self.spend_capacity() + self.tier * TX_OUTPUTS + 1
    }

    /// Distinct segments that can be touched.
    pub fn segment_capacity(self) -> (r: usize)
        requires
            self.wf(),
        ensures
            r == self.segments(),
    {
        let touched: usize = self.touched_capacity();
        if touched < BLOCK_MAX_DISTINCT_SEGMENTS {
            touched
        } else {
            BLOCK_MAX_DISTINCT_SEGMENTS
        }
    }

    /// Candidate actions: ten of each body, the coinbase mint and two payouts.
    pub fn action_candidate_capacity(self) -> (r: usize)
        requires
            self.tier <= (usize::MAX - 3) / 10,
        ensures
            r == self.candidates(),
    {
        self.tier * TX_ACTIONS + 3
    }

    /// Routing width of the candidate actions.
    pub fn action_sort_capacity(self) -> (r: usize)
        requires
            self.tier <= (usize::MAX / 2 - 3) / 10,
        ensures
            r == next_pow2(self.candidates()),
    {
        next_power_of_two(self.action_candidate_capacity())
    }

    /// Frontier siblings at the greatest depth under the segment cap.
    pub fn frontier_sibling_capacity(self) -> (r: usize)
        requires
            self.wf(),
        ensures
            r == self.siblings(),
    {
        if self.tier == SMALL_TIER {
            SMALL_FRONTIER
        } else {
            LARGE_FRONTIER
        }
    }

    /// Combines that rebuild one root from touched leaves and siblings.
    pub fn frontier_combine_capacity(self) -> (r: usize)
        requires
            self.wf(),
        ensures
            r == self.combines(),
    {
        self.touched_capacity() + self.frontier_sibling_capacity() - 1
    }

    /// What identifies the class, in order.
    pub open spec fn fields(self, tx_tree_depth: nat) -> Seq<nat> {
        seq![
            self.tier as nat,
            self.spend(),
            next_pow2(self.tier as nat),
            self.touched(),
            self.segments(),
            self.candidates(),
            next_pow2(self.candidates()),
            self.siblings(),
            self.combines(),
            TX_INPUTS as nat,
            TX_OUTPUTS as nat,
            BODY_HASH_LEAVES as nat,
            N_SPINE_SLOTS as nat,
            tx_tree_depth,
        ]
    }

    /// The bytes whose digest identifies the class.
    pub fn shape_preimage(self, tx_tree_depth: usize) -> (r: Vec<u8>)
        requires
            self.wf(),
        ensures
            r@ == enc_all(self.fields(tx_tree_depth as nat), |v: nat| le_bytes(v, 8)),
    {
        let ghost fields = self.fields(tx_tree_depth as nat);
        let ghost f = |v: nat| le_bytes(v, 8);
        let values: [usize; 14] = [
            self.tier,
            self.spend_capacity(),
            self.authorization_capacity(),
            self.touched_capacity(),
            self.segment_capacity(),
            self.action_candidate_capacity(),
            self.action_sort_capacity(),
            self.frontier_sibling_capacity(),
            self.frontier_combine_capacity(),
            TX_INPUTS,
            TX_OUTPUTS,
            BODY_HASH_LEAVES,
            N_SPINE_SLOTS,
            tx_tree_depth,
        ];
        let mut out: Vec<u8> = Vec::new();
        let mut i: usize = 0;
        assert(fields.take(0) =~= Seq::empty());
        assert(out@ =~= enc_all(fields.take(0), f));
        while i < 14
            invariant
                i <= 14,
                fields.len() == 14,
                f == (|v: nat| le_bytes(v, 8)),
                forall|j: int| 0 <= j < 14 ==> fields[j] == #[trigger] values@[j] as nat,
                out@ == enc_all(fields.take(i as int), f),
            decreases 14 - i,
        {
            put_le(&mut out, values[i] as u128, 8);
            proof {
                assert(fields.take(i + 1) =~= fields.take(i as int).push(fields[i as int]));
                lemma_enc_all_push(fields.take(i as int), fields[i as int], f);
                assert(fields[i as int] == values@[i as int] as nat);
            }
            i += 1;
        }
        assert(fields.take(i as int) =~= fields);
        out
    }
}

/// Every class, in ladder order.
pub fn enumerate_shape_classes() -> (r: Vec<ShapeClass>)
    ensures
        r@ == seq![ShapeClass { tier: SMALL_TIER }, ShapeClass { tier: LARGE_TIER }],
{
    let r = vec![ShapeClass { tier: SMALL_TIER }, ShapeClass { tier: LARGE_TIER }];
    assert(r@ =~= seq![ShapeClass { tier: SMALL_TIER }, ShapeClass { tier: LARGE_TIER }]);
    r
}

/// Distinct classes have distinct identities.
pub proof fn lemma_shape_injective(c: ShapeClass, d: ShapeClass, depth: nat)
    requires
        c.wf(),
        d.wf(),
        enc_all(c.fields(depth), |v: nat| le_bytes(v, 8)) == enc_all(
            d.fields(depth),
            |v: nat| le_bytes(v, 8),
        ),
    ensures
        c == d,
{
    let f = |v: nat| le_bytes(v, 8);
    let (s, t) = (c.fields(depth), d.fields(depth));
    lemma_first_field(s, t);
    vstd::arithmetic::power2::lemma2_to64();
    vstd::arithmetic::power2::lemma2_to64_rest();
    assert(8 * 8 == 64);
    lemma_le_value_bytes(s[0], 8);
    lemma_le_value_bytes(t[0], 8);
}

/// Equal concatenations of as many words have equal first words.
proof fn lemma_first_field(s: Seq<nat>, t: Seq<nat>)
    requires
        s.len() == t.len() > 0,
        enc_all(s, |v: nat| le_bytes(v, 8)) == enc_all(t, |v: nat| le_bytes(v, 8)),
    ensures
        le_bytes(s[0], 8) == le_bytes(t[0], 8),
    decreases s.len(),
{
    let f = |v: nat| le_bytes(v, 8);
    let n = s.len() - 1;
    let (a, b) = (s.drop_last(), t.drop_last());
    assert forall|i: int| 0 <= i < a.len() implies f(#[trigger] a[i]).len() == 8 by {
        lemma_le_bytes_len(a[i], 8);
    }
    assert forall|i: int| 0 <= i < b.len() implies f(#[trigger] b[i]).len() == 8 by {
        lemma_le_bytes_len(b[i], 8);
    }
    crate::bytes::lemma_enc_all_len(a, f, 8);
    crate::bytes::lemma_enc_all_len(b, f, 8);
    crate::bytes::lemma_concat_injective(enc_all(a, f), f(s[n]), enc_all(b, f), f(t[n]));
    if n > 0 {
        lemma_first_field(a, b);
    }
}

/// Authorization slots cover the tier, and the routing width the candidates.
pub proof fn lemma_padding_covers(c: ShapeClass)
    requires
        c.wf(),
    ensures
        next_pow2(c.tier as nat) >= c.tier,
        next_pow2(c.candidates()) >= c.candidates(),
        c.segments() <= c.touched(),
{
    crate::sorting::lemma_next_pow2(c.tier as nat);
    crate::sorting::lemma_next_pow2(c.candidates());
}

} // verus!
