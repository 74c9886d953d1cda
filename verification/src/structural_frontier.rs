//! The sibling-only frontier of touched slots, checked against its tree plan.
//!
//! Digests are pairs of field lanes. The tree plan, the leaf hashes and the
//! hashes along the plan come from the Merkle library as [`FrontierHashes`].

use vstd::prelude::*;
use crate::exact_leaves::SlotLeafInputs;
use crate::field::F128;

verus! {

/// An error of the Merkle library, by its number.
#[derive(Clone, Copy, Debug, PartialEq, Eq, Structural)]
pub struct SparseMerkleError {
    pub code: u32,
}

/// A node of a tree plan.
#[derive(Clone, Copy, Debug, PartialEq, Eq, Structural)]
pub enum StructuralNodeRef {
    TouchedLeaf(usize),
    FrontierSibling(usize),
    Combine(usize),
}

/// The children of a combined node.
#[derive(Clone, Copy, Debug, PartialEq, Eq, Structural)]
pub struct StructuralCombine {
    pub left: StructuralNodeRef,
    pub right: StructuralNodeRef,
}

/// The combined nodes of a tree plan, children first.
#[derive(Debug)]
pub struct StructuralFrontierPlan {
    pub combines: Vec<StructuralCombine>,
}

/// The digests of a plan's combined nodes, and its root.
#[derive(Debug)]
pub struct StructuralFrontierEvaluation {
    pub combines: Vec<[F128; 2]>,
    pub root: [F128; 2],
}

/// What a block claims of its touched slots.
#[derive(Debug)]
pub struct ExactStateStructuralFrontierInputs {
    pub touched_indices: Vec<u32>,
    pub active_depth: u32,
    pub old_slot_leaves: Vec<SlotLeafInputs>,
    pub new_slot_leaves: Vec<SlotLeafInputs>,
    pub live_sibling_digests: Vec<[F128; 2]>,
    pub old_combine_digests: Vec<[F128; 2]>,
    pub new_combine_digests: Vec<[F128; 2]>,
    pub old_root: [F128; 2],
    pub new_root: [F128; 2],
}

/// What the Merkle library gives for such inputs: the plan of the touched
/// indices at their depth, the hash of every old and new slot leaf, and the
/// evaluation of the plan on the old and on the new leaves.
#[derive(Debug)]
pub struct FrontierHashes {
    pub plan: Result<StructuralFrontierPlan, SparseMerkleError>,
    pub old_leaves: Vec<[F128; 2]>,
    pub new_leaves: Vec<[F128; 2]>,
    pub old_evaluation: Result<StructuralFrontierEvaluation, SparseMerkleError>,
    pub new_evaluation: Result<StructuralFrontierEvaluation, SparseMerkleError>,
}

/// A plan with its evaluations.
#[derive(Debug)]
pub struct VerifiedExactStateStructuralFrontier {
    pub plan: StructuralFrontierPlan,
    pub old_evaluation: StructuralFrontierEvaluation,
    pub new_evaluation: StructuralFrontierEvaluation,
}

/// Why a frontier is refused.
#[derive(Clone, Copy, Debug, PartialEq, Eq, Structural)]
pub enum ExactStateStructuralFrontierError {
    SlotLeafCountMismatch { touched: usize, old: usize, new: usize },
    OldSlotLeafMismatch { index: usize },
    NewSlotLeafMismatch { index: usize },
    CombineDigestCountMismatch { expected: usize, old: usize, new: usize },
    OldCombineDigestMismatch { index: usize },
    NewCombineDigestMismatch { index: usize },
    OldRootMismatch,
    NewRootMismatch,
    SparseMerkle(SparseMerkleError),
}

/// The digests that leaves claim.
pub open spec fn claimed(leaves: Seq<SlotLeafInputs>) -> Seq<Seq<F128>> {
    Seq::new(leaves.len(), |i: int| leaves[i].expected_leaf@)
}

pub open spec fn digests(s: Seq<[F128; 2]>) -> Seq<Seq<F128>> {
    Seq::new(s.len(), |i: int| s[i]@)
}

/// The least index below both lengths, from `from` on, at which two sequences
/// differ; the lesser length if there is none.
pub open spec fn first_difference(a: Seq<Seq<F128>>, b: Seq<Seq<F128>>, from: nat) -> nat
    decreases a.len() - from,
{
    if from >= a.len() || from >= b.len() || a[from as int] != b[from as int] {
        from
    } else {
        first_difference(a, b, from + 1)
    }
}

/// Two sequences differ within both lengths.
pub open spec fn differs(a: Seq<Seq<F128>>, b: Seq<Seq<F128>>) -> bool {
    first_difference(a, b, 0) < a.len() && first_difference(a, b, 0) < b.len()
}

/// Why a frontier is refused, if it is.
pub open spec fn frontier_error(
    inputs: &ExactStateStructuralFrontierInputs,
    hashes: &FrontierHashes,
) -> Option<ExactStateStructuralFrontierError> {
    let touched = inputs.touched_indices@.len();
    if inputs.old_slot_leaves@.len() != touched || inputs.new_slot_leaves@.len() != touched {
        Some(
            ExactStateStructuralFrontierError::SlotLeafCountMismatch {
                touched: touched as usize,
                old: inputs.old_slot_leaves@.len() as usize,
                new: inputs.new_slot_leaves@.len() as usize,
            },
        )
    } else if let Err(e) = hashes.plan {
        Some(ExactStateStructuralFrontierError::SparseMerkle(e))
    } else if inputs.old_combine_digests@.len() != hashes.plan->Ok_0.combines@.len()
        || inputs.new_combine_digests@.len() != hashes.plan->Ok_0.combines@.len() {
        Some(
            ExactStateStructuralFrontierError::CombineDigestCountMismatch {
                expected: hashes.plan->Ok_0.combines@.len() as usize,
                old: inputs.old_combine_digests@.len() as usize,
                new: inputs.new_combine_digests@.len() as usize,
            },
        )
    } else if differs(claimed(inputs.old_slot_leaves@), digests(hashes.old_leaves@)) {
        Some(
            ExactStateStructuralFrontierError::OldSlotLeafMismatch {
                index: first_difference(
                    claimed(inputs.old_slot_leaves@),
                    digests(hashes.old_leaves@),
                    0,
                ) as usize,
            },
        )
    } else if differs(claimed(inputs.new_slot_leaves@), digests(hashes.new_leaves@)) {
        Some(
            ExactStateStructuralFrontierError::NewSlotLeafMismatch {
                index: first_difference(
                    claimed(inputs.new_slot_leaves@),
                    digests(hashes.new_leaves@),
                    0,
                ) as usize,
            },
        )
    } else if let Err(e) = hashes.old_evaluation {
        Some(ExactStateStructuralFrontierError::SparseMerkle(e))
    } else if differs(
        digests(inputs.old_combine_digests@),
        digests(hashes.old_evaluation->Ok_0.combines@),
    ) {
        Some(
            ExactStateStructuralFrontierError::OldCombineDigestMismatch {
                index: first_difference(
                    digests(inputs.old_combine_digests@),
                    digests(hashes.old_evaluation->Ok_0.combines@),
                    0,
                ) as usize,
            },
        )
    } else if hashes.old_evaluation->Ok_0.root@ != inputs.old_root@ {
        Some(ExactStateStructuralFrontierError::OldRootMismatch)
    } else if let Err(e) = hashes.new_evaluation {
        Some(ExactStateStructuralFrontierError::SparseMerkle(e))
    } else if differs(
        digests(inputs.new_combine_digests@),
        digests(hashes.new_evaluation->Ok_0.combines@),
    ) {
        Some(
            ExactStateStructuralFrontierError::NewCombineDigestMismatch {
                index: first_difference(
                    digests(inputs.new_combine_digests@),
                    digests(hashes.new_evaluation->Ok_0.combines@),
                    0,
                ) as usize,
            },
        )
    } else if hashes.new_evaluation->Ok_0.root@ != inputs.new_root@ {
        Some(ExactStateStructuralFrontierError::NewRootMismatch)
    } else {
        None
    }
}

/// Two digests are the same.
pub fn same_digest(a: &[F128; 2], b: &[F128; 2]) -> (r: bool)
    ensures
        r <==> a@ == b@,
{
    if a[0] == b[0] && a[1] == b[1] {
        assert(a@ =~= b@);
        true
    } else {
        assert(a@[0] == a[0] && a@[1] == a[1] && b@[0] == b[0] && b@[1] == b[1]);
        false
    }
}

/// The digests that leaves claim, as arrays.
pub open spec fn leaf_digests(leaves: Seq<SlotLeafInputs>) -> Seq<[F128; 2]> {
    Seq::new(leaves.len(), |i: int| leaves[i].expected_leaf)
}

/// The digests that leaves claim.
pub fn claimed_digests(leaves: &Vec<SlotLeafInputs>) -> (r: Vec<[F128; 2]>)
    ensures
        r@ == leaf_digests(leaves@),
        digests(r@) == claimed(leaves@),
{
    let mut r: Vec<[F128; 2]> = Vec::new();
    let mut i: usize = 0;
    while i < leaves.len()
        invariant
            i <= leaves@.len(),
            r@.len() == i,
            forall|j: int| 0 <= j < i ==> #[trigger] r@[j] == leaves@[j].expected_leaf,
        decreases leaves@.len() - i,
    {
        r.push(leaves[i].expected_leaf);
        i += 1;
    }
    assert(r@ =~= leaf_digests(leaves@));
    assert(digests(r@) =~= claimed(leaves@));
    r
}

/// Where two lists of digests first differ within both lengths.
fn first_digest_mismatch(left: &Vec<[F128; 2]>, right: &Vec<[F128; 2]>) -> (r: Option<usize>)
    ensures
        match r {
            Some(i) => differs(digests(left@), digests(right@)) && i == first_difference(
                digests(left@),
                digests(right@),
                0,
            ),
            None => !differs(digests(left@), digests(right@)),
        },
{
    let ghost (a, b) = (digests(left@), digests(right@));
    let mut i: usize = 0;
    while i < left.len() && i < right.len()
        invariant
            i <= left@.len(),
            i <= right@.len(),
            a == digests(left@),
            b == digests(right@),
            first_difference(a, b, i as nat) == first_difference(a, b, 0),
        decreases left@.len() - i,
    {
        if !same_digest(&left[i], &right[i]) {
            assert(a[i as int] != b[i as int]);
            return Some(i);
        }
        assert(a[i as int] == b[i as int]);
        i += 1;
    }
    None
}

/// Every leaf is given with its hash.
pub open spec fn leaves_hashed(
    inputs: &ExactStateStructuralFrontierInputs,
    hashes: &FrontierHashes,
) -> bool {
    &&& hashes.old_leaves@.len() == inputs.old_slot_leaves@.len()
    &&& hashes.new_leaves@.len() == inputs.new_slot_leaves@.len()
}

/// Checks the claims of a frontier against the hashes of its plan. Topology
/// comes from the plan alone.
pub fn verify_exact_state_structural_frontier(
    inputs: &ExactStateStructuralFrontierInputs,
    hashes: FrontierHashes,
) -> (r: Result<VerifiedExactStateStructuralFrontier, ExactStateStructuralFrontierError>)
    requires
        leaves_hashed(inputs, &hashes),
    ensures
        match r {
            Ok(v) => frontier_error(inputs, &hashes) is None && hashes.plan == Ok::<
                StructuralFrontierPlan,
                SparseMerkleError,
            >(v.plan) && hashes.old_evaluation == Ok::<
                StructuralFrontierEvaluation,
                SparseMerkleError,
            >(v.old_evaluation) && hashes.new_evaluation == Ok::<
                StructuralFrontierEvaluation,
                SparseMerkleError,
            >(v.new_evaluation),
            Err(e) => frontier_error(inputs, &hashes) == Some(e),
        },
{
    let touched: usize = inputs.touched_indices.len();
    if inputs.old_slot_leaves.len() != touched || inputs.new_slot_leaves.len() != touched {
        return Err(
            ExactStateStructuralFrontierError::SlotLeafCountMismatch {
                touched,
                old: inputs.old_slot_leaves.len(),
                new: inputs.new_slot_leaves.len(),
            },
        );
    }
    let plan = match hashes.plan {
        Ok(p) => p,
        Err(e) => {
            return Err(ExactStateStructuralFrontierError::SparseMerkle(e));
        },
    };
    let combines: usize = plan.combines.len();
    if inputs.old_combine_digests.len() != combines || inputs.new_combine_digests.len()
        != combines {
        return Err(
            ExactStateStructuralFrontierError::CombineDigestCountMismatch {
                expected: combines,
                old: inputs.old_combine_digests.len(),
                new: inputs.new_combine_digests.len(),
            },
        );
    }
    let old_claimed = claimed_digests(&inputs.old_slot_leaves);
    match first_digest_mismatch(&old_claimed, &hashes.old_leaves) {
        Some(index) => {
            return Err(ExactStateStructuralFrontierError::OldSlotLeafMismatch { index });
        },
        None => {},
    }
    let new_claimed = claimed_digests(&inputs.new_slot_leaves);
    match first_digest_mismatch(&new_claimed, &hashes.new_leaves) {
        Some(index) => {
            return Err(ExactStateStructuralFrontierError::NewSlotLeafMismatch { index });
        },
        None => {},
    }
    let old_evaluation = match hashes.old_evaluation {
        Ok(v) => v,
        Err(e) => {
            return Err(ExactStateStructuralFrontierError::SparseMerkle(e));
        },
    };
    match first_digest_mismatch(&inputs.old_combine_digests, &old_evaluation.combines) {
        Some(index) => {
            return Err(ExactStateStructuralFrontierError::OldCombineDigestMismatch { index });
        },
        None => {},
    }
    if !same_digest(&old_evaluation.root, &inputs.old_root) {
        return Err(ExactStateStructuralFrontierError::OldRootMismatch);
    }
    let new_evaluation = match hashes.new_evaluation {
        Ok(v) => v,
        Err(e) => {
            return Err(ExactStateStructuralFrontierError::SparseMerkle(e));
        },
    };
    match first_digest_mismatch(&inputs.new_combine_digests, &new_evaluation.combines) {
        Some(index) => {
            return Err(ExactStateStructuralFrontierError::NewCombineDigestMismatch { index });
        },
        None => {},
    }
    if !same_digest(&new_evaluation.root, &inputs.new_root) {
        return Err(ExactStateStructuralFrontierError::NewRootMismatch);
    }
    Ok(VerifiedExactStateStructuralFrontier { plan, old_evaluation, new_evaluation })
}

proof fn lemma_first_difference(a: Seq<Seq<F128>>, b: Seq<Seq<F128>>, from: nat, i: int)
    requires
        first_difference(a, b, from) >= a.len() || first_difference(a, b, from) >= b.len(),
        from <= i < a.len(),
        i < b.len(),
    ensures
        a[i] == b[i],
    decreases a.len() - from,
{
    if from < i {
        lemma_first_difference(a, b, from + 1, i);
    }
}

/// An accepted frontier claims exactly the hashes of its plan: as many leaves
/// and combined nodes as there are, each with its digest, and both roots.
pub proof fn lemma_accepted_frontier(
    inputs: &ExactStateStructuralFrontierInputs,
    hashes: &FrontierHashes,
)
    requires
        frontier_error(inputs, hashes) is None,
        leaves_hashed(inputs, hashes),
        hashes.old_evaluation is Ok ==> hashes.plan is Ok
            && hashes.old_evaluation->Ok_0.combines@.len() == hashes.plan->Ok_0.combines@.len(),
        hashes.new_evaluation is Ok ==> hashes.plan is Ok
            && hashes.new_evaluation->Ok_0.combines@.len() == hashes.plan->Ok_0.combines@.len(),
    ensures
        claimed(inputs.old_slot_leaves@) == digests(hashes.old_leaves@),
        claimed(inputs.new_slot_leaves@) == digests(hashes.new_leaves@),
        digests(inputs.old_combine_digests@) == digests(hashes.old_evaluation->Ok_0.combines@),
        digests(inputs.new_combine_digests@) == digests(hashes.new_evaluation->Ok_0.combines@),
        inputs.old_root@ == hashes.old_evaluation->Ok_0.root@,
        inputs.new_root@ == hashes.new_evaluation->Ok_0.root@,
{
    lemma_no_difference(claimed(inputs.old_slot_leaves@), digests(hashes.old_leaves@));
    lemma_no_difference(claimed(inputs.new_slot_leaves@), digests(hashes.new_leaves@));
    lemma_no_difference(
        digests(inputs.old_combine_digests@),
        digests(hashes.old_evaluation->Ok_0.combines@),
    );
    lemma_no_difference(
        digests(inputs.new_combine_digests@),
        digests(hashes.new_evaluation->Ok_0.combines@),
    );
}

proof fn lemma_no_difference(a: Seq<Seq<F128>>, b: Seq<Seq<F128>>)
    requires
        a.len() == b.len(),
        !differs(a, b),
    ensures
        a == b,
{
    assert forall|i: int| 0 <= i < a.len() implies a[i] == b[i] by {
        lemma_first_difference(a, b, 0, i);
    }
    assert(a =~= b);
}

} // verus!
