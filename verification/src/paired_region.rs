//! Paired updates of a checked frontier, packed to a fixed width.

use vstd::prelude::*;
use vstd::arithmetic::power2::pow2;
use crate::field::F128;
use crate::frontier_count::MIN_EXACT_STATE_DEPTH;
use crate::paired_merkle_update::{
    carried, ghost_update, path_root, PairedMerkleUpdateWitness, Update, PAIRED_UPDATE_DEPTH,
    PAIRED_UPDATE_STRIDE,
};
use crate::poseidon::Permutation;
use crate::sorting::{next_pow2, next_power_of_two};
use crate::structural_frontier::{
    frontier_error, leaves_hashed, verify_exact_state_structural_frontier,
    ExactStateStructuralFrontierError, ExactStateStructuralFrontierInputs, FrontierHashes,
    SparseMerkleError,
};

verus! {

/// One leaf update with its path.
#[derive(Debug)]
pub struct SequentialMerkleUpdatePath {
    pub old_leaf: [F128; 2],
    pub new_leaf: [F128; 2],
    pub siblings: Vec<[F128; 2]>,
    pub directions: Vec<bool>,
    pub root_before: [F128; 2],
    pub root_after: [F128; 2],
}

/// Updates within segments, then updates of the segment roots.
#[derive(Debug)]
pub struct SegmentedSequentialMerkleUpdates {
    pub local_depth: u32,
    pub upper_depth: u32,
    pub local_updates: Vec<SequentialMerkleUpdatePath>,
    pub segment_updates: Vec<SequentialMerkleUpdatePath>,
}

/// The live paired updates of a frontier with the widths they are packed to.
#[derive(Debug)]
pub struct ExactStatePairedRegionData {
    pub local_updates: Vec<PairedMerkleUpdateWitness>,
    pub upper_updates: Vec<PairedMerkleUpdateWitness>,
    pub local_update_count: usize,
    pub upper_update_count: usize,
    pub touched_capacity: usize,
    pub segment_capacity: usize,
    /// Levels of an upper update up to the real root.
    pub active_upper_depth: usize,
}

/// Packed updates with their domain.
#[derive(Debug)]
pub struct PackedExactStatePairedUpdates {
    /// Local updates, local padding, upper updates, upper padding.
    pub updates: Vec<PairedMerkleUpdateWitness>,
    pub active_slots: usize,
    pub slots: usize,
    pub w_log: usize,
}

/// Why updates are not packed.
#[allow(inconsistent_fields)]
#[derive(Clone, Copy, Debug, PartialEq, Eq, Structural)]
pub enum ExactStatePairedRegionError {
    Frontier(ExactStateStructuralFrontierError),
    ActiveDepthOutOfRange { active_depth: u32, min: u32, max: u32 },
    LocalDepthMismatch { expected: usize, actual: usize },
    UpperDepthOutOfRange { actual: usize, min: usize, max: usize },
    LocalPathDepthMismatch { update: usize, expected: usize, siblings: usize, directions: usize },
    UpperPathDepthMismatch { update: usize, expected: usize, siblings: usize, directions: usize },
    TouchedCapacityExceeded { required: usize, capacity: usize },
    SegmentCapacityExceeded { required: usize, capacity: usize },
    PackedGeometryOverflow { total_updates: usize },
}

/// Why updates of a frontier are not derived, if they are not.
pub open spec fn segmented_error(
    inputs: &ExactStateStructuralFrontierInputs,
    hashes: &FrontierHashes,
    segmented: &Result<SegmentedSequentialMerkleUpdates, SparseMerkleError>,
) -> Option<ExactStateStructuralFrontierError> {
    match frontier_error(inputs, hashes) {
        Some(e) => Some(e),
        None => match *segmented {
            Err(e) => Some(ExactStateStructuralFrontierError::SparseMerkle(e)),
            Ok(_) => None,
        },
    }
}

/// The updates of a frontier that its hashes confirm. `segmented` is what the
/// Merkle library gives for the frontier's leaves and siblings.
pub fn derive_exact_state_segmented_updates(
    inputs: &ExactStateStructuralFrontierInputs,
    hashes: FrontierHashes,
    segmented: Result<SegmentedSequentialMerkleUpdates, SparseMerkleError>,
) -> (r: Result<SegmentedSequentialMerkleUpdates, ExactStateStructuralFrontierError>)
    requires
        leaves_hashed(inputs, &hashes),
    ensures
        match r {
            Ok(s) => segmented_error(inputs, &hashes, &segmented) is None && segmented == Ok::<
                SegmentedSequentialMerkleUpdates,
                SparseMerkleError,
            >(s),
            Err(e) => segmented_error(inputs, &hashes, &segmented) == Some(e),
        },
{
    match verify_exact_state_structural_frontier(inputs, hashes) {
        Ok(_) => match segmented {
            Ok(s) => Ok(s),
            Err(e) => Err(ExactStateStructuralFrontierError::SparseMerkle(e)),
        },
        Err(e) => Err(e),
    }
}

// ---------------------------------------------------------------------------
// Paths
// ---------------------------------------------------------------------------

/// A path has a sibling and a direction for each of `depth` levels.
pub open spec fn path_deep(p: SequentialMerkleUpdatePath, depth: int) -> bool {
    p.siblings@.len() == depth && p.directions@.len() == depth
}

/// The first update whose path is not `depth` levels deep; the number of
/// updates if there is none.
pub open spec fn first_shallow(
    updates: Seq<SequentialMerkleUpdatePath>,
    depth: int,
    from: nat,
) -> nat
    decreases updates.len() - from,
{
    if from >= updates.len() || !path_deep(updates[from as int], depth) {
        from
    } else {
        first_shallow(updates, depth, from + 1)
    }
}

/// What a path of the wrong depth is refused with.
pub open spec fn depth_error(
    updates: Seq<SequentialMerkleUpdatePath>,
    depth: usize,
    local: bool,
) -> Option<ExactStatePairedRegionError> {
    let i = first_shallow(updates, depth as int, 0);
    if i >= updates.len() {
        None
    } else if local {
        Some(
            ExactStatePairedRegionError::LocalPathDepthMismatch {
                update: i as usize,
                expected: depth,
                siblings: updates[i as int].siblings@.len() as usize,
                directions: updates[i as int].directions@.len() as usize,
            },
        )
    } else {
        Some(
            ExactStatePairedRegionError::UpperPathDepthMismatch {
                update: i as usize,
                expected: depth,
                siblings: updates[i as int].siblings@.len() as usize,
                directions: updates[i as int].directions@.len() as usize,
            },
        )
    }
}

proof fn lemma_all_deep(updates: Seq<SequentialMerkleUpdatePath>, depth: int, from: nat, i: int)
    requires
        first_shallow(updates, depth, from) >= updates.len(),
        from <= i < updates.len(),
    ensures
        path_deep(updates[i], depth),
    decreases updates.len() - from,
{
    if from < i {
        lemma_all_deep(updates, depth, from + 1, i);
    }
}

/// Every path is as deep as expected, or the first that is not.
fn validate_paired_path_depths(
    updates: &Vec<SequentialMerkleUpdatePath>,
    expected: usize,
    local: bool,
) -> (r: Option<ExactStatePairedRegionError>)
    ensures
        r == depth_error(updates@, expected, local),
        r is None ==> forall|i: int|
            0 <= i < updates@.len() ==> path_deep(#[trigger] updates@[i], expected as int),
{
    let mut update: usize = 0;
    while update < updates.len()
        invariant
            update <= updates@.len(),
            first_shallow(updates@, expected as int, update as nat) == first_shallow(
                updates@,
                expected as int,
                0,
            ),
        decreases updates@.len() - update,
    {
        let path = &updates[update];
        if path.siblings.len() != expected || path.directions.len() != expected {
            return Some(
                if local {
                    ExactStatePairedRegionError::LocalPathDepthMismatch {
                        update,
                        expected,
                        siblings: path.siblings.len(),
                        directions: path.directions.len(),
                    }
                } else {
                    ExactStatePairedRegionError::UpperPathDepthMismatch {
                        update,
                        expected,
                        siblings: path.siblings.len(),
                        directions: path.directions.len(),
                    }
                },
            );
        }
        update += 1;
    }
    proof {
        assert forall|i: int| 0 <= i < updates@.len() implies path_deep(
            #[trigger] updates@[i],
            expected as int,
        ) by {
            lemma_all_deep(updates@, expected as int, 0, i);
        }
    }
    None
}

/// The paired update of a path, continued past its last level as left growth
/// beside empty trees.
pub open spec fn path_update(
    p: SequentialMerkleUpdatePath,
    depth: int,
    zero_roots: Seq<[F128; 2]>,
) -> Update {
    Update {
        old_entry: p.old_leaf@,
        new_entry: p.new_leaf@,
        siblings: Seq::new(
            16,
            |level: int|
                if level < depth {
                    p.siblings@[level]@
                } else {
                    zero_roots[16 + level]@
                },
        ),
        directions: Seq::new(16, |level: int| level < depth && p.directions@[level]),
    }
}

fn path_witness(
    update: &SequentialMerkleUpdatePath,
    depth: usize,
    zero_roots: &Vec<[F128; 2]>,
) -> (r: PairedMerkleUpdateWitness)
    requires
        path_deep(*update, depth as int),
        depth <= 16,
        depth < 16 ==> zero_roots@.len() >= 32,
    ensures
        r@ == path_update(*update, depth as int, zero_roots@),
{
    let zero = [F128::zero(), F128::zero()];
    let mut siblings: [[F128; 2]; 16] = [zero;16];
    let mut directions: [bool; 16] = [false;16];
    let mut level: usize = 0;
    while level < PAIRED_UPDATE_DEPTH
        invariant
            level <= 16,
            path_deep(*update, depth as int),
            depth <= 16,
            depth < 16 ==> zero_roots@.len() >= 32,
            forall|l: int|
                0 <= l < level ==> (#[trigger] siblings@[l])@ == if l < depth {
                    update.siblings@[l]@
                } else {
                    zero_roots@[16 + l]@
                },
            forall|l: int|
                0 <= l < level ==> (#[trigger] directions@[l]) == (l < depth
                    && update.directions@[l]),
        decreases 16 - level,
    {
        if level < depth {
            siblings[level] = update.siblings[level];
            directions[level] = update.directions[level];
        } else {
            siblings[level] = zero_roots[PAIRED_UPDATE_DEPTH + level];
            directions[level] = false;
        }
        level += 1;
    }
    let r = PairedMerkleUpdateWitness {
        old_entry: update.old_leaf,
        new_entry: update.new_leaf,
        siblings,
        directions,
    };
    proof {
        let u = path_update(*update, depth as int, zero_roots@);
        assert(r@.siblings =~= u.siblings);
        assert(r@.directions =~= u.directions);
    }
    r
}

/// The paired updates of paths.
fn path_witnesses(
    updates: &Vec<SequentialMerkleUpdatePath>,
    depth: usize,
    zero_roots: &Vec<[F128; 2]>,
) -> (r: Vec<PairedMerkleUpdateWitness>)
    requires
        depth <= 16,
        depth < 16 ==> zero_roots@.len() >= 32,
        forall|i: int| 0 <= i < updates@.len() ==> path_deep(#[trigger] updates@[i], depth as int),
    ensures
        r@.len() == updates@.len(),
        forall|i: int|
            0 <= i < r@.len() ==> (#[trigger] r@[i])@ == path_update(
                updates@[i],
                depth as int,
                zero_roots@,
            ),
{
    let mut r: Vec<PairedMerkleUpdateWitness> = Vec::new();
    while r.len() < updates.len()
        invariant
            r@.len() <= updates@.len(),
            depth <= 16,
            depth < 16 ==> zero_roots@.len() >= 32,
            forall|i: int|
                0 <= i < updates@.len() ==> path_deep(#[trigger] updates@[i], depth as int),
            forall|i: int|
                0 <= i < r@.len() ==> (#[trigger] r@[i])@ == path_update(
                    updates@[i],
                    depth as int,
                    zero_roots@,
                ),
        decreases updates@.len() - r@.len(),
    {
        let i: usize = r.len();
        r.push(path_witness(&updates[i], depth, zero_roots));
    }
    r
}

/// The packed domain of a number of updates exists.
pub open spec fn geometry_fits(touched: nat, segments: nat) -> bool {
    &&& touched + segments > 0
    &&& (touched + segments) * 64 <= usize::MAX
    &&& next_pow2((touched + segments) * 64) <= usize::MAX
}

/// Why the updates of a frontier are not packed, if they are not.
pub open spec fn region_error(
    inputs: &ExactStateStructuralFrontierInputs,
    hashes: &FrontierHashes,
    segmented: &Result<SegmentedSequentialMerkleUpdates, SparseMerkleError>,
    touched_capacity: usize,
    segment_capacity: usize,
) -> Option<ExactStatePairedRegionError> {
    match segmented_error(inputs, hashes, segmented) {
        Some(e) => Some(ExactStatePairedRegionError::Frontier(e)),
        None => {
            let s = segmented->Ok_0;
            if !(24 <= inputs.active_depth <= 32) {
                Some(
                    ExactStatePairedRegionError::ActiveDepthOutOfRange {
                        active_depth: inputs.active_depth,
                        min: 24,
                        max: 32,
                    },
                )
            } else if s.local_depth != 16 {
                Some(
                    ExactStatePairedRegionError::LocalDepthMismatch {
                        expected: 16,
                        actual: s.local_depth as usize,
                    },
                )
            } else if !(8 <= s.upper_depth <= 16) {
                Some(
                    ExactStatePairedRegionError::UpperDepthOutOfRange {
                        actual: s.upper_depth as usize,
                        min: 8,
                        max: 16,
                    },
                )
            } else if s.local_updates@.len() > touched_capacity {
                Some(
                    ExactStatePairedRegionError::TouchedCapacityExceeded {
                        required: s.local_updates@.len() as usize,
                        capacity: touched_capacity,
                    },
                )
            } else if s.segment_updates@.len() > segment_capacity {
                Some(
                    ExactStatePairedRegionError::SegmentCapacityExceeded {
                        required: s.segment_updates@.len() as usize,
                        capacity: segment_capacity,
                    },
                )
            } else if depth_error(s.local_updates@, 16, true) is Some {
                depth_error(s.local_updates@, 16, true)
            } else if depth_error(s.segment_updates@, s.upper_depth as usize, false) is Some {
                depth_error(s.segment_updates@, s.upper_depth as usize, false)
            } else if !geometry_fits(touched_capacity as nat, segment_capacity as nat) {
                Some(
                    ExactStatePairedRegionError::PackedGeometryOverflow {
                        total_updates: if touched_capacity + segment_capacity > usize::MAX {
                            usize::MAX
                        } else {
                            (touched_capacity + segment_capacity) as usize
                        },
                    },
                )
            } else {
                None
            }
        },
    }
}

/// A power of two that does not fit is over half the range.
proof fn lemma_no_power(n: nat)
    requires
        n >= 1,
        n > usize::MAX / 2 + 1,
        n <= usize::MAX,
    ensures
        next_pow2(n) > usize::MAX,
{
    crate::sorting::lemma_next_pow2(n);
    let p = next_pow2(n);
    let k = choose|k: nat| p == pow2(k);
    vstd::arithmetic::power2::lemma2_to64();
    vstd::arithmetic::power2::lemma2_to64_rest();
    if p <= usize::MAX {
        if k <= 63 {
            crate::bits::lemma_pow2_bound(k, 63);
            if usize::BITS == 32 && k >= 32 {
                crate::bits::lemma_pow2_bound(32, k);
            }
            if usize::BITS == 32 && k <= 31 {
                crate::bits::lemma_pow2_bound(k, 31);
            }
        } else {
            crate::bits::lemma_pow2_bound(64, k);
        }
    }
}

impl ExactStatePairedRegionData {
    /// The live updates fit their widths and the packed domain exists.
    pub open spec fn wf(&self) -> bool {
        &&& self.local_updates@.len() == self.local_update_count
        &&& self.upper_updates@.len() == self.upper_update_count
        &&& self.local_update_count <= self.touched_capacity
        &&& self.upper_update_count <= self.segment_capacity
        &&& 8 <= self.active_upper_depth <= PAIRED_UPDATE_DEPTH
        &&& geometry_fits(self.touched_capacity as nat, self.segment_capacity as nat)
    }

    /// The paired updates of a frontier that its hashes confirm. `segmented` is
    /// what the Merkle library gives for the frontier's leaves and siblings,
    /// and `zero_roots` the roots of empty trees by depth.
    pub fn new(
        inputs: &ExactStateStructuralFrontierInputs,
        hashes: FrontierHashes,
        segmented: Result<SegmentedSequentialMerkleUpdates, SparseMerkleError>,
        zero_roots: &Vec<[F128; 2]>,
        touched_capacity: usize,
        segment_capacity: usize,
    ) -> (r: Result<Self, ExactStatePairedRegionError>)
        requires
            zero_roots@.len() >= 32,
            leaves_hashed(inputs, &hashes),
        ensures
            match r {
                Ok(d) => {
                    let s = segmented->Ok_0;
                    &&& region_error(inputs, &hashes, &segmented, touched_capacity, segment_capacity)
                        is None
                    &&& d.wf()
                    &&& d.touched_capacity == touched_capacity
                    &&& d.segment_capacity == segment_capacity
                    &&& d.active_upper_depth == s.upper_depth
                    &&& d.local_updates@.len() == s.local_updates@.len()
                    &&& d.upper_updates@.len() == s.segment_updates@.len()
                    &&& forall|i: int|
                        0 <= i < d.local_updates@.len() ==> (#[trigger] d.local_updates@[i])@
                            == path_update(s.local_updates@[i], 16, zero_roots@)
                    &&& forall|i: int|
                        0 <= i < d.upper_updates@.len() ==> (#[trigger] d.upper_updates@[i])@
                            == path_update(
                            s.segment_updates@[i],
                            s.upper_depth as int,
                            zero_roots@,
                        )
                },
                Err(e) => region_error(
                    inputs,
                    &hashes,
                    &segmented,
                    touched_capacity,
                    segment_capacity,
                ) == Some(e),
            },
    {
        let derived = match derive_exact_state_segmented_updates(inputs, hashes, segmented) {
            Ok(s) => s,
            Err(e) => {
                return Err(ExactStatePairedRegionError::Frontier(e));
            },
        };
        if inputs.active_depth < 24 || inputs.active_depth > 32 {
            return Err(
                ExactStatePairedRegionError::ActiveDepthOutOfRange {
                    active_depth: inputs.active_depth,
                    min: 24,
                    max: 32,
                },
            );
        }
        let local_depth: usize = derived.local_depth as usize;
        if local_depth != PAIRED_UPDATE_DEPTH {
            return Err(
                ExactStatePairedRegionError::LocalDepthMismatch {
                    expected: PAIRED_UPDATE_DEPTH,
                    actual: local_depth,
                },
            );
        }
        let active_upper_depth: usize = derived.upper_depth as usize;
        let min_upper_depth: usize = MIN_EXACT_STATE_DEPTH - PAIRED_UPDATE_DEPTH;
        if active_upper_depth < min_upper_depth || active_upper_depth > PAIRED_UPDATE_DEPTH {
            return Err(
                ExactStatePairedRegionError::UpperDepthOutOfRange {
                    actual: active_upper_depth,
                    min: min_upper_depth,
                    max: PAIRED_UPDATE_DEPTH,
                },
            );
        }
        let local_update_count: usize = derived.local_updates.len();
        let upper_update_count: usize = derived.segment_updates.len();
        if local_update_count > touched_capacity {
            return Err(
                ExactStatePairedRegionError::TouchedCapacityExceeded {
                    required: local_update_count,
                    capacity: touched_capacity,
                },
            );
        }
        if upper_update_count > segment_capacity {
            return Err(
                ExactStatePairedRegionError::SegmentCapacityExceeded {
                    required: upper_update_count,
                    capacity: segment_capacity,
                },
            );
        }
        match validate_paired_path_depths(&derived.local_updates, local_depth, true) {
            Some(e) => {
                return Err(e);
            },
            None => {},
        }
        match validate_paired_path_depths(&derived.segment_updates, active_upper_depth, false) {
            Some(e) => {
                return Err(e);
            },
            None => {},
        }
        let total_updates: usize = match touched_capacity.checked_add(segment_capacity) {
            Some(n) => n,
            None => {
                return Err(
                    ExactStatePairedRegionError::PackedGeometryOverflow {
                        total_updates: usize::MAX,
                    },
                );
            },
        };
        let active_slots: usize = match total_updates.checked_mul(PAIRED_UPDATE_STRIDE) {
            Some(n) => n,
            None => {
                return Err(ExactStatePairedRegionError::PackedGeometryOverflow { total_updates });
            },
        };
        if active_slots == 0 || active_slots > usize::MAX / 2 + 1 {
            proof {
                if active_slots > 0 {
                    lemma_no_power(active_slots as nat);
                }
            }
            return Err(ExactStatePairedRegionError::PackedGeometryOverflow { total_updates });
        }
        let slots: usize = next_power_of_two(active_slots);
        Ok(
            ExactStatePairedRegionData {
                local_updates: path_witnesses(&derived.local_updates, local_depth, zero_roots),
                upper_updates: path_witnesses(
                    &derived.segment_updates,
                    active_upper_depth,
                    zero_roots,
                ),
                local_update_count,
                upper_update_count,
                touched_capacity,
                segment_capacity,
                active_upper_depth,
            },
        )
    }

    /// The packed update at an index: a local one, a local one of the empty
    /// leaf, an upper one, or an upper one of zero entries.
    pub open spec fn packed_at(&self, empty_leaf: Seq<F128>, i: int) -> Update {
        if i < self.local_updates@.len() {
            self.local_updates@[i]@
        } else if i < self.touched_capacity {
            empty_update(empty_leaf)
        } else if i - self.touched_capacity < self.upper_updates@.len() {
            self.upper_updates@[i - self.touched_capacity]@
        } else {
            ghost_update()
        }
    }

    /// The updates over their full widths, with their domain.
    pub fn packed_updates(&self, empty_leaf: &[F128; 2]) -> (r: PackedExactStatePairedUpdates)
        requires
            self.wf(),
        ensures
            r.updates@.len() == self.touched_capacity + self.segment_capacity,
            forall|i: int|
                0 <= i < r.updates@.len() ==> (#[trigger] r.updates@[i])@ == self.packed_at(
                    empty_leaf@,
                    i,
                ),
            r.active_slots == r.updates@.len() * 64,
            r.slots == next_pow2(r.active_slots as nat),
            r.slots == pow2(r.w_log as nat),
    {
        let total_updates: usize = self.touched_capacity + self.segment_capacity;
        let mut updates: Vec<PairedMerkleUpdateWitness> = Vec::new();
        while updates.len() < total_updates
            invariant
                self.wf(),
                total_updates == self.touched_capacity + self.segment_capacity,
                updates@.len() <= total_updates,
                forall|i: int|
                    0 <= i < updates@.len() ==> (#[trigger] updates@[i])@ == self.packed_at(
                        empty_leaf@,
                        i,
                    ),
            decreases total_updates - updates@.len(),
        {
            let i: usize = updates.len();
            let next = if i < self.local_updates.len() {
                self.local_updates[i]
            } else if i < self.touched_capacity {
                local_empty_ghost(empty_leaf)
            } else if i - self.touched_capacity < self.upper_updates.len() {
                self.upper_updates[i - self.touched_capacity]
            } else {
                PairedMerkleUpdateWitness::canonical_ghost()
            };
            updates.push(next);
        }
        let active_slots: usize = total_updates * PAIRED_UPDATE_STRIDE;
        proof {
            if active_slots > usize::MAX / 2 + 1 {
                lemma_no_power(active_slots as nat);
            }
        }
        let slots: usize = next_power_of_two(active_slots);
        let w_log: usize = exponent(slots);
        PackedExactStatePairedUpdates { updates, active_slots, slots, w_log }
    }
}

/// The exponent of a power of two.
fn exponent(n: usize) -> (r: usize)
    requires
        crate::permutation_network::is_power_of_two(n as nat),
    ensures
        n == pow2(r as nat),
{
    let ghost k = choose|k: nat| n as nat == pow2(k);
    let mut r: usize = 0;
    let mut p: usize = 1;
    proof {
        vstd::arithmetic::power2::lemma2_to64();
        assert(n as nat == pow2(k));
        vstd::arithmetic::power2::lemma_pow2_pos(k);
    }
    while p < n
        invariant
            n as nat == pow2(k),
            r <= k,
            p == pow2(r as nat),
            p <= n,
            r < p,
        decreases n - p,
    {
        proof {
            vstd::arithmetic::power2::lemma_pow2_unfold((r + 1) as nat);
            if r == k {
                assert(p == n);
            }
            crate::bits::lemma_pow2_bound((r + 1) as nat, k);
        }
        p = p * 2;
        r += 1;
    }
    r
}

/// The update of an empty leaf that stays empty.
pub open spec fn empty_update(empty_leaf: Seq<F128>) -> Update {
    Update {
        old_entry: empty_leaf,
        new_entry: empty_leaf,
        siblings: ghost_update().siblings,
        directions: ghost_update().directions,
    }
}

/// The update that pads local ones: its entries are the hash of an empty slot.
fn local_empty_ghost(empty_leaf: &[F128; 2]) -> (r: PairedMerkleUpdateWitness)
    ensures
        r@ == empty_update(empty_leaf@),
{
    let padding = PairedMerkleUpdateWitness::canonical_ghost();
    let r = PairedMerkleUpdateWitness {
        old_entry: *empty_leaf,
        new_entry: *empty_leaf,
        siblings: padding.siblings,
        directions: padding.directions,
    };
    assert(r@.siblings == padding@.siblings);
    r
}

/// The roots of a packed path after its own depth are those of the path itself,
/// whatever continues it.
pub proof fn lemma_path_endpoints(
    p: Permutation,
    iv: Seq<F128>,
    path: SequentialMerkleUpdatePath,
    depth: int,
    zero_roots: Seq<[F128; 2]>,
    new: bool,
)
    requires
        0 <= depth <= 16,
        path_deep(path, depth),
    ensures
        carried(p, iv, path_update(path, depth, zero_roots), new, depth as nat) == path_root(
            p,
            iv,
            if new {
                path.new_leaf@
            } else {
                path.old_leaf@
            },
            Seq::new(path.siblings@.len(), |i: int| path.siblings@[i]@),
            path.directions@,
            depth as nat,
        ),
{
    let u = path_update(path, depth, zero_roots);
    let sibs = Seq::new(path.siblings@.len(), |i: int| path.siblings@[i]@);
    lemma_path_agrees(
        p,
        iv,
        if new {
            path.new_leaf@
        } else {
            path.old_leaf@
        },
        u.siblings,
        u.directions,
        sibs,
        path.directions@,
        depth as nat,
    );
}

/// A path's root depends on its own levels alone.
proof fn lemma_path_agrees(
    p: Permutation,
    iv: Seq<F128>,
    entry: Seq<F128>,
    s: Seq<Seq<F128>>,
    d: Seq<bool>,
    t: Seq<Seq<F128>>,
    e: Seq<bool>,
    depth: nat,
)
    requires
        forall|i: int| 0 <= i < depth ==> (#[trigger] s[i]) == t[i],
        forall|i: int| 0 <= i < depth ==> (#[trigger] d[i]) == e[i],
    ensures
        path_root(p, iv, entry, s, d, depth) == path_root(p, iv, entry, t, e, depth),
    decreases depth,
{
    if depth > 0 {
        lemma_path_agrees(p, iv, entry, s, d, t, e, (depth - 1) as nat);
        assert(s[depth - 1] == t[depth - 1]);
    }
}

} // verus!
