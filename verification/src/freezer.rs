//! Freezing the bank of the two classes from honest witnesses.
//!
//! [`HistoryStepFreezer`] decides what to do next; its caller performs each
//! action (reading witnesses, proving, assembling and storing matrices) and
//! hands back what came of it. Keys and matrices are known here by their
//! digests.

use vstd::prelude::*;
use crate::accepted_claim_batch::ChainAccumulator;
use crate::wire_shape::HistoryStepError;

verus! {

/// Classes of the bank, one for each tier.
pub const HISTORY_STEP_CLASS_COUNT: usize = 2;

/// Passes over the backbone while keys are still provisional.
pub const PROVISIONAL_PASSES: usize = 8;

/// Passes over the backbone once keys are settled.
pub const STABLE_PASSES: usize = 3;

/// A value for each tier.
#[derive(Clone, Copy, Debug, PartialEq, Eq)]
pub struct PerTier<T> {
    pub b25: T,
    pub b255: T,
}

impl<T> PerTier<T> {
    pub open spec fn get(self, slot: int) -> T {
        if slot == 0 {
            self.b25
        } else {
            self.b255
        }
    }

    pub open spec fn set(self, slot: int, value: T) -> PerTier<T> {
        if slot == 0 {
            PerTier { b25: value, b255: self.b255 }
        } else {
            PerTier { b25: self.b25, b255: value }
        }
    }
}

impl<T: Copy> PerTier<T> {
    pub fn at(&self, slot: usize) -> (r: T)
        ensures
            r == self.get(slot as int),
    {
        if slot == 0 {
            self.b25
        } else {
            self.b255
        }
    }

    pub fn put(&mut self, slot: usize, value: T)
        ensures
            *final(self) == old(self).set(slot as int, value),
    {
        if slot == 0 {
            self.b25 = value;
        } else {
            self.b255 = value;
        }
    }
}

/// One backbone witness: its tier, and the accumulators it leads from and to.
#[derive(Clone, Copy, Debug, PartialEq, Eq)]
pub enum HistoryStepFreezeInput {
    B25 { start: ChainAccumulator, end: ChainAccumulator },
    B255 { start: ChainAccumulator, end: ChainAccumulator },
}

impl HistoryStepFreezeInput {
    pub open spec fn slot(self) -> int {
        match self {
            HistoryStepFreezeInput::B25 { .. } => 0,
            HistoryStepFreezeInput::B255 { .. } => 1,
        }
    }

    pub open spec fn from(self) -> ChainAccumulator {
        match self {
            HistoryStepFreezeInput::B25 { start, .. } => start,
            HistoryStepFreezeInput::B255 { start, .. } => start,
        }
    }

    pub open spec fn to(self) -> ChainAccumulator {
        match self {
            HistoryStepFreezeInput::B25 { end, .. } => end,
            HistoryStepFreezeInput::B255 { end, .. } => end,
        }
    }

    pub fn current_slot(&self) -> (r: usize)
        ensures
            r == self.slot(),
            r < 2,
    {
        match self {
            HistoryStepFreezeInput::B25 { .. } => 0,
            HistoryStepFreezeInput::B255 { .. } => 1,
        }
    }

    pub fn start_accumulator(&self) -> (r: ChainAccumulator)
        ensures
            r == self.from(),
    {
        match self {
            HistoryStepFreezeInput::B25 { start, .. } => *start,
            HistoryStepFreezeInput::B255 { start, .. } => *start,
        }
    }

    pub fn end_accumulator(&self) -> (r: ChainAccumulator)
        ensures
            r == self.to(),
    {
        match self {
            HistoryStepFreezeInput::B25 { end, .. } => *end,
            HistoryStepFreezeInput::B255 { end, .. } => *end,
        }
    }
}

/// A resettable stream of witnesses.
pub trait HistoryStepFreezeInputProvider {
    type Error;

    fn reset_backbone(&mut self) -> Result<(), Self::Error>;

    fn next_backbone(&mut self, expected_start: &ChainAccumulator) -> Result<
        Option<HistoryStepFreezeInput>,
        Self::Error,
    >;

    fn b25(&mut self, class: usize, expected_start: &ChainAccumulator) -> Result<
        HistoryStepFreezeInput,
        Self::Error,
    >;

    fn b255(&mut self, class: usize, expected_start: &ChainAccumulator) -> Result<
        HistoryStepFreezeInput,
        Self::Error,
    >;
}

/// What was under way.
#[derive(Clone, Copy, Debug, PartialEq, Eq, Structural)]
pub enum HistoryStepFreezeStage {
    ProvisionalDirectBlockVk,
    ProvisionalRuntimeParts,
    BootstrapRuntime,
    BootstrapProve,
    BootstrapAssemble,
    BootstrapReplaceDirectBlockVk,
    CandidateRuntime,
    CandidateBackbone,
    CandidateClass,
    FinalBank,
    FinalRuntime,
    FinalBackbone,
    FinalClass,
}

/// Why freezing stopped.
#[derive(Debug, PartialEq, Eq)]
pub enum HistoryStepFreezeError<ProviderError, StoreError> {
    Provider(ProviderError),
    Store(StoreError),
    Relation {
        stage: HistoryStepFreezeStage,
        class: Option<usize>,
        source: HistoryStepError,
    },
    Backbone,
    ParentVk,
    DirectBlockVk(usize),
    MatrixDigest(usize),
}

/// The runtime material of a bank: the digests of its keys.
#[derive(Clone, Copy, Debug, PartialEq, Eq)]
pub struct HistoryStepRuntimeParts {
    pub parent_recursion_vk: [u8; 32],
    pub direct_block_vks: PerTier<[u8; 32]>,
}

/// A bank: the digest of every class matrix.
#[derive(Clone, Copy, Debug, PartialEq, Eq)]
pub struct PinnedHistoryStepClassBank {
    pub digests: PerTier<[u8; 32]>,
}

/// A final bank with its runtime material.
#[derive(Clone, Copy, Debug, PartialEq, Eq)]
pub struct FrozenHistoryStepBank {
    pub bank: PinnedHistoryStepClassBank,
    pub parts: HistoryStepRuntimeParts,
}

impl FrozenHistoryStepBank {
    pub fn bank(&self) -> (r: &PinnedHistoryStepClassBank)
        ensures
            *r == self.bank,
    {
        &self.bank
    }

    pub fn parts(&self) -> (r: &HistoryStepRuntimeParts)
        ensures
            *r == self.parts,
    {
        &self.parts
    }

    pub fn into_parts(self) -> (r: (PinnedHistoryStepClassBank, HistoryStepRuntimeParts))
        ensures
            r == (self.bank, self.parts),
    {
        (self.bank, self.parts)
    }
}

/// An assembled class: its class, keys, matrix digest and rows.
#[derive(Clone, Copy, Debug, PartialEq, Eq)]
pub struct BuiltClass {
    pub class: usize,
    pub parent_recursion_vk: [u8; 32],
    pub direct_block_vk: [u8; 32],
    pub digest: [u8; 32],
    pub useful_rows: usize,
}

/// A proven terminal: its tier and its accumulator.
#[derive(Clone, Copy, Debug, PartialEq, Eq)]
pub struct ProvenStep {
    pub slot: usize,
    pub accumulator: ChainAccumulator,
}

/// What to do next.
#[allow(inconsistent_fields)]
#[derive(Debug, PartialEq, Eq)]
pub enum FreezeAction<ProviderError, StoreError> {
    ResetBackbone,
    NextBackbone { expected: ChainAccumulator },
    /// Derive the direct key of the last witness.
    DeriveDirectBlockVk { slot: usize },
    DeriveRuntimeParts { vks: PerTier<[u8; 32]> },
    /// Open a runtime over matrices with these digests, zero for a class that
    /// is not known yet; proofs start anew.
    OpenRuntime { digests: PerTier<Option<[u8; 32]>>, parts: HistoryStepRuntimeParts },
    /// Prove the last witness on the tip; the result becomes the tip.
    Prove { slot: usize },
    /// Assemble the class of the last witness on the tip.
    Assemble { class: usize },
    /// Assemble a class from a fresh witness on the last terminal proven of a
    /// tier.
    AssembleFrom { class: usize, parent: usize, start: ChainAccumulator },
    /// Store the first matrix assembled for a class, of so many useful rows. In
    /// the last pass the class is final once it is stored: announce it.
    Install { class: usize, rows: usize, last: bool },
    ReplaceDirectBlockVk { slot: usize, vk: [u8; 32] },
    PinBank { digests: PerTier<[u8; 32]> },
    Finish(FrozenHistoryStepBank),
    Fail(HistoryStepFreezeError<ProviderError, StoreError>),
}

/// What came of an action.
#[derive(Debug, PartialEq, Eq)]
pub enum FreezeEvent<ProviderError, StoreError> {
    Done,
    Backbone(Option<HistoryStepFreezeInput>),
    DirectBlockVk([u8; 32]),
    /// The material that was derived, or what a key replacement made of it.
    RuntimeParts(HistoryStepRuntimeParts),
    Proven(ProvenStep),
    Built(BuiltClass),
    ProviderFailed(ProviderError),
    StoreFailed(StoreError),
    RelationFailed(HistoryStepError),
}

/// Where freezing stands: what the last action was for.
#[derive(Clone, Copy, Debug, PartialEq, Eq, Structural)]
pub enum FreezeAt {
    ProvisionalReset,
    ProvisionalNext,
    ProvisionalVk { slot: usize },
    ProvisionalRewind,
    ProvisionalParts,
    BootstrapOpen,
    BootstrapReset,
    BootstrapNext,
    BootstrapProve { slot: usize },
    BootstrapAssemble { slot: usize },
    BootstrapInstall { slot: usize, changed: bool },
    BootstrapReplace { slot: usize },
    CandidateOpen,
    WalkReset,
    WalkNext,
    WalkProve { slot: usize },
    ClassBuild { class: usize },
    ClassRebuild { class: usize },
    ClassInstall { class: usize },
    FinalPin,
    FinalOpen,
    Ended,
}

/// The state of freezing.
#[derive(Clone, Copy, Debug, PartialEq, Eq)]
pub struct HistoryStepFreezer {
    pub at: FreezeAt,
    pub genesis: ChainAccumulator,
    /// The accumulator that the next witness must start from.
    pub expected: ChainAccumulator,
    pub vks: PerTier<Option<[u8; 32]>>,
    pub parts: HistoryStepRuntimeParts,
    /// Whether keys are settled.
    pub stable: bool,
    pub passes: usize,
    /// The matrix digests of the classes known under the present keys.
    pub digests: PerTier<Option<[u8; 32]>>,
    pub actualized: PerTier<bool>,
    pub built: BuiltClass,
    /// Whether the last pass is under way.
    pub last: bool,
    pub tip: Option<ProvenStep>,
    pub checkpoints: PerTier<Option<ChainAccumulator>>,
    pub candidate: PerTier<[u8; 32]>,
    pub finals: PerTier<[u8; 32]>,
}

// ---------------------------------------------------------------------------
// Decisions
// ---------------------------------------------------------------------------

/// Two accumulators are the same.
pub open spec fn same_accumulator(a: ChainAccumulator, b: ChainAccumulator) -> bool {
    &&& a.height == b.height
    &&& a.tip_semantic_id@ == b.tip_semantic_id@
    &&& a.state_root@ == b.state_root@
    &&& a.log_slots == b.log_slots
    &&& a.active_slot_count == b.active_slot_count
    &&& a.alloc_counter == b.alloc_counter
    &&& a.epoch_anchor_id@ == b.epoch_anchor_id@
}

pub open spec fn no_digests() -> PerTier<Option<[u8; 32]>> {
    PerTier { b25: None, b255: None }
}

/// A known digest is the given one.
pub open spec fn digest_is(known: Option<[u8; 32]>, digest: [u8; 32]) -> bool {
    known is Some && known->Some_0@ == digest@
}

pub open spec fn both(p: PerTier<bool>) -> bool {
    p.b25 && p.b255
}

/// Passes that a phase may take.
pub open spec fn pass_budget(stable: bool) -> usize {
    if stable {
        STABLE_PASSES
    } else {
        PROVISIONAL_PASSES
    }
}

/// What a relation failure is reported as.
pub open spec fn relation_stage(at: FreezeAt, last: bool) -> Option<
    (HistoryStepFreezeStage, Option<usize>),
> {
    match at {
        FreezeAt::ProvisionalVk { slot } => Some(
            (HistoryStepFreezeStage::ProvisionalDirectBlockVk, Some(slot)),
        ),
        FreezeAt::ProvisionalParts => Some(
            (HistoryStepFreezeStage::ProvisionalRuntimeParts, None),
        ),
        FreezeAt::BootstrapOpen => Some((HistoryStepFreezeStage::BootstrapRuntime, None)),
        FreezeAt::BootstrapProve { slot } => Some(
            (HistoryStepFreezeStage::BootstrapProve, Some(slot)),
        ),
        FreezeAt::BootstrapAssemble { slot } => Some(
            (HistoryStepFreezeStage::BootstrapAssemble, Some(slot)),
        ),
        FreezeAt::BootstrapReplace { slot } => Some(
            (HistoryStepFreezeStage::BootstrapReplaceDirectBlockVk, Some(slot)),
        ),
        FreezeAt::CandidateOpen => Some((HistoryStepFreezeStage::CandidateRuntime, None)),
        FreezeAt::WalkProve { slot } => Some(
            (
                if last {
                    HistoryStepFreezeStage::FinalBackbone
                } else {
                    HistoryStepFreezeStage::CandidateBackbone
                },
                Some(slot),
            ),
        ),
        FreezeAt::ClassBuild { class } => Some(
            (
                if last {
                    HistoryStepFreezeStage::FinalClass
                } else {
                    HistoryStepFreezeStage::CandidateClass
                },
                Some(class),
            ),
        ),
        FreezeAt::ClassRebuild { class } => Some(
            (
                if last {
                    HistoryStepFreezeStage::FinalClass
                } else {
                    HistoryStepFreezeStage::CandidateClass
                },
                Some(class),
            ),
        ),
        FreezeAt::FinalPin => Some((HistoryStepFreezeStage::FinalBank, None)),
        FreezeAt::FinalOpen => Some((HistoryStepFreezeStage::FinalRuntime, None)),
        _ => None,
    }
}

pub open spec fn failed<P, S>(s: HistoryStepFreezer, e: HistoryStepFreezeError<P, S>) -> (
    HistoryStepFreezer,
    FreezeAction<P, S>,
) {
    (HistoryStepFreezer { at: FreezeAt::Ended, ..s }, FreezeAction::Fail(e))
}

/// The next witness of the backbone.
pub open spec fn next_witness<P, S>(s: HistoryStepFreezer, at: FreezeAt) -> (
    HistoryStepFreezer,
    FreezeAction<P, S>,
) {
    (HistoryStepFreezer { at, ..s }, FreezeAction::NextBackbone { expected: s.expected })
}

/// A discovery pass, or the end of the phase where its passes are used up.
pub open spec fn begin_pass<P, S>(s: HistoryStepFreezer) -> (
    HistoryStepFreezer,
    FreezeAction<P, S>,
) {
    if s.passes < pass_budget(s.stable) {
        (
            HistoryStepFreezer {
                at: FreezeAt::BootstrapOpen,
                passes: (s.passes + 1) as usize,
                ..s
            },
            FreezeAction::OpenRuntime { digests: s.digests, parts: s.parts },
        )
    } else {
        end_phase(s)
    }
}

/// A discovery phase from nothing.
pub open spec fn begin_phase<P, S>(s: HistoryStepFreezer, stable: bool) -> (
    HistoryStepFreezer,
    FreezeAction<P, S>,
) {
    (
        HistoryStepFreezer {
            at: FreezeAt::BootstrapOpen,
            passes: 1,
            stable,
            digests: no_digests(),
            ..s
        },
        FreezeAction::OpenRuntime { digests: no_digests(), parts: s.parts },
    )
}

/// After a phase: the phase under settled keys, then the candidate, which needs
/// both classes known.
pub open spec fn end_phase<P, S>(s: HistoryStepFreezer) -> (
    HistoryStepFreezer,
    FreezeAction<P, S>,
) {
    if !s.stable {
        begin_phase(s, true)
    } else if s.digests.b25 is Some && s.digests.b255 is Some {
        (
            HistoryStepFreezer { at: FreezeAt::CandidateOpen, ..s },
            FreezeAction::OpenRuntime { digests: s.digests, parts: s.parts },
        )
    } else {
        failed(s, HistoryStepFreezeError::Backbone)
    }
}

/// After a pass: keys are settled once every tier has shown its own.
pub open spec fn end_pass<P, S>(s: HistoryStepFreezer, discovered: bool) -> (
    HistoryStepFreezer,
    FreezeAction<P, S>,
) {
    if !s.stable && both(s.actualized) {
        begin_phase(s, true)
    } else if !discovered {
        end_phase(s)
    } else {
        begin_pass(s)
    }
}

/// A witness came.
pub open spec fn on_backbone<P, S>(
    s: HistoryStepFreezer,
    input: Option<HistoryStepFreezeInput>,
) -> (HistoryStepFreezer, FreezeAction<P, S>) {
    match input {
        Some(i) => if !same_accumulator(i.from(), s.expected) {
            failed(s, HistoryStepFreezeError::Backbone)
        } else {
            let slot = i.slot() as usize;
            match s.at {
                FreezeAt::ProvisionalNext => {
                    let t = HistoryStepFreezer { expected: i.to(), ..s };
                    if s.vks.get(slot as int) is None {
                        (
                            HistoryStepFreezer { at: FreezeAt::ProvisionalVk { slot }, ..t },
                            FreezeAction::DeriveDirectBlockVk { slot },
                        )
                    } else {
                        next_witness(t, FreezeAt::ProvisionalNext)
                    }
                },
                FreezeAt::BootstrapNext => if s.digests.get(slot as int) is Some {
                    (
                        HistoryStepFreezer { at: FreezeAt::BootstrapProve { slot }, ..s },
                        FreezeAction::Prove { slot },
                    )
                } else {
                    (
                        HistoryStepFreezer { at: FreezeAt::BootstrapAssemble { slot }, ..s },
                        FreezeAction::Assemble { class: slot },
                    )
                },
                FreezeAt::WalkNext => (
                    HistoryStepFreezer { at: FreezeAt::WalkProve { slot }, ..s },
                    FreezeAction::Prove { slot },
                ),
                _ => failed(s, HistoryStepFreezeError::Backbone),
            }
        },
        None => match s.at {
            FreezeAt::BootstrapNext => end_pass(s, false),
            FreezeAt::WalkNext => match s.tip {
                Some(t) => {
                    let c = s.checkpoints.set(t.slot as int, Some(t.accumulator));
                    match (c.b25, c.b255) {
                        (Some(first), Some(_)) => (
                            HistoryStepFreezer {
                                at: FreezeAt::ClassBuild { class: 0 },
                                checkpoints: c,
                                ..s
                            },
                            FreezeAction::AssembleFrom { class: 0, parent: 0, start: first },
                        ),
                        _ => failed(s, HistoryStepFreezeError::Backbone),
                    }
                },
                None => failed(s, HistoryStepFreezeError::Backbone),
            },
            _ => failed(s, HistoryStepFreezeError::Backbone),
        },
    }
}

/// A terminal was proven.
pub open spec fn on_proven<P, S>(s: HistoryStepFreezer, t: ProvenStep) -> (
    HistoryStepFreezer,
    FreezeAction<P, S>,
) {
    match s.at {
        FreezeAt::BootstrapProve { slot } => next_witness(
            HistoryStepFreezer { expected: t.accumulator, ..s },
            FreezeAt::BootstrapNext,
        ),
        FreezeAt::WalkProve { slot } => if t.slot != slot {
            failed(s, HistoryStepFreezeError::Backbone)
        } else {
            let u = HistoryStepFreezer { expected: t.accumulator, tip: Some(t), ..s };
            match s.tip {
                Some(prev) => if slot < prev.slot {
                    failed(s, HistoryStepFreezeError::Backbone)
                } else if slot > prev.slot {
                    next_witness(
                        HistoryStepFreezer {
                            checkpoints: s.checkpoints.set(
                                prev.slot as int,
                                Some(prev.accumulator),
                            ),
                            ..u
                        },
                        FreezeAt::WalkNext,
                    )
                } else {
                    next_witness(u, FreezeAt::WalkNext)
                },
                None => next_witness(u, FreezeAt::WalkNext),
            }
        },
        _ => failed(s, HistoryStepFreezeError::Backbone),
    }
}

/// A class has the keys of the bank.
pub open spec fn keys_hold(parts: HistoryStepRuntimeParts, x: BuiltClass, class: usize) -> bool {
    &&& x.class == class
    &&& x.parent_recursion_vk@ == parts.parent_recursion_vk@
    &&& x.direct_block_vk@ == parts.direct_block_vks.get(class as int)@
}

/// A class was assembled.
pub open spec fn on_built<P, S>(s: HistoryStepFreezer, x: BuiltClass) -> (
    HistoryStepFreezer,
    FreezeAction<P, S>,
) {
    match s.at {
        FreezeAt::BootstrapAssemble { slot } => if x.class != slot || x.parent_recursion_vk@
            != s.parts.parent_recursion_vk@ {
            failed(s, HistoryStepFreezeError::ParentVk)
        } else {
            (
                HistoryStepFreezer {
                    at: FreezeAt::BootstrapInstall {
                        slot,
                        changed: x.direct_block_vk@ != s.parts.direct_block_vks.get(slot as int)@,
                    },
                    built: x,
                    ..s
                },
                FreezeAction::Install { class: slot, rows: x.useful_rows, last: false },
            )
        },
        FreezeAt::ClassBuild { class } => if x.parent_recursion_vk@
            != s.parts.parent_recursion_vk@ {
            failed(s, HistoryStepFreezeError::ParentVk)
        } else if !keys_hold(s.parts, x, class) {
            failed(s, HistoryStepFreezeError::DirectBlockVk(class))
        } else {
            match s.checkpoints.b255 {
                Some(second) => (
                    HistoryStepFreezer { at: FreezeAt::ClassRebuild { class }, built: x, ..s },
                    FreezeAction::AssembleFrom { class, parent: 1, start: second },
                ),
                None => failed(s, HistoryStepFreezeError::Backbone),
            }
        },
        FreezeAt::ClassRebuild { class } => if !keys_hold(s.parts, x, class) {
            failed(s, HistoryStepFreezeError::ParentVk)
        } else if x.useful_rows != s.built.useful_rows || x.digest@ != s.built.digest@ || (s.last
            && s.candidate.get(class as int)@ != s.built.digest@) {
            failed(s, HistoryStepFreezeError::MatrixDigest(class))
        } else {
            (
                HistoryStepFreezer { at: FreezeAt::ClassInstall { class }, ..s },
                FreezeAction::Install { class, rows: s.built.useful_rows, last: s.last },
            )
        },
        _ => failed(s, HistoryStepFreezeError::Backbone),
    }
}

/// A class was stored during the candidate or the last pass.
pub open spec fn on_class_stored<P, S>(s: HistoryStepFreezer, class: usize) -> (
    HistoryStepFreezer,
    FreezeAction<P, S>,
) {
    let t = if s.last {
        HistoryStepFreezer { finals: s.finals.set(class as int, s.built.digest), ..s }
    } else {
        HistoryStepFreezer { candidate: s.candidate.set(class as int, s.built.digest), ..s }
    };
    if class == 0 {
        match s.checkpoints.b25 {
            Some(first) => (
                HistoryStepFreezer { at: FreezeAt::ClassBuild { class: 1 }, ..t },
                FreezeAction::AssembleFrom { class: 1, parent: 0, start: first },
            ),
            None => failed(t, HistoryStepFreezeError::Backbone),
        }
    } else if s.last {
        (
            HistoryStepFreezer { at: FreezeAt::Ended, ..t },
            FreezeAction::Finish(
                FrozenHistoryStepBank {
                    bank: PinnedHistoryStepClassBank { digests: t.candidate },
                    parts: t.parts,
                },
            ),
        )
    } else if !digest_is(t.digests.b25, t.candidate.b25) {
        failed(t, HistoryStepFreezeError::MatrixDigest(0))
    } else if !digest_is(t.digests.b255, t.candidate.b255) {
        failed(t, HistoryStepFreezeError::MatrixDigest(1))
    } else {
        (
            HistoryStepFreezer { at: FreezeAt::FinalPin, ..t },
            FreezeAction::PinBank { digests: t.candidate },
        )
    }
}

/// An action without a result was done.
pub open spec fn on_done<P, S>(s: HistoryStepFreezer) -> (HistoryStepFreezer, FreezeAction<P, S>) {
    match s.at {
        FreezeAt::ProvisionalReset => next_witness(
            HistoryStepFreezer {
                expected: s.genesis,
                vks: PerTier { b25: None, b255: None },
                ..s
            },
            FreezeAt::ProvisionalNext,
        ),
        FreezeAt::ProvisionalRewind => match (s.vks.b25, s.vks.b255) {
            (Some(b25), Some(b255)) => (
                HistoryStepFreezer { at: FreezeAt::ProvisionalParts, ..s },
                FreezeAction::DeriveRuntimeParts { vks: PerTier { b25, b255 } },
            ),
            _ => failed(s, HistoryStepFreezeError::Backbone),
        },
        FreezeAt::BootstrapOpen => (
            HistoryStepFreezer { at: FreezeAt::BootstrapReset, ..s },
            FreezeAction::ResetBackbone,
        ),
        FreezeAt::BootstrapReset => next_witness(
            HistoryStepFreezer { expected: s.genesis, ..s },
            FreezeAt::BootstrapNext,
        ),
        FreezeAt::BootstrapInstall { slot, changed } => if changed {
            if s.stable {
                failed(s, HistoryStepFreezeError::DirectBlockVk(slot))
            } else {
                (
                    HistoryStepFreezer { at: FreezeAt::BootstrapReplace { slot }, ..s },
                    FreezeAction::ReplaceDirectBlockVk { slot, vk: s.built.direct_block_vk },
                )
            }
        } else {
            end_pass(
                HistoryStepFreezer {
                    digests: s.digests.set(slot as int, Some(s.built.digest)),
                    actualized: s.actualized.set(slot as int, true),
                    ..s
                },
                true,
            )
        },
        FreezeAt::CandidateOpen => (
            HistoryStepFreezer { at: FreezeAt::WalkReset, last: false, ..s },
            FreezeAction::ResetBackbone,
        ),
        FreezeAt::WalkReset => next_witness(
            HistoryStepFreezer {
                expected: s.genesis,
                tip: None,
                checkpoints: PerTier { b25: None, b255: None },
                ..s
            },
            FreezeAt::WalkNext,
        ),
        FreezeAt::ClassInstall { class } => on_class_stored(s, class),
        FreezeAt::FinalPin => (
            HistoryStepFreezer { at: FreezeAt::FinalOpen, ..s },
            FreezeAction::OpenRuntime {
                digests: PerTier { b25: Some(s.candidate.b25), b255: Some(s.candidate.b255) },
                parts: s.parts,
            },
        ),
        FreezeAt::FinalOpen => (
            HistoryStepFreezer { at: FreezeAt::WalkReset, last: true, ..s },
            FreezeAction::ResetBackbone,
        ),
        _ => failed(s, HistoryStepFreezeError::Backbone),
    }
}

/// What to do after an event. An event that answers nothing that was asked
/// ends freezing.
pub open spec fn next<P, S>(s: HistoryStepFreezer, e: FreezeEvent<P, S>) -> (
    HistoryStepFreezer,
    FreezeAction<P, S>,
) {
    match e {
        FreezeEvent::Done => on_done(s),
        FreezeEvent::Backbone(i) => on_backbone(s, i),
        FreezeEvent::DirectBlockVk(v) => match s.at {
            FreezeAt::ProvisionalVk { slot } => {
                let t = HistoryStepFreezer { vks: s.vks.set(slot as int, Some(v)), ..s };
                if t.vks.b25 is Some && t.vks.b255 is Some {
                    (
                        HistoryStepFreezer { at: FreezeAt::ProvisionalRewind, ..t },
                        FreezeAction::ResetBackbone,
                    )
                } else {
                    next_witness(t, FreezeAt::ProvisionalNext)
                }
            },
            _ => failed(s, HistoryStepFreezeError::Backbone),
        },
        FreezeEvent::RuntimeParts(p) => match s.at {
            FreezeAt::ProvisionalParts => begin_phase(
                HistoryStepFreezer { parts: p, ..s },
                false,
            ),
            FreezeAt::BootstrapReplace { slot } => end_pass(
                HistoryStepFreezer {
                    parts: p,
                    digests: no_digests(),
                    actualized: s.actualized.set(slot as int, true),
                    ..s
                },
                true,
            ),
            _ => failed(s, HistoryStepFreezeError::Backbone),
        },
        FreezeEvent::Proven(t) => on_proven(s, t),
        FreezeEvent::Built(x) => on_built(s, x),
        FreezeEvent::ProviderFailed(p) => failed(s, HistoryStepFreezeError::Provider(p)),
        FreezeEvent::StoreFailed(x) => failed(s, HistoryStepFreezeError::Store(x)),
        FreezeEvent::RelationFailed(source) => match relation_stage(s.at, s.last) {
            Some((stage, class)) => failed(
                s,
                HistoryStepFreezeError::Relation { stage, class, source },
            ),
            None => failed(s, HistoryStepFreezeError::Backbone),
        },
    }
}

// ---------------------------------------------------------------------------
// The freezer
// ---------------------------------------------------------------------------

/// Two digests are the same.
fn same_bytes(a: &[u8; 32], b: &[u8; 32]) -> (r: bool)
    ensures
        r <==> a@ == b@,
{
    let mut i: usize = 0;
    while i < 32
        invariant
            i <= 32,
            forall|j: int| 0 <= j < i ==> a@[j] == b@[j],
        decreases 32 - i,
    {
        if a[i] != b[i] {
            assert(a@[i as int] != b@[i as int]);
            return false;
        }
        i += 1;
    }
    assert(a@ =~= b@);
    true
}

fn accumulators_agree(a: &ChainAccumulator, b: &ChainAccumulator) -> (r: bool)
    ensures
        r <==> same_accumulator(*a, *b),
{
    a.height == b.height && same_bytes(&a.tip_semantic_id, &b.tip_semantic_id) && same_bytes(
        &a.state_root,
        &b.state_root,
    ) && a.log_slots == b.log_slots && a.active_slot_count == b.active_slot_count
        && a.alloc_counter == b.alloc_counter && same_bytes(&a.epoch_anchor_id, &b.epoch_anchor_id)
}

fn keys_agree(parts: &HistoryStepRuntimeParts, x: &BuiltClass, class: usize) -> (r: bool)
    ensures
        r <==> keys_hold(*parts, *x, class),
{
    let direct = parts.direct_block_vks.at(class);
    x.class == class && same_bytes(&x.parent_recursion_vk, &parts.parent_recursion_vk)
        && same_bytes(&x.direct_block_vk, &direct)
}

fn known_is(known: &Option<[u8; 32]>, digest: &[u8; 32]) -> (r: bool)
    ensures
        r <==> digest_is(*known, *digest),
{
    match known {
        Some(d) => same_bytes(d, digest),
        None => false,
    }
}

fn stage_of(at: FreezeAt, last: bool) -> (r: Option<(HistoryStepFreezeStage, Option<usize>)>)
    ensures
        r == relation_stage(at, last),
{
    match at {
        FreezeAt::ProvisionalVk { slot } => Some(
            (HistoryStepFreezeStage::ProvisionalDirectBlockVk, Some(slot)),
        ),
        FreezeAt::ProvisionalParts => Some(
            (HistoryStepFreezeStage::ProvisionalRuntimeParts, None),
        ),
        FreezeAt::BootstrapOpen => Some((HistoryStepFreezeStage::BootstrapRuntime, None)),
        FreezeAt::BootstrapProve { slot } => Some(
            (HistoryStepFreezeStage::BootstrapProve, Some(slot)),
        ),
        FreezeAt::BootstrapAssemble { slot } => Some(
            (HistoryStepFreezeStage::BootstrapAssemble, Some(slot)),
        ),
        FreezeAt::BootstrapReplace { slot } => Some(
            (HistoryStepFreezeStage::BootstrapReplaceDirectBlockVk, Some(slot)),
        ),
        FreezeAt::CandidateOpen => Some((HistoryStepFreezeStage::CandidateRuntime, None)),
        FreezeAt::WalkProve { slot } => {
            let stage = if last {
                HistoryStepFreezeStage::FinalBackbone
            } else {
                HistoryStepFreezeStage::CandidateBackbone
            };
            Some((stage, Some(slot)))
        },
        FreezeAt::ClassBuild { class } => {
            let stage = if last {
                HistoryStepFreezeStage::FinalClass
            } else {
                HistoryStepFreezeStage::CandidateClass
            };
            Some((stage, Some(class)))
        },
        FreezeAt::ClassRebuild { class } => {
            let stage = if last {
                HistoryStepFreezeStage::FinalClass
            } else {
                HistoryStepFreezeStage::CandidateClass
            };
            Some((stage, Some(class)))
        },
        FreezeAt::FinalPin => Some((HistoryStepFreezeStage::FinalBank, None)),
        FreezeAt::FinalOpen => Some((HistoryStepFreezeStage::FinalRuntime, None)),
        _ => None,
    }
}

impl HistoryStepFreezer {
    /// Freezing from a genesis accumulator. The first action is to reset the
    /// backbone.
    pub fn new<P, S>(genesis: ChainAccumulator) -> (r: (HistoryStepFreezer, FreezeAction<P, S>))
        ensures
            r.0.at == FreezeAt::ProvisionalReset,
            r.0.genesis == genesis,
            !r.0.stable,
            !r.0.last,
            r.0.actualized == (PerTier { b25: false, b255: false }),
            r.1 == FreezeAction::<P, S>::ResetBackbone,
            invariant_holds(r.0),
    {
        let zero: [u8; 32] = [0u8;32];
        let none: PerTier<[u8; 32]> = PerTier { b25: zero, b255: zero };
        let s = HistoryStepFreezer {
            at: FreezeAt::ProvisionalReset,
            genesis,
            expected: genesis,
            vks: PerTier { b25: None, b255: None },
            parts: HistoryStepRuntimeParts { parent_recursion_vk: zero, direct_block_vks: none },
            stable: false,
            passes: 0,
            digests: PerTier { b25: None, b255: None },
            actualized: PerTier { b25: false, b255: false },
            built: BuiltClass {
                class: 0,
                parent_recursion_vk: zero,
                direct_block_vk: zero,
                digest: zero,
                useful_rows: 0,
            },
            last: false,
            tip: None,
            checkpoints: PerTier { b25: None, b255: None },
            candidate: none,
            finals: none,
        };
        (s, FreezeAction::ResetBackbone)
    }

    fn fail<P, S>(&mut self, e: HistoryStepFreezeError<P, S>) -> (r: FreezeAction<P, S>)
        ensures
            (*final(self), r) == failed(*old(self), e),
    {
        self.at = FreezeAt::Ended;
        FreezeAction::Fail(e)
    }

    fn witness<P, S>(&mut self, at: FreezeAt) -> (r: FreezeAction<P, S>)
        ensures
            (*final(self), r) == next_witness::<P, S>(*old(self), at),
    {
        self.at = at;
        FreezeAction::NextBackbone { expected: self.expected }
    }

    fn open_phase<P, S>(&mut self, stable: bool) -> (r: FreezeAction<P, S>)
        ensures
            (*final(self), r) == begin_phase::<P, S>(*old(self), stable),
    {
        self.at = FreezeAt::BootstrapOpen;
        self.passes = 1;
        self.stable = stable;
        self.digests = PerTier { b25: None, b255: None };
        FreezeAction::OpenRuntime { digests: self.digests, parts: self.parts }
    }

    fn close_phase<P, S>(&mut self) -> (r: FreezeAction<P, S>)
        ensures
            (*final(self), r) == end_phase::<P, S>(*old(self)),
    {
        if !self.stable {
            self.open_phase(true)
        } else if self.digests.b25.is_some() && self.digests.b255.is_some() {
            self.at = FreezeAt::CandidateOpen;
            FreezeAction::OpenRuntime { digests: self.digests, parts: self.parts }
        } else {
            self.fail(HistoryStepFreezeError::Backbone)
        }
    }

    fn close_pass<P, S>(&mut self, discovered: bool) -> (r: FreezeAction<P, S>)
        ensures
            (*final(self), r) == end_pass::<P, S>(*old(self), discovered),
    {
        let budget: usize = if self.stable {
            STABLE_PASSES
        } else {
            PROVISIONAL_PASSES
        };
        if !self.stable && self.actualized.b25 && self.actualized.b255 {
            self.open_phase(true)
        } else if !discovered || self.passes >= budget {
            self.close_phase()
        } else {
            self.at = FreezeAt::BootstrapOpen;
            self.passes = self.passes + 1;
            FreezeAction::OpenRuntime { digests: self.digests, parts: self.parts }
        }
    }

    fn witness_came<P, S>(&mut self, input: Option<HistoryStepFreezeInput>) -> (r: FreezeAction<
        P,
        S,
    >)
        ensures
            (*final(self), r) == on_backbone::<P, S>(*old(self), input),
    {
        match input {
            Some(i) => {
                if !accumulators_agree(&i.start_accumulator(), &self.expected) {
                    return self.fail(HistoryStepFreezeError::Backbone);
                }
                let slot: usize = i.current_slot();
                match self.at {
                    FreezeAt::ProvisionalNext => {
                        self.expected = i.end_accumulator();
                        if self.vks.at(slot).is_none() {
                            self.at = FreezeAt::ProvisionalVk { slot };
                            FreezeAction::DeriveDirectBlockVk { slot }
                        } else {
                            self.witness(FreezeAt::ProvisionalNext)
                        }
                    },
                    FreezeAt::BootstrapNext => {
                        if self.digests.at(slot).is_some() {
                            self.at = FreezeAt::BootstrapProve { slot };
                            FreezeAction::Prove { slot }
                        } else {
                            self.at = FreezeAt::BootstrapAssemble { slot };
                            FreezeAction::Assemble { class: slot }
                        }
                    },
                    FreezeAt::WalkNext => {
                        self.at = FreezeAt::WalkProve { slot };
                        FreezeAction::Prove { slot }
                    },
                    _ => self.fail(HistoryStepFreezeError::Backbone),
                }
            },
            None => match self.at {
                FreezeAt::BootstrapNext => self.close_pass(false),
                FreezeAt::WalkNext => match self.tip {
                    Some(t) => {
                        let mut c = self.checkpoints;
                        c.put(t.slot, Some(t.accumulator));
                        match (c.b25, c.b255) {
                            (Some(first), Some(_)) => {
                                self.checkpoints = c;
                                self.at = FreezeAt::ClassBuild { class: 0 };
                                FreezeAction::AssembleFrom { class: 0, parent: 0, start: first }
                            },
                            _ => self.fail(HistoryStepFreezeError::Backbone),
                        }
                    },
                    None => self.fail(HistoryStepFreezeError::Backbone),
                },
                _ => self.fail(HistoryStepFreezeError::Backbone),
            },
        }
    }

    fn proven<P, S>(&mut self, t: ProvenStep) -> (r: FreezeAction<P, S>)
        ensures
            (*final(self), r) == on_proven::<P, S>(*old(self), t),
    {
        match self.at {
            FreezeAt::BootstrapProve { slot: _ } => {
                self.expected = t.accumulator;
                self.witness(FreezeAt::BootstrapNext)
            },
            FreezeAt::WalkProve { slot } => {
                if t.slot != slot {
                    return self.fail(HistoryStepFreezeError::Backbone);
                }
                match self.tip {
                    Some(prev) => {
                        if slot < prev.slot {
                            return self.fail(HistoryStepFreezeError::Backbone);
                        }
                        if slot > prev.slot {
                            self.checkpoints.put(prev.slot, Some(prev.accumulator));
                        }
                    },
                    None => {},
                }
                self.expected = t.accumulator;
                self.tip = Some(t);
                self.witness(FreezeAt::WalkNext)
            },
            _ => self.fail(HistoryStepFreezeError::Backbone),
        }
    }

    fn class_built<P, S>(&mut self, x: BuiltClass) -> (r: FreezeAction<P, S>)
        ensures
            (*final(self), r) == on_built::<P, S>(*old(self), x),
    {
        match self.at {
            FreezeAt::BootstrapAssemble { slot } => {
                if x.class != slot || !same_bytes(
                    &x.parent_recursion_vk,
                    &self.parts.parent_recursion_vk,
                ) {
                    return self.fail(HistoryStepFreezeError::ParentVk);
                }
                let direct = self.parts.direct_block_vks.at(slot);
                let changed = !same_bytes(&x.direct_block_vk, &direct);
                self.built = x;
                self.at = FreezeAt::BootstrapInstall { slot, changed };
                FreezeAction::Install { class: slot, rows: x.useful_rows, last: false }
            },
            FreezeAt::ClassBuild { class } => {
                if !same_bytes(&x.parent_recursion_vk, &self.parts.parent_recursion_vk) {
                    return self.fail(HistoryStepFreezeError::ParentVk);
                }
                if !keys_agree(&self.parts, &x, class) {
                    return self.fail(HistoryStepFreezeError::DirectBlockVk(class));
                }
                match self.checkpoints.b255 {
                    Some(second) => {
                        self.built = x;
                        self.at = FreezeAt::ClassRebuild { class };
                        FreezeAction::AssembleFrom { class, parent: 1, start: second }
                    },
                    None => self.fail(HistoryStepFreezeError::Backbone),
                }
            },
            FreezeAt::ClassRebuild { class } => {
                if !keys_agree(&self.parts, &x, class) {
                    return self.fail(HistoryStepFreezeError::ParentVk);
                }
                let wanted = self.candidate.at(class);
                if x.useful_rows != self.built.useful_rows || !same_bytes(
                    &x.digest,
                    &self.built.digest,
                ) || (self.last && !same_bytes(&wanted, &self.built.digest)) {
                    return self.fail(HistoryStepFreezeError::MatrixDigest(class));
                }
                self.at = FreezeAt::ClassInstall { class };
                FreezeAction::Install { class, rows: self.built.useful_rows, last: self.last }
            },
            _ => self.fail(HistoryStepFreezeError::Backbone),
        }
    }

    fn class_stored<P, S>(&mut self, class: usize) -> (r: FreezeAction<P, S>)
        ensures
            (*final(self), r) == on_class_stored::<P, S>(*old(self), class),
    {
        let digest = self.built.digest;
        if self.last {
            self.finals.put(class, digest);
        } else {
            self.candidate.put(class, digest);
        }
        if class == 0 {
            match self.checkpoints.b25 {
                Some(first) => {
                    self.at = FreezeAt::ClassBuild { class: 1 };
                    FreezeAction::AssembleFrom { class: 1, parent: 0, start: first }
                },
                None => self.fail(HistoryStepFreezeError::Backbone),
            }
        } else if self.last {
            self.at = FreezeAt::Ended;
            FreezeAction::Finish(
                FrozenHistoryStepBank {
                    bank: PinnedHistoryStepClassBank { digests: self.candidate },
                    parts: self.parts,
                },
            )
        } else if !known_is(&self.digests.b25, &self.candidate.b25) {
            self.fail(HistoryStepFreezeError::MatrixDigest(0))
        } else if !known_is(&self.digests.b255, &self.candidate.b255) {
            self.fail(HistoryStepFreezeError::MatrixDigest(1))
        } else {
            self.at = FreezeAt::FinalPin;
            FreezeAction::PinBank { digests: self.candidate }
        }
    }

    fn done<P, S>(&mut self) -> (r: FreezeAction<P, S>)
        ensures
            (*final(self), r) == on_done::<P, S>(*old(self)),
    {
        match self.at {
            FreezeAt::ProvisionalReset => {
                self.expected = self.genesis;
                self.vks = PerTier { b25: None, b255: None };
                self.witness(FreezeAt::ProvisionalNext)
            },
            FreezeAt::ProvisionalRewind => match (self.vks.b25, self.vks.b255) {
                (Some(b25), Some(b255)) => {
                    self.at = FreezeAt::ProvisionalParts;
                    FreezeAction::DeriveRuntimeParts { vks: PerTier { b25, b255 } }
                },
                _ => self.fail(HistoryStepFreezeError::Backbone),
            },
            FreezeAt::BootstrapOpen => {
                self.at = FreezeAt::BootstrapReset;
                FreezeAction::ResetBackbone
            },
            FreezeAt::BootstrapReset => {
                self.expected = self.genesis;
                self.witness(FreezeAt::BootstrapNext)
            },
            FreezeAt::BootstrapInstall { slot, changed } => {
                if changed {
                    if self.stable {
                        self.fail(HistoryStepFreezeError::DirectBlockVk(slot))
                    } else {
                        self.at = FreezeAt::BootstrapReplace { slot };
                        FreezeAction::ReplaceDirectBlockVk { slot, vk: self.built.direct_block_vk }
                    }
                } else {
                    let digest = self.built.digest;
                    self.digests.put(slot, Some(digest));
                    self.actualized.put(slot, true);
                    self.close_pass(true)
                }
            },
            FreezeAt::CandidateOpen => {
                self.at = FreezeAt::WalkReset;
                self.last = false;
                FreezeAction::ResetBackbone
            },
            FreezeAt::WalkReset => {
                self.expected = self.genesis;
                self.tip = None;
                self.checkpoints = PerTier { b25: None, b255: None };
                self.witness(FreezeAt::WalkNext)
            },
            FreezeAt::ClassInstall { class } => self.class_stored(class),
            FreezeAt::FinalPin => {
                self.at = FreezeAt::FinalOpen;
                let digests = PerTier {
                    b25: Some(self.candidate.b25),
                    b255: Some(self.candidate.b255),
                };
                FreezeAction::OpenRuntime { digests, parts: self.parts }
            },
            FreezeAt::FinalOpen => {
                self.at = FreezeAt::WalkReset;
                self.last = true;
                FreezeAction::ResetBackbone
            },
            _ => self.fail(HistoryStepFreezeError::Backbone),
        }
    }

    /// What to do after an event.
    pub fn freeze_history_step_bank<P, S>(&mut self, event: FreezeEvent<P, S>) -> (r: FreezeAction<
        P,
        S,
    >)
        ensures
            (*final(self), r) == next(*old(self), event),
            invariant_holds(*old(self)) ==> invariant_holds(*final(self)) && released(
                *final(self),
                r,
            ),
    {
        let ghost before = *self;
        proof {
            if invariant_holds(before) {
                lemma_next_keeps(before, event);
            }
        }
        match event {
            FreezeEvent::Done => self.done(),
            FreezeEvent::Backbone(i) => self.witness_came(i),
            FreezeEvent::DirectBlockVk(v) => match self.at {
                FreezeAt::ProvisionalVk { slot } => {
                    self.vks.put(slot, Some(v));
                    if self.vks.b25.is_some() && self.vks.b255.is_some() {
                        self.at = FreezeAt::ProvisionalRewind;
                        FreezeAction::ResetBackbone
                    } else {
                        self.witness(FreezeAt::ProvisionalNext)
                    }
                },
                _ => self.fail(HistoryStepFreezeError::Backbone),
            },
            FreezeEvent::RuntimeParts(p) => match self.at {
                FreezeAt::ProvisionalParts => {
                    self.parts = p;
                    self.open_phase(false)
                },
                FreezeAt::BootstrapReplace { slot } => {
                    self.parts = p;
                    self.digests = PerTier { b25: None, b255: None };
                    self.actualized.put(slot, true);
                    self.close_pass(true)
                },
                _ => self.fail(HistoryStepFreezeError::Backbone),
            },
            FreezeEvent::Proven(t) => self.proven(t),
            FreezeEvent::Built(x) => self.class_built(x),
            FreezeEvent::ProviderFailed(p) => self.fail(HistoryStepFreezeError::Provider(p)),
            FreezeEvent::StoreFailed(x) => self.fail(HistoryStepFreezeError::Store(x)),
            FreezeEvent::RelationFailed(source) => match stage_of(self.at, self.last) {
                Some((stage, class)) => self.fail(
                    HistoryStepFreezeError::Relation { stage, class, source },
                ),
                None => self.fail(HistoryStepFreezeError::Backbone),
            },
        }
    }
}

// ---------------------------------------------------------------------------
// What every state keeps
// ---------------------------------------------------------------------------

/// The candidate is what discovery found.
pub open spec fn candidate_agrees(s: HistoryStepFreezer) -> bool {
    digest_is(s.digests.b25, s.candidate.b25) && digest_is(s.digests.b255, s.candidate.b255)
}

/// Discovery is over: both classes are known under settled keys.
pub open spec fn discovered(s: HistoryStepFreezer) -> bool {
    s.stable && s.digests.b25 is Some && s.digests.b255 is Some
}

/// What every state keeps.
pub open spec fn invariant_holds(s: HistoryStepFreezer) -> bool {
    &&& s.last ==> discovered(s) && candidate_agrees(s)
    &&& match s.at {
        FreezeAt::CandidateOpen | FreezeAt::WalkReset | FreezeAt::WalkNext | FreezeAt::WalkProve {
            ..
        } => discovered(s),
        FreezeAt::ClassBuild { class } | FreezeAt::ClassRebuild { class } => discovered(s)
            && class <= 1 && (s.last && class == 1 ==> s.finals.b25@ == s.candidate.b25@) && (
        s.at is ClassRebuild ==> keys_hold(s.parts, s.built, class)),
        FreezeAt::ClassInstall { class } => discovered(s) && class <= 1 && (s.last && class == 1
            ==> s.finals.b25@ == s.candidate.b25@) && (s.last ==> s.built.digest@
            == s.candidate.get(class as int)@) && keys_hold(s.parts, s.built, class),
        FreezeAt::FinalPin | FreezeAt::FinalOpen => discovered(s) && candidate_agrees(s)
            && !s.last,
        FreezeAt::Ended => true,
        FreezeAt::BootstrapReplace { .. } => !s.stable && !s.last,
        _ => !s.last,
    }
}

/// A released bank: its digests are those discovered under settled keys and
/// those of the last pass, and its keys are the settled ones.
pub open spec fn released<P, S>(s: HistoryStepFreezer, a: FreezeAction<P, S>) -> bool {
    a is Finish ==> {
        let f = a->Finish_0;
        &&& discovered(s)
        &&& f.parts == s.parts
        &&& f.bank.digests == s.candidate
        &&& digest_is(s.digests.b25, f.bank.digests.b25)
        &&& digest_is(s.digests.b255, f.bank.digests.b255)
        &&& s.finals.b25@ == f.bank.digests.b25@
        &&& s.finals.b255@ == f.bank.digests.b255@
    }
}

/// Every step keeps the invariant, and a bank is released only where discovery,
/// the candidate and the last pass agree on every digest.
pub proof fn lemma_next_keeps<P, S>(s: HistoryStepFreezer, e: FreezeEvent<P, S>)
    requires
        invariant_holds(s),
    ensures
        invariant_holds(next(s, e).0),
        released(next(s, e).0, next(s, e).1),
{
}

/// Settled keys stay settled: no step changes them.
pub proof fn lemma_keys_settled<P, S>(s: HistoryStepFreezer, e: FreezeEvent<P, S>)
    requires
        invariant_holds(s),
        s.stable,
        !(s.at is ProvisionalParts),
    ensures
        next(s, e).0.stable,
        next(s, e).0.parts == s.parts,
{
}

/// The state and the actions after events, from a state that has asked for the
/// backbone to be reset.
pub open spec fn freeze_run<P, S>(start: HistoryStepFreezer, events: Seq<FreezeEvent<P, S>>) -> (
    HistoryStepFreezer,
    Seq<FreezeAction<P, S>>,
)
    decreases events.len(),
{
    if events.len() == 0 {
        (start, seq![FreezeAction::ResetBackbone])
    } else {
        let (s, actions) = freeze_run(start, events.drop_last());
        let (t, action) = next(s, events.last());
        (t, actions.push(action))
    }
}

/// The classes that actions announce as final, in order.
pub open spec fn announced<P, S>(actions: Seq<FreezeAction<P, S>>) -> Seq<usize>
    decreases actions.len(),
{
    if actions.len() == 0 {
        Seq::empty()
    } else {
        let before = announced(actions.drop_last());
        match actions.last() {
            FreezeAction::Install { class, rows, last: true } => before.push(class),
            _ => before,
        }
    }
}

/// The classes that a state has announced.
pub open spec fn announced_at(s: HistoryStepFreezer, classes: Seq<usize>) -> bool {
    if !s.last {
        classes == Seq::<usize>::empty()
    } else {
        match s.at {
            FreezeAt::WalkReset
            | FreezeAt::WalkNext
            | FreezeAt::WalkProve { .. }
            | FreezeAt::ClassBuild { class: 0 }
            | FreezeAt::ClassRebuild { class: 0 } => classes == Seq::<usize>::empty(),
            FreezeAt::ClassInstall { class: 0 }
            | FreezeAt::ClassBuild { class: 1 }
            | FreezeAt::ClassRebuild { class: 1 } => classes == seq![0usize],
            FreezeAt::ClassInstall { class: 1 } => classes == seq![0usize, 1usize],
            FreezeAt::Ended => classes == Seq::<usize>::empty() || classes == seq![0usize]
                || classes == seq![0usize, 1usize],
            _ => false,
        }
    }
}

proof fn lemma_announced_next<P, S>(
    s: HistoryStepFreezer,
    actions: Seq<FreezeAction<P, S>>,
    e: FreezeEvent<P, S>,
)
    requires
        announced_at(s, announced(actions)),
        s.at is CandidateOpen || s.at is FinalOpen ==> !s.last,
    ensures
        ({
            let (t, a) = next(s, e);
            let classes = announced(actions.push(a));
            &&& announced_at(t, classes)
            &&& t.at is CandidateOpen || t.at is FinalOpen ==> !t.last
            &&& a is Finish ==> classes == seq![0usize, 1usize]
        }),
{
    let (t, a) = next(s, e);
    let before = announced(actions);
    assert(actions.push(a).drop_last() =~= actions);
    assert(Seq::<usize>::empty().push(0) =~= seq![0usize]);
    assert(seq![0usize].push(1) =~= seq![0usize, 1usize]);
}

/// A class is announced as final in the last pass alone, after its matrix of that
/// pass: whoever gets a bank has been told of every class exactly once, in order,
/// and as long as the last pass has not begun none has been announced.
pub proof fn lemma_announced_once<P, S>(
    start: HistoryStepFreezer,
    events: Seq<FreezeEvent<P, S>>,
)
    requires
        start.at is ProvisionalReset,
        !start.last,
    ensures
        ({
            let (s, actions) = freeze_run(start, events);
            &&& announced_at(s, announced(actions))
            &&& s.at is CandidateOpen || s.at is FinalOpen ==> !s.last
            &&& actions.last() is Finish ==> announced(actions) == seq![0usize, 1usize]
            &&& !s.last ==> announced(actions).len() == 0
        }),
    decreases events.len(),
{
    if events.len() > 0 {
        lemma_announced_once(start, events.drop_last());
        let (s, actions) = freeze_run(start, events.drop_last());
        lemma_announced_next(s, actions, events.last());
    } else {
        let actions = seq![FreezeAction::<P, S>::ResetBackbone];
        assert(actions.drop_last() =~= Seq::empty());
        reveal_with_fuel(announced, 2);
    }
}

/// Once freezing has ended, it stays ended.
pub proof fn lemma_ended<P, S>(s: HistoryStepFreezer, e: FreezeEvent<P, S>)
    requires
        s.at is Ended,
    ensures
        next(s, e).0.at is Ended,
        next(s, e).1 is Fail,
{
}

} // verus!
