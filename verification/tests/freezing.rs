use noid_recursive::accepted_claim_batch::ChainAccumulator;
use noid_recursive::freezer::{
    BuiltClass, FreezeAction, FreezeEvent, HistoryStepFreezeError, HistoryStepFreezeInput,
    HistoryStepFreezeStage, HistoryStepFreezer, HistoryStepRuntimeParts, PerTier, ProvenStep,
};
use noid_recursive::wire_shape::HistoryStepError;

type Event = FreezeEvent<u8, u8>;
type Action = FreezeAction<u8, u8>;

fn accumulator(height: u64) -> ChainAccumulator {
    ChainAccumulator {
        height,
        tip_semantic_id: [1; 32],
        state_root: [2; 32],
        log_slots: 24,
        active_slot_count: 0,
        alloc_counter: 0,
        epoch_anchor_id: [3; 32],
    }
}

fn started() -> HistoryStepFreezer {
    let (mut freezer, first): (HistoryStepFreezer, Action) =
        HistoryStepFreezer::new(accumulator(0));
    assert_eq!(first, Action::ResetBackbone);
    let next = freezer.freeze_history_step_bank(Event::Done);
    assert_eq!(next, Action::NextBackbone { expected: accumulator(0) });
    freezer
}

fn b25(start: u64) -> HistoryStepFreezeInput {
    HistoryStepFreezeInput::B25 { start: accumulator(start), end: accumulator(start + 1) }
}

fn b255(start: u64) -> HistoryStepFreezeInput {
    HistoryStepFreezeInput::B255 { start: accumulator(start), end: accumulator(start + 1) }
}

#[test]
fn a_backbone_off_the_chain_fails() {
    let mut freezer = started();
    let action = freezer.freeze_history_step_bank(Event::Backbone(Some(b25(5))));
    assert_eq!(action, Action::Fail(HistoryStepFreezeError::Backbone));
}

#[test]
fn outside_failures_are_handed_on() {
    let mut freezer = started();
    assert_eq!(
        freezer.freeze_history_step_bank(Event::ProviderFailed(7)),
        Action::Fail(HistoryStepFreezeError::Provider(7))
    );
    let mut freezer = started();
    assert_eq!(
        freezer.freeze_history_step_bank(Event::StoreFailed(9)),
        Action::Fail(HistoryStepFreezeError::Store(9))
    );
    let mut freezer = started();
    let _ = freezer.freeze_history_step_bank(Event::Backbone(Some(b25(0))));
    assert_eq!(
        freezer.freeze_history_step_bank(Event::RelationFailed(HistoryStepError::Rejected)),
        Action::Fail(HistoryStepFreezeError::Relation {
            stage: HistoryStepFreezeStage::ProvisionalDirectBlockVk,
            class: Some(0),
            source: HistoryStepError::Rejected,
        })
    );
}

#[test]
fn both_provisional_keys_come_before_the_runtime() {
    let mut freezer = started();
    assert_eq!(
        freezer.freeze_history_step_bank(Event::Backbone(Some(b25(0)))),
        Action::DeriveDirectBlockVk { slot: 0 }
    );
    assert_eq!(
        freezer.freeze_history_step_bank(Event::DirectBlockVk([4; 32])),
        Action::NextBackbone { expected: accumulator(1) }
    );
    assert_eq!(
        freezer.freeze_history_step_bank(Event::Backbone(Some(b25(1)))),
        Action::NextBackbone { expected: accumulator(2) }
    );
    assert_eq!(
        freezer.freeze_history_step_bank(Event::Backbone(Some(b255(2)))),
        Action::DeriveDirectBlockVk { slot: 1 }
    );
    assert_eq!(
        freezer.freeze_history_step_bank(Event::DirectBlockVk([5; 32])),
        Action::ResetBackbone
    );
    let vks = PerTier { b25: [4; 32], b255: [5; 32] };
    assert_eq!(
        freezer.freeze_history_step_bank(Event::Done),
        Action::DeriveRuntimeParts { vks }
    );
    let parts = HistoryStepRuntimeParts { parent_recursion_vk: [6; 32], direct_block_vks: vks };
    assert_eq!(
        freezer.freeze_history_step_bank(Event::RuntimeParts(parts)),
        Action::OpenRuntime { digests: PerTier { b25: None, b255: None }, parts }
    );
}

/// Freezes over a backbone of one block of each tier. Gives every install with its
/// rows and whether it was the last, and how freezing ended. In the last pass the
/// second class comes out as `last_digest`.
fn freeze(last_digest: u8) -> (Vec<(usize, usize, bool)>, Action) {
    let (mut freezer, mut action): (HistoryStepFreezer, Action) =
        HistoryStepFreezer::new(accumulator(0));
    let vks = PerTier { b25: [4; 32], b255: [5; 32] };
    let parts = HistoryStepRuntimeParts { parent_recursion_vk: [6; 32], direct_block_vks: vks };
    let backbone = [b25(0), b255(1)];
    let mut position = 0;
    let mut pinned = false;
    let mut installs = Vec::new();
    loop {
        let built = |class: usize| {
            let digest = if class == 0 {
                [7; 32]
            } else if pinned {
                [last_digest; 32]
            } else {
                [8; 32]
            };
            Event::Built(BuiltClass {
                class,
                parent_recursion_vk: [6; 32],
                direct_block_vk: vks.at(class),
                digest,
                useful_rows: 100 + class,
            })
        };
        let event = match action {
            Action::ResetBackbone => {
                position = 0;
                Event::Done
            }
            Action::NextBackbone { .. } => {
                position += 1;
                Event::Backbone(backbone.get(position - 1).copied())
            }
            Action::DeriveDirectBlockVk { slot } => Event::DirectBlockVk(vks.at(slot)),
            Action::DeriveRuntimeParts { .. } | Action::ReplaceDirectBlockVk { .. } => {
                Event::RuntimeParts(parts)
            }
            Action::OpenRuntime { .. } => Event::Done,
            Action::Prove { slot } => Event::Proven(ProvenStep {
                slot,
                accumulator: backbone[position - 1].end_accumulator(),
            }),
            Action::Assemble { class } => built(class),
            Action::AssembleFrom { class, .. } => built(class),
            Action::Install { class, rows, last } => {
                installs.push((class, rows, last));
                Event::Done
            }
            Action::PinBank { digests } => {
                assert_eq!(digests, PerTier { b25: [7; 32], b255: [8; 32] });
                pinned = true;
                Event::Done
            }
            Action::Finish(_) | Action::Fail(_) => return (installs, action),
        };
        action = freezer.freeze_history_step_bank(event);
    }
}

#[test]
fn every_class_is_announced_once_after_its_last_install() {
    let (installs, end) = freeze(8);
    match end {
        Action::Finish(bank) => {
            assert_eq!(bank.bank().digests, PerTier { b25: [7; 32], b255: [8; 32] });
        }
        other => panic!("freezing ended on {other:?}"),
    }
    let (before, last) = installs.split_at(installs.len() - 2);
    assert_eq!(last, [(0, 100, true), (1, 101, true)]);
    assert!(before.len() >= 4);
    assert!(before.iter().all(|install| !install.2));
}

#[test]
fn a_class_that_drifts_in_the_last_pass_is_not_announced() {
    let (installs, end) = freeze(9);
    assert_eq!(end, Action::Fail(HistoryStepFreezeError::MatrixDigest(1)));
    let announced: Vec<usize> =
        installs.iter().filter(|install| install.2).map(|install| install.0).collect();
    assert_eq!(announced, [0]);
}
