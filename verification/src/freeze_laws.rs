//! What a released bank has behind it: which classes were assembled on which
//! parents, and where the parents came from.

use vstd::prelude::*;
use crate::accepted_claim_batch::ChainAccumulator;
use crate::freezer::{
    freeze_run, next, same_accumulator, BuiltClass, FreezeAction, FreezeAt, FreezeEvent,
    HistoryStepFreezer, HistoryStepRuntimeParts,
};

verus! {

/// The accumulator of the last terminal that was proven of a tier.
pub open spec fn last_proven<P, S>(events: Seq<FreezeEvent<P, S>>, slot: int) -> Option<
    ChainAccumulator,
>
    decreases events.len(),
{
    if events.len() == 0 {
        None
    } else {
        match events.last() {
            FreezeEvent::Proven(t) => if t.slot == slot {
                Some(t.accumulator)
            } else {
                last_proven(events.drop_last(), slot)
            },
            _ => last_proven(events.drop_last(), slot),
        }
    }
}

/// A class came out with a digest, under the keys of a bank.
pub open spec fn came_out(
    x: BuiltClass,
    class: int,
    parts: HistoryStepRuntimeParts,
    digest: Seq<u8>,
) -> bool {
    &&& x.class == class
    &&& x.digest@ == digest
    &&& x.parent_recursion_vk@ == parts.parent_recursion_vk@
    &&& x.direct_block_vk@ == (if class == 0 {
        parts.direct_block_vks.b25@
    } else {
        parts.direct_block_vks.b255@
    })
}

/// The action at `i` asked for a class on a parent, and what was built is a class
/// with that digest.
pub open spec fn assembled_on<P, S>(
    events: Seq<FreezeEvent<P, S>>,
    actions: Seq<FreezeAction<P, S>>,
    i: int,
    class: usize,
    parent: usize,
    start: ChainAccumulator,
    parts: HistoryStepRuntimeParts,
    digest: Seq<u8>,
) -> bool {
    &&& 0 <= i < events.len()
    &&& i < actions.len()
    &&& actions[i] == FreezeAction::<P, S>::AssembleFrom { class, parent, start }
    &&& events[i] is Built
    &&& came_out(events[i]->Built_0, class as int, parts, digest)
}

/// The three actions that end at `i` assembled a class on the parent of each tier,
/// with one digest, and stored it.
pub open spec fn class_made<P, S>(
    events: Seq<FreezeEvent<P, S>>,
    actions: Seq<FreezeAction<P, S>>,
    i: int,
    class: usize,
    b25: ChainAccumulator,
    b255: ChainAccumulator,
    parts: HistoryStepRuntimeParts,
    digest: Seq<u8>,
    last: bool,
) -> bool {
    &&& 2 <= i < events.len()
    &&& i < actions.len()
    &&& assembled_on(events, actions, i - 2, class, 0, b25, parts, digest)
    &&& assembled_on(events, actions, i - 1, class, 1, b255, parts, digest)
    &&& events[i - 2]->Built_0.useful_rows == events[i - 1]->Built_0.useful_rows
    &&& actions[i] == FreezeAction::<P, S>::Install {
        class,
        rows: events[i - 2]->Built_0.useful_rows,
        last,
    }
    &&& events[i] is Done
}

/// What the actions and events so far say of a state that builds classes.
spec fn trail<P, S>(
    s: HistoryStepFreezer,
    events: Seq<FreezeEvent<P, S>>,
    actions: Seq<FreezeAction<P, S>>,
) -> bool {
    let n = events.len() as int;
    let (a, b) = (last_proven(events, 0), last_proven(events, 1));
    let parents = a is Some && b is Some && s.checkpoints.b25 == a && s.checkpoints.b255 == b;
    let digest = if s.last {
        s.finals.b25@
    } else {
        s.candidate.b25@
    };
    let first_made = class_made(
        events,
        actions,
        n - 1,
        0,
        a->0,
        b->0,
        s.parts,
        digest,
        s.last,
    );
    &&& actions.len() == n + 1
    &&& match s.at {
        FreezeAt::WalkReset => true,
        FreezeAt::WalkNext => walked(s, events),
        FreezeAt::WalkProve { slot } => walked(s, events) && slot <= 1,
        FreezeAt::ClassBuild { class } => {
            &&& class <= 1
            &&& parents
            &&& actions[n] == FreezeAction::<P, S>::AssembleFrom { class, parent: 0, start: a->0 }
            &&& class == 1 ==> first_made
        },
        FreezeAt::ClassRebuild { class } => {
            &&& class <= 1
            &&& parents
            &&& assembled_on(events, actions, n - 1, class, 0, a->0, s.parts, s.built.digest@)
            &&& events[n - 1]->Built_0 == s.built
            &&& actions[n] == FreezeAction::<P, S>::AssembleFrom { class, parent: 1, start: b->0 }
            &&& class == 1 ==> class_made(
                events,
                actions,
                n - 2,
                0,
                a->0,
                b->0,
                s.parts,
                digest,
                s.last,
            )
        },
        FreezeAt::ClassInstall { class } => {
            &&& class <= 1
            &&& parents
            &&& assembled_on(events, actions, n - 2, class, 0, a->0, s.parts, s.built.digest@)
            &&& assembled_on(events, actions, n - 1, class, 1, b->0, s.parts, s.built.digest@)
            &&& events[n - 2]->Built_0 == s.built
            &&& events[n - 1]->Built_0.useful_rows == s.built.useful_rows
            &&& actions[n] == FreezeAction::<P, S>::Install {
                class,
                rows: s.built.useful_rows,
                last: s.last,
            }
            &&& s.last ==> s.candidate.get(class as int)@ == s.built.digest@
            &&& class == 1 ==> class_made(
                events,
                actions,
                n - 3,
                0,
                a->0,
                b->0,
                s.parts,
                digest,
                s.last,
            )
            &&& class == 1 && s.last ==> s.candidate.b25@ == digest
        },
        _ => true,
    } && (s.last && (s.at matches FreezeAt::ClassBuild { class: 1 } || s.at
        matches FreezeAt::ClassRebuild { class: 1 }) ==> s.candidate.b25@ == digest)
}

/// A walk along the backbone: the last terminal of each tier that it proved.
spec fn walked<P, S>(s: HistoryStepFreezer, events: Seq<FreezeEvent<P, S>>) -> bool {
    match s.tip {
        None => s.checkpoints.b25 is None && s.checkpoints.b255 is None,
        Some(t) => {
            &&& t.slot <= 1
            &&& last_proven(events, t.slot as int) == Some(t.accumulator)
            &&& s.checkpoints.b255 is None
            &&& t.slot == 0 ==> s.checkpoints.b25 is None
            &&& t.slot == 1 && s.checkpoints.b25 is Some ==> s.checkpoints.b25 == last_proven(
                events,
                0,
            )
        },
    }
}

proof fn lemma_trail_next<P, S>(
    s: HistoryStepFreezer,
    events: Seq<FreezeEvent<P, S>>,
    actions: Seq<FreezeAction<P, S>>,
    e: FreezeEvent<P, S>,
)
    requires
        trail(s, events, actions),
    ensures
        trail(next(s, e).0, events.push(e), actions.push(next(s, e).1)),
        next(s, e).1 is Finish ==> s.at == (FreezeAt::ClassInstall { class: 1 }) && s.last
            && e is Done,
{
    let (t, a) = next(s, e);
    let (more, acts) = (events.push(e), actions.push(a));
    let n = events.len() as int;
    assert(more.drop_last() =~= events);
    assert(more.last() == e);
    assert forall|i: int| 0 <= i < n implies more[i] == events[i] by {}
    assert forall|i: int| 0 <= i < actions.len() implies acts[i] == actions[i] by {}
    assert(acts[n + 1] == a);
    assert(more[n] == e);
}

proof fn lemma_trail<P, S>(start: HistoryStepFreezer, events: Seq<FreezeEvent<P, S>>)
    requires
        start.at is ProvisionalReset,
    ensures
        trail(freeze_run(start, events).0, events, freeze_run(start, events).1),
    decreases events.len(),
{
    if events.len() > 0 {
        let before = events.drop_last();
        lemma_trail(start, before);
        let (s, actions) = freeze_run(start, before);
        lemma_trail_next(s, before, actions, events.last());
        assert(before.push(events.last()) =~= events);
    }
}

/// A bank is released only where the last pass has assembled every class on the
/// last terminal of each tier, with the bank's keys: on the parent of the first
/// tier and on that of the second a class came out with the same rows and the
/// digest that is released, and it was stored once as final. The parents are the
/// last terminals proven of each tier.
pub proof fn lemma_released_on_every_parent<P, S>(
    start: HistoryStepFreezer,
    events: Seq<FreezeEvent<P, S>>,
)
    requires
        start.at is ProvisionalReset,
        freeze_run(start, events).1.last() is Finish,
    ensures
        ({
            let actions = freeze_run(start, events).1;
            let bank = actions.last()->Finish_0;
            let n = events.len() as int;
            let (a, b) = (last_proven(events, 0), last_proven(events, 1));
            let (parts, digests) = (bank.parts, bank.bank.digests);
            &&& a is Some && b is Some
            &&& class_made(events, actions, n - 4, 0, a->0, b->0, parts, digests.b25@, true)
            &&& class_made(events, actions, n - 1, 1, a->0, b->0, parts, digests.b255@, true)
        }),
{
    if events.len() == 0 {
        assert(freeze_run(start, events).1.last() is ResetBackbone);
    } else {
        let before = events.drop_last();
        lemma_trail(start, before);
        let (s, actions) = freeze_run(start, before);
        lemma_trail_next(s, before, actions, events.last());
        assert(events =~= before.push(events.last()));
        let all = freeze_run(start, events).1;
        assert(all == actions.push(next(s, events.last()).1));
        let n = events.len() as int;
        assert forall|i: int| 0 <= i < n - 1 implies events[i] == before[i] by {}
        assert forall|i: int| 0 <= i < actions.len() implies all[i] == actions[i] by {}
        assert(last_proven(events, 0) == last_proven(before, 0));
        assert(last_proven(events, 1) == last_proven(before, 1));
    }
}

/// Where the next witness must start: at genesis after the backbone was reset,
/// where the last terminal ended after a proof, and where the last witness ended
/// where witnesses are only read.
pub proof fn lemma_next_start<P, S>(s: HistoryStepFreezer, e: FreezeEvent<P, S>)
    requires
        next(s, e).1 is NextBackbone,
    ensures
        next(s, e).1->expected == (match e {
            FreezeEvent::Proven(t) => t.accumulator,
            FreezeEvent::Done => s.genesis,
            FreezeEvent::Backbone(Some(i)) => i.to(),
            _ => s.expected,
        }),
        next(s, e).0.expected == next(s, e).1->expected,
{
}

/// A witness is used only where it starts as asked.
pub proof fn lemma_witness_starts<P, S>(s: HistoryStepFreezer, e: FreezeEvent<P, S>)
    requires
        e matches FreezeEvent::Backbone(Some(_)),
        !(next(s, e).1 is Fail),
    ensures
        same_accumulator((e->Backbone_0->0).from(), s.expected),
{
}

} // verus!
