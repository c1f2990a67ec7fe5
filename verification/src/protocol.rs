//! The order of a round's steps around the cache file: lock, load, collect,
//! emit, store, release. The caller does the work of each step and reports
//! what came of it; `advance` decides what is done next.

use vstd::prelude::*;

verus! {

/// Where a round stands.
#[derive(Clone, Copy, Debug, PartialEq, Eq, Structural)]
pub enum Phase {
    /// The cache file is not locked yet.
    Unlocked,
    /// The lock is held and the file, which is not empty, is being parsed.
    Locked,
    /// The lock is held and the cache is in memory as the file had it.
    Loaded,
    /// The lock is held and the cache holds what the round collected.
    Dirty,
    /// The lock is held, the best entry has been emitted and the rest is
    /// being written.
    Storing,
    /// The lock has been released; nothing more is done.
    Final,
}

/// Why a round ended without storing.
#[derive(Clone, Copy, Debug, PartialEq, Eq, Structural)]
pub enum Failure {
    /// The exclusive lock could not be obtained.
    LockAcquisitionFailure,
    /// The file is not empty and its top-level structure could not be parsed.
    EnvelopeDecodeFailure,
    /// The round left the cache empty.
    NoCandidatesAvailable,
    /// A producer could not deliver: the collector was gone.
    InternalChannelClosed,
    /// Writing the file failed.
    StoreFailure,
    /// A step was reported that the phase did not ask for.
    OutOfOrder,
}

/// What the caller reports.
#[derive(Clone, Copy, Debug, PartialEq, Eq, Structural)]
pub enum Event {
    /// The lock is held; the file has this many bytes.
    LockAcquired { file_len: u64 },
    LockFailed,
    /// The file's top-level structure was parsed.
    Parsed,
    Unparsable,
    /// Every producer has finished and the collector has folded what they
    /// delivered into the cache.
    Collected,
    ChannelClosed,
    /// The best entry was taken from the cache and emitted.
    Emitted,
    NoCandidates,
    Stored,
    StoreFailed,
}

/// What the caller does next.
#[derive(Clone, Copy, Debug, PartialEq, Eq, Structural)]
pub enum Action {
    /// Parse the file's top-level structure.
    ParseFile,
    /// Start from an empty cache, then run the producers and the collector.
    CollectFromEmpty,
    /// Load the cache from the parsed file, then run the producers and the
    /// collector.
    CollectFromLoaded,
    /// Take the best entry from the cache and emit it.
    EmitBest,
    /// Rewrite the file from its start with what the cache still holds.
    Store,
    /// Release the lock and end, with the failure if there was one.
    Release { failure: Option<Failure> },
}

/// The event reports a step that went wrong.
pub open spec fn is_failure(event: Event) -> bool {
    event == Event::LockFailed || event == Event::Unparsable || event == Event::ChannelClosed
        || event == Event::NoCandidates || event == Event::StoreFailed
}

/// The phase and the action that follow `event` in `phase`.
pub open spec fn next(phase: Phase, event: Event) -> (Phase, Action) {
    match (phase, event) {
        (Phase::Unlocked, Event::LockAcquired { file_len }) => if file_len == 0 {
            (Phase::Loaded, Action::CollectFromEmpty)
        } else {
            (Phase::Locked, Action::ParseFile)
        },
        (Phase::Unlocked, Event::LockFailed) => (
            Phase::Final,
            Action::Release { failure: Some(Failure::LockAcquisitionFailure) },
        ),
        (Phase::Locked, Event::Parsed) => (Phase::Loaded, Action::CollectFromLoaded),
        (Phase::Locked, Event::Unparsable) => (
            Phase::Final,
            Action::Release { failure: Some(Failure::EnvelopeDecodeFailure) },
        ),
        (Phase::Loaded, Event::Collected) => (Phase::Dirty, Action::EmitBest),
        (Phase::Loaded, Event::ChannelClosed) => (
            Phase::Final,
            Action::Release { failure: Some(Failure::InternalChannelClosed) },
        ),
        (Phase::Dirty, Event::Emitted) => (Phase::Storing, Action::Store),
        (Phase::Dirty, Event::NoCandidates) => (
            Phase::Final,
            Action::Release { failure: Some(Failure::NoCandidatesAvailable) },
        ),
        (Phase::Storing, Event::Stored) => (Phase::Final, Action::Release { failure: None }),
        (Phase::Storing, Event::StoreFailed) => (
            Phase::Final,
            Action::Release { failure: Some(Failure::StoreFailure) },
        ),
        _ => (Phase::Final, Action::Release { failure: Some(Failure::OutOfOrder) }),
    }
}

/// The phase after each of `events` has been reported in turn.
pub open spec fn phase_after(phase: Phase, events: Seq<Event>) -> Phase
    decreases events.len(),
{
    if events.len() == 0 {
        phase
    } else {
        next(phase_after(phase, events.drop_last()), events.last()).0
    }
}

/// How often `Store` is asked for while `events` are reported in turn.
pub open spec fn stores(phase: Phase, events: Seq<Event>) -> nat
    decreases events.len(),
{
    if events.len() == 0 {
        0
    } else {
        let before = stores(phase, events.drop_last());
        if next(phase_after(phase, events.drop_last()), events.last()).1 == Action::Store {
            before + 1
        } else {
            before
        }
    }
}

/// Decides what follows `event` in `phase`.
pub fn advance(phase: Phase, event: Event) -> (r: (Phase, Action))
    ensures
        r == next(phase, event),
{
    match phase {
        Phase::Unlocked => match event {
            Event::LockAcquired { file_len } => {
                if file_len == 0 {
                    (Phase::Loaded, Action::CollectFromEmpty)
                } else {
                    (Phase::Locked, Action::ParseFile)
                }
            },
            Event::LockFailed => (
                Phase::Final,
                Action::Release { failure: Some(Failure::LockAcquisitionFailure) },
            ),
            _ => out_of_order(),
        },
        Phase::Locked => match event {
            Event::Parsed => (Phase::Loaded, Action::CollectFromLoaded),
            Event::Unparsable => (
                Phase::Final,
                Action::Release { failure: Some(Failure::EnvelopeDecodeFailure) },
            ),
            _ => out_of_order(),
        },
        Phase::Loaded => match event {
            Event::Collected => (Phase::Dirty, Action::EmitBest),
            Event::ChannelClosed => (
                Phase::Final,
                Action::Release { failure: Some(Failure::InternalChannelClosed) },
            ),
            _ => out_of_order(),
        },
        Phase::Dirty => match event {
            Event::Emitted => (Phase::Storing, Action::Store),
            Event::NoCandidates => (
                Phase::Final,
                Action::Release { failure: Some(Failure::NoCandidatesAvailable) },
            ),
            _ => out_of_order(),
        },
        Phase::Storing => match event {
            Event::Stored => (Phase::Final, Action::Release { failure: None }),
            Event::StoreFailed => (
                Phase::Final,
                Action::Release { failure: Some(Failure::StoreFailure) },
            ),
            _ => out_of_order(),
        },
        Phase::Final => out_of_order(),
    }
}

fn out_of_order() -> (r: (Phase, Action))
    ensures
        r == (Phase::Final, Action::Release { failure: Some(Failure::OutOfOrder) }),
{
    (Phase::Final, Action::Release { failure: Some(Failure::OutOfOrder) })
}

/// A step that went wrong ends the round with a failure, whatever the phase:
/// the file is not written after it.
pub proof fn lemma_failure_releases(phase: Phase, event: Event)
    requires
        is_failure(event),
    ensures
        next(phase, event).0 == Phase::Final,
        next(phase, event).1 matches Action::Release { failure: Some(_) },
{
}

/// `Store` is asked for in one place only: when the best entry of a
/// collected cache has been emitted.
pub proof fn lemma_store_follows_emission(phase: Phase, event: Event)
    requires
        next(phase, event).1 == Action::Store,
    ensures
        phase == Phase::Dirty,
        event == Event::Emitted,
{
}

/// Once the lock has been released nothing more happens.
pub proof fn lemma_final_is_final(events: Seq<Event>)
    ensures
        phase_after(Phase::Final, events) == Phase::Final,
        stores(Phase::Final, events) == 0,
    decreases events.len(),
{
    if events.len() > 0 {
        lemma_final_is_final(events.drop_last());
    }
}

/// The phases are passed in one direction, so whatever is reported, and in
/// whatever order, the file is written at most once in a round; and it is
/// not written at all unless the round got as far as a collected cache.
pub proof fn lemma_stores_at_most_once(phase: Phase, events: Seq<Event>)
    ensures
        stores(phase, events) <= 1,
        stage(phase_after(phase, events)) >= stage(phase),
        stores(phase, events) == 1 ==> stage(phase) <= stage(Phase::Dirty) && stage(
            phase_after(phase, events),
        ) >= stage(Phase::Storing),
        stage(phase_after(phase, events)) <= stage(Phase::Dirty) ==> stores(phase, events) == 0,
    decreases events.len(),
{
    if events.len() > 0 {
        lemma_stores_at_most_once(phase, events.drop_last());
    }
}

/// The phases in the order in which a round passes them.
pub open spec fn stage(phase: Phase) -> int {
    match phase {
        Phase::Unlocked => 0,
        Phase::Locked => 1,
        Phase::Loaded => 2,
        Phase::Dirty => 3,
        Phase::Storing => 4,
        Phase::Final => 5,
    }
}

/// After a step that went wrong the file is never written, whatever is
/// reported afterwards.
pub proof fn lemma_no_store_after_failure(phase: Phase, failed: Event, later: Seq<Event>)
    requires
        is_failure(failed),
    ensures
        stores(phase, seq![failed] + later) == 0,
        phase_after(phase, seq![failed] + later) == Phase::Final,
    decreases later.len(),
{
    let events = seq![failed] + later;
    if later.len() == 0 {
        assert(events.drop_last() =~= Seq::<Event>::empty());
        assert(events.last() == failed);
        assert(stores(phase, events.drop_last()) == 0);
        assert(phase_after(phase, events.drop_last()) == phase);
    } else {
        assert(events.drop_last() =~= seq![failed] + later.drop_last());
        lemma_no_store_after_failure(phase, failed, later.drop_last());
    }
}

} // verus!
