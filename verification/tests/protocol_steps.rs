use yggdrasil_keygen::protocol::{advance, Action, Event, Failure, Phase};

fn run(events: &[Event]) -> (Phase, Vec<Action>) {
    let mut phase = Phase::Unlocked;
    let mut actions = Vec::new();
    for event in events {
        let (next, action) = advance(phase, *event);
        phase = next;
        actions.push(action);
    }
    (phase, actions)
}

#[test]
fn round_on_an_empty_file() {
    let (phase, actions) = run(&[
        Event::LockAcquired { file_len: 0 },
        Event::Collected,
        Event::Emitted,
        Event::Stored,
    ]);
    assert_eq!(phase, Phase::Final);
    assert_eq!(
        actions,
        vec![
            Action::CollectFromEmpty,
            Action::EmitBest,
            Action::Store,
            Action::Release { failure: None },
        ]
    );
}

#[test]
fn round_on_a_written_file() {
    let (phase, actions) = run(&[
        Event::LockAcquired { file_len: 311 },
        Event::Parsed,
        Event::Collected,
        Event::Emitted,
        Event::Stored,
    ]);
    assert_eq!(phase, Phase::Final);
    assert_eq!(
        actions,
        vec![
            Action::ParseFile,
            Action::CollectFromLoaded,
            Action::EmitBest,
            Action::Store,
            Action::Release { failure: None },
        ]
    );
}

#[test]
fn lock_failure_ends_the_round() {
    assert_eq!(
        advance(Phase::Unlocked, Event::LockFailed),
        (
            Phase::Final,
            Action::Release { failure: Some(Failure::LockAcquisitionFailure) }
        )
    );
}

#[test]
fn unparsable_file_is_not_overwritten() {
    let (phase, actions) = run(&[Event::LockAcquired { file_len: 12 }, Event::Unparsable]);
    assert_eq!(phase, Phase::Final);
    assert_eq!(
        actions[1],
        Action::Release { failure: Some(Failure::EnvelopeDecodeFailure) }
    );
    assert!(!actions.contains(&Action::Store));
}

#[test]
fn empty_cache_after_the_round_is_reported() {
    let (phase, actions) = run(&[
        Event::LockAcquired { file_len: 0 },
        Event::Collected,
        Event::NoCandidates,
    ]);
    assert_eq!(phase, Phase::Final);
    assert_eq!(
        actions[2],
        Action::Release { failure: Some(Failure::NoCandidatesAvailable) }
    );
    assert!(!actions.contains(&Action::Store));
}

#[test]
fn closed_channel_is_reported() {
    assert_eq!(
        advance(Phase::Loaded, Event::ChannelClosed),
        (
            Phase::Final,
            Action::Release { failure: Some(Failure::InternalChannelClosed) }
        )
    );
}

#[test]
fn failed_store_is_reported() {
    assert_eq!(
        advance(Phase::Storing, Event::StoreFailed),
        (
            Phase::Final,
            Action::Release { failure: Some(Failure::StoreFailure) }
        )
    );
}

#[test]
fn steps_out_of_order_end_the_round() {
    let out_of_order = (
        Phase::Final,
        Action::Release { failure: Some(Failure::OutOfOrder) },
    );
    assert_eq!(advance(Phase::Unlocked, Event::Stored), out_of_order);
    assert_eq!(advance(Phase::Loaded, Event::Emitted), out_of_order);
    assert_eq!(advance(Phase::Storing, Event::Emitted), out_of_order);
    assert_eq!(advance(Phase::Final, Event::Collected), out_of_order);
    assert_eq!(
        advance(Phase::Dirty, Event::LockAcquired { file_len: 0 }),
        out_of_order
    );
}

#[test]
fn nothing_is_stored_after_a_failure() {
    let (phase, actions) = run(&[
        Event::LockAcquired { file_len: 5 },
        Event::Unparsable,
        Event::Parsed,
        Event::Collected,
        Event::Emitted,
        Event::Stored,
    ]);
    assert_eq!(phase, Phase::Final);
    assert!(!actions.contains(&Action::Store));
}
