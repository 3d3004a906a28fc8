use splice_core::clipboard::{Chunk, RemoteFetch, Transfers, CLIP_MAX_TOTAL};
use splice_core::engine::clipboard_clock::{
    ClipboardClock, Moment, NativeClipboardEvent, Pending, Phase,
};
use splice_core::files::mailbox::{Mailbox, Update};
use splice_core::files::records::LocalSelection;
use splice_core::machine::MachineId;
use std::sync::Arc;

fn machine(name: &str) -> MachineId {
    MachineId(name.into())
}

fn offered(transfers: &mut Transfers, peer: &str) -> RemoteFetch {
    transfers.offer(machine(peer), 1, Arc::new(vec!["text/plain".to_string()]))
}

fn begun(transfers: &mut Transfers, peer: &str) -> u64 {
    let offer = offered(transfers, peer);
    transfers.begin(&offer, &"text/plain".to_string()).unwrap()
}

#[test]
fn another_peer_cannot_complete_or_abort_a_request() {
    let mut transfers = Transfers::default();
    let request = begun(&mut transfers, "aaa");
    let wrong = transfers.chunk(&machine("bbb"), request, &b"wrong".to_vec(), true);
    assert_eq!(wrong, Chunk::Unknown);
    transfers.abort(&machine("bbb"), request);
    let right = transfers.chunk(&machine("aaa"), request, &b"right".to_vec(), true);
    assert_eq!(right, Chunk::Complete(b"right".to_vec()));
}

#[test]
fn disconnect_cancels_only_that_peers_requests_and_handles() {
    let mut transfers = Transfers::default();
    let old = offered(&mut transfers, "aaa");
    let canceled = begun(&mut transfers, "aaa");
    let retained = begun(&mut transfers, "bbb");
    transfers.disconnect(&machine("aaa"));
    assert_eq!(transfers.begin(&old, &"text/plain".to_string()), None);
    let late = transfers.chunk(&machine("aaa"), canceled, &b"late".to_vec(), true);
    assert_eq!(late, Chunk::Unknown);
    let kept = transfers.chunk(&machine("bbb"), retained, &b"retained".to_vec(), true);
    assert_eq!(kept, Chunk::Complete(b"retained".to_vec()));
}

#[test]
fn oversized_transfers_are_canceled_and_freed() {
    let mut transfers = Transfers::default();
    let request = begun(&mut transfers, "aaa");
    let whole = transfers.chunk(&machine("aaa"), request, &vec![0; CLIP_MAX_TOTAL], false);
    assert_eq!(whole, Chunk::Buffered);
    assert_eq!(transfers.chunk(&machine("aaa"), request, &vec![1], true), Chunk::TooLarge);
    assert_eq!(transfers.chunk(&machine("aaa"), request, &vec![1], true), Chunk::Unknown);
}

#[test]
fn pieces_come_together_and_formats_have_to_be_offered() {
    let mut transfers = Transfers::default();
    let offer = offered(&mut transfers, "aaa");
    assert_eq!(transfers.begin(&offer, &"image/png".to_string()), None);
    let request = transfers.begin(&offer, &"text/plain".to_string()).unwrap();
    assert_eq!(transfers.chunk(&machine("aaa"), request, &vec![1, 2], false), Chunk::Buffered);
    let whole = transfers.chunk(&machine("aaa"), request, &vec![3], true);
    assert_eq!(whole, Chunk::Complete(vec![1, 2, 3]));
    transfers.clear();
    assert_eq!(transfers.begin(&offer, &"text/plain".to_string()), None);
}

fn event(generation: u64, phase: Phase) -> NativeClipboardEvent {
    match phase {
        Phase::Invalidated => NativeClipboardEvent::Invalidated { generation, epoch: 0 },
        Phase::Changed => NativeClipboardEvent::Changed {
            generation,
            mimes: Arc::new(vec![]),
            inline_text: None,
            epoch: 0,
        },
        Phase::Captured => captured(generation, Arc::new(LocalSelection::paths(vec![]))),
        Phase::Replaced => unreachable!(),
    }
}

fn captured(generation: u64, selection: Arc<LocalSelection>) -> NativeClipboardEvent {
    NativeClipboardEvent::Captured { epoch: 0, generation, selection }
}

fn rank(phase: Phase) -> u8 {
    match phase {
        Phase::Invalidated => 0,
        Phase::Changed => 1,
        Phase::Captured => 2,
        Phase::Replaced => 3,
    }
}

#[test]
fn every_same_generation_permutation_advances_only_to_higher_phases() {
    let invalidated = Phase::Invalidated;
    let changed = Phase::Changed;
    let taken = Phase::Captured;
    for phases in [
        [invalidated, changed, taken],
        [invalidated, taken, changed],
        [changed, invalidated, taken],
        [changed, taken, invalidated],
        [taken, invalidated, changed],
        [taken, changed, invalidated],
    ] {
        let mut clock = ClipboardClock::new();
        let mut previous: Option<u8> = None;
        for phase in phases {
            assert_eq!(
                clock.accept(&event(10, phase)),
                previous.is_none_or(|old| rank(phase) > old)
            );
            previous = Some(previous.map_or(rank(phase), |old| old.max(rank(phase))));
        }
        assert!(!clock.accept(&event(10, Phase::Captured)));
        assert!(!clock.accept(&event(9, Phase::Captured)));
        assert!(clock.accept(&event(11, Phase::Invalidated)));
    }
}

#[test]
fn bursts_coalesce_and_consumption_releases_capabilities_but_keeps_watermark() {
    let mut pending = Pending::new();
    let access = Arc::new(LocalSelection::paths(vec![]));
    let weak = Arc::downgrade(&access);
    assert!(pending.send(captured(1, access)));
    for generation in 2..10_000 {
        assert!(pending.send(event(generation, Phase::Changed)));
    }
    assert!(weak.upgrade().is_none());
    assert_eq!(
        pending.take().unwrap().stamp(),
        Moment { generation: 9999, phase: Phase::Changed }
    );
    assert_eq!(pending.latest_generation(), Some(9999));
    assert!(pending.send(event(9998, Phase::Captured)));
    assert!(pending.send(event(9999, Phase::Invalidated)));
    assert!(pending.event.is_none());
    let access = Arc::new(LocalSelection::paths(vec![]));
    let weak = Arc::downgrade(&access);
    assert!(pending.send(captured(9999, access)));
    drop(pending.take().unwrap());
    assert!(weak.upgrade().is_none());
}

#[test]
fn slow_capture_keeps_the_epoch_of_early_invalidation_after_disable() {
    let mut pending = Pending::new();
    assert!(pending.send(event(10, Phase::Invalidated)));
    drop(pending.take().unwrap());
    assert!(pending.send(event(10, Phase::Captured).bind_epoch(1)));
    assert_eq!(pending.take().unwrap().epoch(), 0);
    assert!(pending.send(event(11, Phase::Invalidated).bind_epoch(1)));
    assert_eq!(pending.take().unwrap().epoch(), 1);
}

#[test]
fn receiver_shutdown_releases_pending_capture_and_rejects_submission() {
    let mut pending = Pending::new();
    let access = Arc::new(LocalSelection::paths(vec![]));
    let weak = Arc::downgrade(&access);
    assert!(pending.send(captured(1, access)));
    pending.close();
    assert!(weak.upgrade().is_none());
    assert!(!pending.send(event(2, Phase::Changed)));
}

#[test]
fn replacement_blocks_queued_and_taken_generation_without_enabling_legacy_clock() {
    let mut pending = Pending::new();
    let mut clock = ClipboardClock::new();
    clock.invalidate_pending(pending.replace_pending());
    assert!(!clock.ordered());
    assert!(clock.accept(&event(1, Phase::Captured)));
    assert!(pending.send(event(100, Phase::Captured)));
    clock.invalidate_pending(pending.replace_pending());
    assert!(pending.event.is_none());
    assert!(pending.send(event(100, Phase::Captured)));
    assert!(pending.event.is_none());
    assert!(!clock.accept(&event(100, Phase::Captured)));
    assert!(pending.send(event(101, Phase::Captured)));
    let taken = pending.take().unwrap();
    clock.invalidate_pending(pending.replace_pending());
    assert!(!clock.accept(&taken));
    for phase in [Phase::Invalidated, Phase::Changed, Phase::Captured] {
        assert!(pending.send(event(102, phase)));
        assert!(clock.accept(&pending.take().unwrap()));
    }
}

fn capture(generation: u64, epoch: u64) -> Update {
    Update::Capture { selection: Arc::new(LocalSelection::paths(vec![])), generation, epoch }
}

fn epoch_of(update: Option<Update>) -> u64 {
    let Some(Update::Capture { epoch, .. }) = update else { panic!("nothing captured") };
    epoch
}

#[test]
fn disable_rejects_queued_and_taken_capture_epochs() {
    let mut mailbox = Mailbox::new();
    let epoch = mailbox.epoch();
    assert!(mailbox.send(capture(1, epoch)));
    let taken = mailbox.take();
    mailbox.revoke();
    assert!(!mailbox.current(epoch_of(taken)));
    assert!(mailbox.send(capture(2, epoch)));
    let queued = mailbox.take();
    assert!(!mailbox.current(epoch_of(queued)));
    assert!(mailbox.current(mailbox.epoch()));
}

#[test]
fn a_newer_change_replaces_the_one_that_waits() {
    let mut mailbox = Mailbox::new();
    let selection = Arc::new(LocalSelection::paths(vec!["/selected".to_string()]));
    let weak = Arc::downgrade(&selection);
    assert!(mailbox.send(Update::Capture { selection, generation: 1, epoch: 0 }));
    assert!(mailbox.send(Update::Clear));
    assert!(weak.upgrade().is_none());
    assert!(matches!(mailbox.take(), Some(Update::Clear)));
    for generation in 2..10_000 {
        assert!(mailbox.send(capture(generation, 0)));
    }
    assert!(matches!(mailbox.take(), Some(Update::Capture { generation: 9999, .. })));
    mailbox.close();
    assert!(!mailbox.send(Update::Clear));
}
