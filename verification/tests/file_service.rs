use splice_core::files::completion::{dice_of, random_failure, Completed, Walked};
use splice_core::files::desk::{Clock, Dice, Effect, Service, Wire, MAX_ENUMERATIONS};
use splice_core::files::records::{
    EntryId, EntryKind, Fault, FileCommand, FileError, FileMessage, FileOfferId, FileReply,
    FileTimestamp, LocalSelection, Manifest, ManifestEntry, NativeDragId, OfferOrigin, PeerPolicy,
    Policy, ReceiveDestination, SelectedRoot, Token, TransferId, TransferState,
};
use splice_core::files::snapshot::Recovered;
use splice_core::input_transport::socket::Ip;
use splice_core::machine::MachineId;
use std::sync::Arc;

const NOW: Clock = Clock { unix_ms: 1_700_000_000_000, at: 5_000 };
const HERE: &str = "here";
const THERE: &str = "there";
const OTHER: &str = "other";

fn machine(name: &str) -> MachineId {
    MachineId(name.to_owned())
}

/// A service whose peers are connected under generation 3.
fn service(name: &str, peers: &[&str]) -> Service {
    let policy = Policy {
        peers: peers
            .iter()
            .map(|peer| PeerPolicy {
                peer: machine(peer),
                epoch: 0,
                admitted: Some((3, Ip::V4(0x0a00_0001))),
            })
            .collect(),
        enabled: true,
        clipboard_enabled: true,
    };
    let recovered = Recovered {
        journals: vec![],
        errors: vec![],
        error_count: 0,
        untracked_cache_bytes: 0,
        cleanup_failures: vec![],
    };
    let mut service = Service::new(machine(name), policy, true, recovered, NOW);
    service.wires = peers
        .iter()
        .map(|peer| Wire { peer: machine(peer), generation: 3, room: 100 })
        .collect();
    service
}

fn dice(id: u128) -> Dice {
    dice_of(Ok(id), Ok(8), Ok(9))
}

fn undrawn() -> Dice {
    let failed = || Err(random_failure("no entropy"));
    dice_of(failed(), failed(), failed())
}

fn entry(id: u32, size: u64) -> ManifestEntry {
    ManifestEntry {
        id: EntryId(id),
        parent: None,
        name: format!("f{id}"),
        kind: EntryKind::File { size },
        mode: 0o644,
        modified: FileTimestamp { seconds: 0, nanos: 0 },
    }
}

fn manifest() -> Arc<Manifest> {
    Arc::new(Manifest { generation: 77, entries: vec![entry(1, 10), entry(2, 20)], total_bytes: 30 })
}

fn roots(ids: &[u32]) -> Arc<Vec<EntryId>> {
    Arc::new(ids.iter().map(|id| EntryId(*id)).collect())
}

fn selection() -> Arc<LocalSelection> {
    Arc::new(LocalSelection { roots: vec![SelectedRoot::Path("/tmp/a".into())], access: None })
}

/// What is to be done, taken out.
fn effects(service: &mut Service) -> Vec<Effect> {
    std::mem::take(&mut service.outbox)
}

/// What was sent to a machine.
fn sent(service: &mut Service, to: &str) -> Vec<FileMessage> {
    effects(service)
        .into_iter()
        .filter_map(|effect| match effect {
            Effect::Send { peer, message } if peer.0 == to => Some(message),
            _ => None,
        })
        .collect()
}

/// The answer to a command, in words where it was refused.
fn ask(service: &mut Service, command: FileCommand, dice: &Dice) -> Result<FileReply, String> {
    service.outbox.clear();
    service.command(command, Some(1), NOW, dice);
    let answer = service.outbox.iter().find_map(|effect| match effect {
        Effect::Reply { waiter: 1, result } => Some(match result {
            Ok(reply) => Ok(*reply),
            Err(fault) => Err(fault.text().to_string()),
        }),
        _ => None,
    });
    answer.expect("an answer")
}

fn say(service: &mut Service, from: &str, message: FileMessage) -> Result<(), FileError> {
    service.message(&machine(from), 3, message, NOW, &dice(50))
}

/// `here` offers two files to `there`, under identity 5.
fn offered() -> (Service, Service) {
    let mut here = service(HERE, &[THERE, OTHER]);
    let mut there = service(THERE, &[HERE]);
    let recipient = machine(THERE);
    let origin = OfferOrigin::Selection;
    let offer = FileCommand::Offer { selection: selection(), recipient, origin };
    here.command(offer, Some(1), NOW, &dice(0));
    assert!(matches!(effects(&mut here).as_slice(), [Effect::Enumerate { id: 1, .. }]));
    let result = Ok(Walked { source: 4, manifest: manifest() });
    here.completed(Completed::Enumerated { id: 1, result }, NOW, &dice(5));
    for message in sent(&mut here, THERE) {
        assert_eq!(say(&mut there, HERE, message), Ok(()));
    }
    assert!(there.offers.contains(5));
    (here, there)
}

/// Passes all messages from one to the other.
fn pass(from: &mut Service, from_name: &str, to: &mut Service, to_name: &str) {
    for message in sent(from, to_name) {
        assert_eq!(say(to, from_name, message), Ok(()));
    }
}

#[test]
fn an_offer_is_received_from_commit_to_result() {
    let (mut here, mut there) = offered();
    let receive = FileCommand::Receive {
        offer: FileOfferId(5),
        destination: ReceiveDestination::Cache,
    };
    there.command(receive, None, NOW, &dice(6));
    pass(&mut there, THERE, &mut here, HERE);
    assert_eq!(here.transfers.get(6).unwrap().record.state, TransferState::Committed);
    let grant = sent(&mut here, THERE);
    assert_eq!(grant.len(), 1);
    for message in grant {
        assert_eq!(say(&mut there, HERE, message), Ok(()));
    }
    assert!(matches!(
        effects(&mut there).as_slice(),
        [Effect::Receive { transfer: TransferId(6), token: Token { high: 8, low: 9 }, .. }]
    ));
    let token = Token { high: 8, low: 9 };
    assert_eq!(here.accept(&machine(THERE), TransferId(6), token, NOW), Ok(4));
    assert_eq!(
        here.accept(&machine(THERE), TransferId(6), token, NOW),
        Err(FileError::BulkNotLive)
    );
    here.completed(Completed::Sent { transfer: TransferId(6), result: Ok(()) }, NOW, &dice(0));
    assert_eq!(here.transfers.get(6).unwrap().record.state, TransferState::Verifying);
    let done = FileMessage::Result { transfer: TransferId(6), error: None };
    assert_eq!(say(&mut here, THERE, done), Ok(()));
    assert_eq!(here.transfers.get(6).unwrap().record.state, TransferState::Ready);
}

#[test]
fn each_refusal_of_a_drag_has_its_own_words() {
    let (mut here, mut there) = offered();
    let drag = NativeDragId(6);
    let unknown = NativeDragId(99);
    let refuse = |service: &mut Service, from: &str, message: FileMessage| {
        say(service, from, message).unwrap_err().text()
    };
    let prepare = FileCommand::PrepareDrag { offer: FileOfferId(5), entries: roots(&[1]) };
    assert_eq!(ask(&mut there, prepare, &dice(6)), Ok(FileReply::DragPrepared(drag)));
    pass(&mut there, THERE, &mut here, HERE);
    pass(&mut here, HERE, &mut there, THERE);
    assert!(there.drags.get(6).unwrap().prepared);
    let prepared = |drag| FileMessage::Prepared { drag };
    let dropped = |drag| FileMessage::Dropped { drag };
    let confirmed = |drag| FileMessage::DropConfirmed { drag };
    assert_eq!(refuse(&mut here, THERE, prepared(unknown)), "unknown native drag");
    assert_eq!(refuse(&mut here, OTHER, prepared(drag)), "native prepare peer mismatch");
    assert_eq!(refuse(&mut here, THERE, dropped(unknown)), "unknown native drag");
    assert_eq!(refuse(&mut here, OTHER, dropped(drag)), "native drop peer mismatch");
    assert_eq!(refuse(&mut here, THERE, confirmed(unknown)), "unknown confirmed native drop");
    assert_eq!(refuse(&mut here, OTHER, confirmed(drag)), "native drop confirmation mismatch");
    let commit = |offer, version, drag| FileMessage::Commit {
        offer: FileOfferId(offer),
        generation: version,
        transfer: TransferId(70),
        roots: roots(&[1]),
        drag,
    };
    assert_eq!(
        refuse(&mut here, THERE, commit(5, 77, Some(unknown))),
        "unknown native source lease"
    );
    assert_eq!(
        refuse(&mut here, THERE, commit(5, 77, Some(drag))),
        "native commit scope mismatch"
    );
    assert_eq!(refuse(&mut here, THERE, commit(5, 78, None)), "file commit scope mismatch");
    here.offers.get_mut(5).unwrap().source = None;
    assert_eq!(refuse(&mut here, THERE, commit(5, 77, None)), "not a source selection");
    assert_eq!(say(&mut here, THERE, dropped(drag)), Ok(()));
    here.drags.get_mut(6).unwrap().source = None;
    assert_eq!(refuse(&mut here, THERE, commit(5, 77, Some(drag))), "not a source lease");
    let again = |drag: u128, ids: &[u32]| FileMessage::Prepare {
        offer: FileOfferId(5),
        generation: 77,
        drag: NativeDragId(drag),
        roots: roots(ids),
    };
    assert_eq!(refuse(&mut here, THERE, again(6, &[1])), "native drag lease limit or replay");
    assert_eq!(refuse(&mut here, THERE, again(7, &[1])), "missing local source selection");
    assert_eq!(
        ask(&mut there, FileCommand::DropDrag { drag: unknown }, &dice(0)),
        Err("unknown or cancelled native drag".into())
    );
    let destination = ReceiveDestination::Cache;
    assert_eq!(
        ask(&mut there, FileCommand::CommitDrag { drag: unknown, destination }, &dice(0)),
        Err("unknown or cancelled native drag".into())
    );
}

#[test]
fn a_choice_of_files_is_refused_for_its_first_fault() {
    let (_, mut there) = offered();
    let mut prepare = |ids: &[u32]| {
        let entries = roots(ids);
        ask(&mut there, FileCommand::PrepareDrag { offer: FileOfferId(5), entries }, &dice(6))
    };
    assert_eq!(prepare(&[1, 9, 1]), Err(FileError::RootUnknown.text().to_string()));
    assert_eq!(prepare(&[2, 2, 9]), Err(FileError::RootRepeated.text().to_string()));
    assert_eq!(prepare(&[]), Ok(FileReply::DragPrepared(NativeDragId(6))));
    let (_, mut large) = offered();
    let record = &mut large.offers.get_mut(5).unwrap().record;
    record.manifest = Arc::new(Manifest {
        generation: 77,
        entries: vec![entry(1, u64::MAX), entry(2, 1)],
        total_bytes: 0,
    });
    let entries = roots(&[1, 2]);
    assert_eq!(
        ask(&mut large, FileCommand::PrepareDrag { offer: FileOfferId(5), entries }, &dice(6)),
        Err(FileError::ChoiceSize.text().to_string())
    );
}

#[test]
fn where_nothing_is_drawn_the_cause_is_told() {
    let receive = || FileCommand::Receive {
        offer: FileOfferId(5),
        destination: ReceiveDestination::Cache,
    };
    let why = "random identifier: no entropy".to_string();
    let (mut here, mut there) = offered();
    assert_eq!(ask(&mut there, receive(), &undrawn()), Err(why.clone()));
    assert_eq!(there.error.as_ref().unwrap().text(), why);
    assert_eq!(ask(&mut there, receive(), &dice(0)), Err("random identifier is zero".into()));
    let prepare = || FileCommand::PrepareDrag { offer: FileOfferId(5), entries: roots(&[]) };
    assert_eq!(ask(&mut there, prepare(), &undrawn()), Err(why.clone()));
    assert_eq!(ask(&mut there, prepare(), &dice(0)), Err("random identifier is zero".into()));
    let commit = || FileMessage::Commit {
        offer: FileOfferId(5),
        generation: 77,
        transfer: TransferId(9),
        roots: roots(&[]),
        drag: None,
    };
    for (dice, words) in [
        (undrawn(), why.as_str()),
        (dice_of(Ok(1), Ok(0), Ok(0)), "random identifier is zero"),
    ] {
        here.outbox.clear();
        here.handle_message(&machine(THERE), 3, commit(), NOW, &dice);
        assert_eq!(here.error.as_ref().unwrap().text(), words);
        assert!(matches!(
            sent(&mut here, THERE).as_slice(),
            [FileMessage::Reject { transfer: Some(TransferId(9)), drag: None, reason }]
                if reason.text() == words
        ));
    }
    let mut walking = service(HERE, &[THERE]);
    let recipient = machine(THERE);
    let origin = OfferOrigin::Selection;
    let offer = FileCommand::Offer { selection: selection(), recipient, origin };
    walking.command(offer, Some(1), NOW, &undrawn());
    walking.outbox.clear();
    let result = Ok(Walked { source: 4, manifest: manifest() });
    walking.completed(Completed::Enumerated { id: 1, result }, NOW, &undrawn());
    assert!(matches!(
        effects(&mut walking).as_slice(),
        [Effect::Reply { waiter: 1, result: Err(fault) }] if fault.text() == why
    ));
}

#[test]
fn what_needs_more_than_an_action_says_so() {
    let mut service = service(HERE, &[THERE]);
    let mut refuse = |command| service.action(command, NOW, &dice(1)).unwrap_err().text();
    let capture = FileCommand::CaptureClipboard { selection: selection(), generation: 1 };
    assert_eq!(refuse(capture), "operation requires command handling");
    let clear = FileCommand::ClearReceived { transfer: TransferId(1) };
    assert_eq!(refuse(clear), "operation requires command handling");
    let route = FileCommand::RouteClipboard { recipient: machine(THERE), generation: 1 };
    assert_eq!(refuse(route), "clipboard routing must run through enumeration");
    let recipient = machine(THERE);
    let origin = OfferOrigin::Selection;
    let offer = FileCommand::Offer { selection: selection(), recipient, origin };
    assert_eq!(refuse(offer), "offer must run through enumeration");
    assert_eq!(
        refuse(FileCommand::SetEnabled(true)),
        "file policy must be persisted through command handling"
    );
}

#[test]
fn a_selection_that_cannot_be_read_is_refused_in_detail() {
    let mut service = service(HERE, &[THERE]);
    let mut capture = |roots: Vec<SelectedRoot>| {
        let selection = Arc::new(LocalSelection { roots, access: None });
        ask(&mut service, FileCommand::CaptureClipboard { selection, generation: 1 }, &dice(1))
    };
    assert_eq!(capture(vec![]), Err("invalid selection root count".into()));
    let relative = SelectedRoot::Path("a".into());
    assert_eq!(capture(vec![relative]), Err("invalid local source path".into()));
    let unnamed = SelectedRoot::Open { name: "a/b".into(), file: 1 };
    assert_eq!(capture(vec![unnamed]), Err("invalid selected descriptor name".into()));
    assert_eq!(capture(vec![SelectedRoot::Path("/a".into())]), Ok(FileReply::Done));
}

#[test]
fn a_grant_for_a_peer_that_disappeared_is_refused() {
    let (_, mut there) = offered();
    let receive = FileCommand::Receive {
        offer: FileOfferId(5),
        destination: ReceiveDestination::Cache,
    };
    there.command(receive, None, NOW, &dice(6));
    there.policy.peers.clear();
    let token = Token { high: 1, low: 2 };
    let granted = there.receive_grant(&machine(HERE), 3, TransferId(6), token, NOW);
    assert_eq!(granted.unwrap_err().text(), "peer disappeared");
    assert_eq!(
        say(&mut there, HERE, FileMessage::Grant { transfer: TransferId(6), token }),
        Err(FileError::NotAuthorized)
    );
}

#[test]
fn a_failed_worker_is_shown_with_its_cause_and_stops_everything() {
    let (_, mut there) = offered();
    let receive = FileCommand::Receive {
        offer: FileOfferId(5),
        destination: ReceiveDestination::Cache,
    };
    there.command(receive, None, NOW, &dice(6));
    there.worker_failed("task 3 panicked");
    assert_eq!(there.error.as_ref().unwrap().text(), "file worker failed: task 3 panicked");
    let record = &there.transfers.get(6).unwrap().record;
    assert_eq!(record.state, TransferState::Cancelled);
    assert_eq!(record.error.as_ref().unwrap().text(), "file worker failed");
}

#[test]
fn walks_are_bounded() {
    let mut service = service(HERE, &[THERE]);
    let offer = || FileCommand::Offer {
        selection: selection(),
        recipient: machine(THERE),
        origin: OfferOrigin::Selection,
    };
    for _ in 0..MAX_ENUMERATIONS {
        service.command(offer(), Some(2), NOW, &dice(1));
    }
    assert_eq!(
        ask(&mut service, offer(), &dice(1)),
        Err("file enumeration limit reached".into())
    );
    let known = Fault::Known(FileError::EnumerationLimit);
    assert_eq!(service.error.as_ref().unwrap().text(), known.text());
}
