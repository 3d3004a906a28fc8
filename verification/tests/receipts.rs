use splice_core::files::claims::{
    compare, resume_claim, ClaimFault, ClaimStep, Found, StageSeen, StageStep,
};
use splice_core::files::desk::CACHE_QUOTA;
use splice_core::files::keeping::{
    check_journal, check_link, confined, count_all, load_enabled, restore_access, save_enabled,
    verify_owned, Errand, KeepingFault, Tally, Thing,
};
use splice_core::files::places::{
    holder_name, journal_name, journal_path, receipt_id, receipt_path, record_kind, staging_name,
    text_of, Place, RecordKind,
};
use splice_core::files::publication::{finishing_order, has_room, root_entry, ways, RecoverStep};
use splice_core::files::receipts::{Claim, Identity, PublishedRoot, Receipt, StorageFault};
use splice_core::files::records::{
    EntryId, EntryKind, FileTimestamp, Manifest, ManifestEntry, TransferDirection, TransferId,
    TransferState,
};
use splice_core::files::recovery::{bounded_entries, Outcome, Recovery, ScanStep, Sighting};
use std::sync::Arc;

const ID: TransferId = TransferId(0x0123_4567_89ab_cdef_0123_4567_89ab_cdef);
const HEX: &str = "0123456789abcdef0123456789abcdef";

fn place(text: &str) -> Place {
    Place {
        absolute: text.starts_with('/'),
        names: text.split('/').filter(|name| !name.is_empty()).map(String::from).collect(),
    }
}

fn shown(place: &Place) -> String {
    let way = place.names.join("/");
    if place.absolute {
        format!("/{way}")
    } else {
        way
    }
}

fn all_shown(places: &[Place]) -> Vec<String> {
    places.iter().map(shown).collect()
}

fn entry(id: u32, parent: Option<u32>, name: &str, kind: EntryKind) -> ManifestEntry {
    ManifestEntry {
        id: EntryId(id),
        parent: parent.map(EntryId),
        name: name.into(),
        kind,
        mode: 0o700,
        modified: FileTimestamp { seconds: 1_700_000_000, nanos: 0 },
    }
}

fn two_files() -> Manifest {
    Manifest {
        generation: 1,
        entries: vec![
            entry(0, None, "first", EntryKind::File { size: 3 }),
            entry(1, None, "second", EntryKind::File { size: 3 }),
        ],
        total_bytes: 6,
    }
}

fn identity(ino: u64) -> Identity {
    Identity { dev: 1, ino }
}

fn base() -> Place {
    place("/cache")
}

fn receipt(cached: bool) -> Receipt {
    Receipt {
        id: ID,
        direction: TransferDirection::Receive,
        state: TransferState::Receiving,
        bytes: 0,
        total_bytes: 6,
        paths: vec![],
        error: None,
        cached,
        manifest: Arc::new(two_files()),
        directory: if cached { receipt_path(&base(), ID) } else { place("/home/user") },
        staging: staging_name(ID),
        roots: vec![],
        stage_identity: Some(identity(50)),
        clearing: false,
        claim: None,
    }
}

fn published(cached: bool) -> Receipt {
    let mut receipt = receipt(cached);
    receipt.begin_publication(&vec![identity(10), identity(11)]);
    assert_eq!(receipt.state, TransferState::Verifying);
    receipt.publish(0);
    receipt.publish(1);
    receipt.finish();
    receipt
}

fn check(receipt: &Receipt) -> Result<(), StorageFault> {
    receipt.check(&base(), &journal_name(ID), true)
}

#[test]
fn names_spell_the_transfer() {
    assert_eq!(text_of(ID.0), HEX);
    assert_eq!(staging_name(ID), format!(".splice-{HEX}.partial"));
    assert_eq!(holder_name(ID), format!(".splice-{HEX}.cleanup"));
    assert_eq!(journal_name(ID), format!("{HEX}.json"));
    assert_eq!(shown(&journal_path(&base(), ID)), format!("/cache/records/{HEX}.json"));
    assert_eq!(shown(&receipt_path(&base(), ID)), format!("/cache/received/{HEX}"));
    assert_eq!(receipt_id(&journal_name(ID)), Some(ID));
    assert_eq!(receipt_id(&HEX.to_uppercase()), Some(ID));
    assert_eq!(receipt_id(&format!("{HEX}.json.ff.bad")), Some(ID));
    assert_eq!(receipt_id("0123.json"), None);
    assert_eq!(receipt_id(&format!("{}g.json", &HEX[1..])), None);
    assert_eq!(record_kind("a.json"), RecordKind::Journal);
    assert_eq!(record_kind("a.json.00.bad"), RecordKind::Quarantined);
    assert_eq!(record_kind("a.tmp"), RecordKind::Other);
    assert_eq!(record_kind(".json"), RecordKind::Other);
    assert_eq!(record_kind("json"), RecordKind::Other);
}

#[test]
fn a_receipt_is_believed_only_if_everything_fits() {
    assert_eq!(check(&published(true)), Ok(()));
    assert_eq!(check(&published(false)), Ok(()));
    let good = published(true);
    assert_eq!(good.check(&base(), &journal_name(ID), false), Err(StorageFault::Manifest));
    assert_eq!(good.check(&base(), "other.json", true), Err(StorageFault::Identity));
    assert_eq!(
        good.check(&place("/elsewhere"), &journal_name(ID), true),
        Err(StorageFault::CacheLocation)
    );
    let mut bad = published(false);
    bad.directory.absolute = false;
    assert_eq!(check(&bad), Err(StorageFault::Location));
    let mut bad = published(true);
    bad.staging = ".splice-other.partial".into();
    assert_eq!(check(&bad), Err(StorageFault::Location));
    let mut bad = published(true);
    bad.claim = Some(Claim {
        original: place("/a/b"),
        holder: place("/c/d"),
        name: HEX.into(),
        identity: identity(1),
    });
    assert_eq!(check(&bad), Err(StorageFault::Claim));
    let mut bad = published(true);
    bad.bytes = 7;
    assert_eq!(check(&bad), Err(StorageFault::Progress));
    let mut bad = published(true);
    bad.roots.push(PublishedRoot { name: "third".into(), identity: identity(12) });
    assert_eq!(check(&bad), Err(StorageFault::Roots));
    let mut bad = published(true);
    bad.roots.push(PublishedRoot { name: "first".into(), identity: identity(12) });
    assert_eq!(check(&bad), Err(StorageFault::Roots));
    let mut bad = published(true);
    bad.paths[1] = place("/cache/received/elsewhere");
    assert_eq!(check(&bad), Err(StorageFault::Paths));
    let mut bad = published(true);
    bad.paths[1] = bad.paths[0].clone();
    assert_eq!(check(&bad), Err(StorageFault::Paths));
    assert_eq!(StorageFault::Paths.text(), "invalid published receipt path");
}

#[test]
fn an_interrupted_receive_is_ready_only_with_all_its_files() {
    let mut whole = receipt(false);
    whole.begin_publication(&vec![identity(10), identity(11)]);
    assert_eq!(whole.recover_journal(), RecoverStep::Look);
    assert!(!whole.knows(0));
    whole.recover(&vec![Found::Same, Found::Same], None);
    assert_eq!(whole.state, TransferState::Ready);
    assert_eq!(whole.bytes, whole.total_bytes);
    assert_eq!(all_shown(&whole.paths), ["/home/user/first", "/home/user/second"]);
    assert_eq!(whole.recover_journal(), RecoverStep::Tidy);
    assert_eq!(check(&whole), Ok(()));

    let mut part = receipt(false);
    part.begin_publication(&vec![identity(10), identity(11)]);
    part.recover(&vec![Found::Same, Found::Other], None);
    assert_eq!(part.state, TransferState::Failed);
    assert_eq!(all_shown(&part.paths), ["/home/user/first"]);
    assert_eq!(
        part.error.as_deref(),
        Some("service stopped before receive completed; explicit Retry required")
    );

    let mut unset = receipt(false);
    unset.begin_publication(&vec![identity(10), identity(11)]);
    unset.recover(&vec![Found::Same, Found::Same], Some("denied"));
    assert_eq!(unset.state, TransferState::Failed);
    assert_eq!(
        unset.error.as_deref(),
        Some(
            "service stopped before published directory metadata was recorded: denied; explicit Retry required"
        )
    );

    let mut none = receipt(false);
    none.recover(&vec![], None);
    assert_eq!(none.state, TransferState::Failed);
    none.clearing = true;
    assert_eq!(none.recover_journal(), RecoverStep::Clear);
}

#[test]
fn a_failure_keeps_what_is_in_place() {
    let mut failed = receipt(false);
    failed.begin_publication(&vec![identity(10), identity(11)]);
    failed.publish(0);
    failed.fail("destination exists".into(), false, 6, &vec![Found::Same, Found::Other]);
    assert_eq!(failed.state, TransferState::Failed);
    assert_eq!(all_shown(&failed.paths), ["/home/user/first"]);
    assert_eq!(failed.error.as_deref(), Some("destination exists"));
    let mut cancelled = receipt(false);
    cancelled.fail("cancelled".into(), true, 6, &vec![]);
    assert_eq!(cancelled.state, TransferState::Cancelled);
    assert!(cancelled.paths.is_empty());
}

#[test]
fn claims_are_resumed_by_identity() {
    let claim = Claim {
        original: place("/a/b"),
        holder: place("/a/h"),
        name: HEX.into(),
        identity: identity(5),
    };
    let step = |holder, held, original| resume_claim(&claim, holder, held, original);
    assert_eq!(step(true, Some(identity(5)), None), Ok(ClaimStep::Remove));
    assert_eq!(step(true, Some(identity(6)), None), Err(ClaimFault::Replaced));
    assert_eq!(
        step(true, None, Some(identity(5))),
        Ok(ClaimStep::Move { make_holder: false })
    );
    assert_eq!(
        step(false, None, Some(identity(5))),
        Ok(ClaimStep::Move { make_holder: true })
    );
    assert_eq!(step(false, None, Some(identity(6))), Err(ClaimFault::Missing));
    assert_eq!(step(true, None, None), Ok(ClaimStep::Forget { remove_holder: true }));
    assert_eq!(step(false, None, None), Ok(ClaimStep::Forget { remove_holder: false }));
    assert_eq!(
        claim.complaint(ClaimFault::Replaced),
        format!("claimed entry /a/h/{HEX} was replaced; preserved for inspection")
    );
    assert_eq!(
        claim.complaint(ClaimFault::Missing),
        format!(
            "claimed entry /a/h/{HEX} is missing and /a/b was replaced; preserved for inspection"
        )
    );
    assert_eq!(compare(identity(1), None), Found::Missing);
    assert_eq!(compare(identity(1), Some(identity(2))), Found::Other);
    assert_eq!(compare(identity(1), Some(identity(1))), Found::Same);
}

#[test]
fn a_receipt_stays_valid_through_its_removal() {
    let mut receipt = published(true);
    let seen = vec![Found::Same, Found::Missing];
    assert_eq!(receipt.clear_journal(&base(), Some(identity(9)), &seen), Ok(()));
    assert_eq!(
        receipt.clear_journal(&base(), Some(identity(9)), &vec![Found::Other, Found::Same]),
        Err(StorageFault::Published)
    );
    receipt.begin_clear();
    assert!(receipt.clearing);
    receipt.claim_entry(&base().join("received"), HEX, 0xff, identity(9));
    assert_eq!(check(&receipt), Ok(()));
    assert!(receipt.has_claim_on(&receipt_path(&base(), ID)));
    let claim = receipt.claim.as_ref().unwrap();
    assert_eq!(shown(&claim.holder), format!("/cache/received/.splice-{HEX}.cleanup"));
    assert_eq!(claim.name, format!("{:032x}", 0xff));

    receipt.retain_claim(&base(), &seen);
    assert_eq!(check(&receipt), Ok(()));
    let moved = format!("/cache/received/.splice-{HEX}.cleanup/{:032x}", 0xff);
    assert_eq!(shown(&receipt.directory), moved);
    assert_eq!(all_shown(&receipt.paths), [format!("{moved}/first")]);
    assert_eq!(
        receipt.clear_journal(&base(), Some(identity(8)), &seen),
        Err(StorageFault::Relocated)
    );
    assert_eq!(receipt.clear_journal(&base(), Some(identity(9)), &seen), Ok(()));

    receipt.complete_claim();
    assert_eq!(check(&receipt), Ok(()));
    assert_eq!(shown(&receipt.directory), format!("/cache/received/{HEX}"));
    assert!(receipt.paths.is_empty());
    assert!(receipt.claim.is_none());

    receipt.clear_failed(&"x".repeat(2000));
    assert!(!receipt.clearing);
    assert_eq!(receipt.error.as_ref().unwrap().len(), 1024);
    assert!(receipt.error.as_ref().unwrap().starts_with("clear failed: xxx"));
    receipt.directory = place("/cache/received/other");
    assert_eq!(
        receipt.clear_journal(&base(), None, &seen),
        Err(StorageFault::DirectoryMismatch)
    );
}

#[test]
fn what_comes_in_is_removed_only_if_it_is_known() {
    let stage = StageSeen { directory: true, identity: identity(50), owned: true, private: true };
    let mut receipt = receipt(false);
    assert_eq!(receipt.cleanup_staging(None), Ok(StageStep::Nothing));
    assert_eq!(receipt.cleanup_staging(Some(stage)), Ok(StageStep::Remove));
    let other = StageSeen { identity: identity(51), ..stage };
    assert_eq!(receipt.cleanup_staging(Some(other)), Err(StorageFault::StagingChanged));
    receipt.stage_identity = None;
    assert_eq!(receipt.cleanup_staging(Some(other)), Ok(StageStep::RemoveEmpty));
    let open = StageSeen { private: false, ..stage };
    assert_eq!(receipt.cleanup_staging(Some(open)), Err(StorageFault::StagingUnknown));
    let staging = receipt.staging.clone();
    let directory = receipt.directory.clone();
    receipt.claim_entry(&directory, &staging, 1, identity(50));
    assert_eq!(receipt.cleanup_staging(Some(open)), Ok(StageStep::Resume));
    receipt.drop_claim();
    receipt.staging = "else".into();
    assert_eq!(receipt.cleanup_staging(None), Err(StorageFault::StagingName));
}

#[test]
fn a_start_brings_everything_in_view_that_can_be() {
    let mut recovery = Recovery::new();
    let journal = Sighting::Record { name: journal_name(ID) };
    assert_eq!(recovery.observe(journal), ScanStep::Load);
    let temporary = Sighting::Record { name: "x.tmp".into() };
    assert_eq!(recovery.observe(temporary), ScanStep::Nothing);
    assert_eq!(recovery.error_count, 0);
    recovery.observe(Sighting::Record { name: format!("{HEX}.json.aa.bad") });
    assert_eq!(recovery.errors[0].transfer, Some(ID));
    assert_eq!(
        recovery.errors[0].message,
        format!("Quarantined receipt journal {HEX}.json.aa.bad; data retained")
    );
    recovery.observe(Sighting::Unloadable {
        name: "x.json".into(),
        error: "corrupt".into(),
        quarantined: Ok("x.json.bb.bad".into()),
    });
    assert_eq!(
        recovery.errors[1].message,
        "Quarantined receipt x.json.bb.bad: corrupt; data retained"
    );
    recovery.observe(Sighting::Unloadable {
        name: "x.json".into(),
        error: "corrupt".into(),
        quarantined: Err("denied".into()),
    });
    assert_eq!(
        recovery.errors[2].message,
        "Cannot quarantine receipt x.json: corrupt; denied; data retained"
    );
    assert_eq!(recovery.errors[2].transfer, None);
    let gone = Sighting::Loaded { receipt: published(true), outcome: Outcome::Gone };
    assert_eq!(recovery.observe(gone), ScanStep::Nothing);
    assert!(recovery.receipts.is_empty());
    let kept = Sighting::Loaded { receipt: published(true), outcome: Outcome::Kept };
    assert_eq!(recovery.observe(kept), ScanStep::Nothing);
    assert_eq!(recovery.receipts.len(), 1);
    let failed = Sighting::Failed { transfer: ID, why: "busy".into() };
    assert_eq!(recovery.observe(failed), ScanStep::Save);
    assert_eq!(recovery.receipts.len(), 1);
    let mut troubled = receipt(false);
    troubled.trouble("busy");
    let noted = Sighting::Noted { receipt: troubled, unsaved: Some("full".into()) };
    assert_eq!(recovery.observe(noted), ScanStep::Nothing);
    let told: Vec<&str> =
        recovery.errors[3..].iter().map(|issue| issue.message.as_str()).collect();
    assert_eq!(
        told,
        vec!["receipt recovery: busy", "cannot persist receipt diagnostic: full"]
    );
    assert_eq!(recovery.receipts[1].state, TransferState::Failed);
    assert_eq!(recovery.receipts[1].error.as_deref(), Some("receipt recovery: busy"));
    assert_eq!(recovery.cleanup_failures, vec![ID]);
    recovery.observe(Sighting::RecordsOver { truncated: true });
    recovery.observe(Sighting::RecordsOver { truncated: false });
    recovery.observe(Sighting::RecordUnlisted { error: "io".into() });
    assert_eq!(recovery.error_count, 7);

    let known = Sighting::Cached { place: receipt_path(&base(), ID) };
    assert_eq!(recovery.observe(known), ScanStep::Nothing);
    let stray = Sighting::Cached { place: place("/cache/received/stray") };
    assert_eq!(recovery.observe(stray), ScanStep::Inspect);
    recovery.observe(Sighting::Inventory { name: "stray".into(), bytes: 0, empty: true });
    assert_eq!(recovery.error_count, 7);
    recovery.observe(Sighting::Inventory { name: HEX.into(), bytes: 17, empty: false });
    assert_eq!(recovery.untracked_cache_bytes, 17);
    assert_eq!(recovery.error_count, 8);
    recovery.observe(Sighting::Uncounted { name: HEX.into(), error: "denied".into() });
    assert_eq!(recovery.untracked_cache_bytes, CACHE_QUOTA);
    recovery.observe(Sighting::CacheUnlisted { error: "io".into() });
    recovery.observe(Sighting::CacheOver { truncated: true });
    assert_eq!(recovery.error_count, 11);
    for _ in 0..40 {
        recovery.report(None, &"y".repeat(3000));
    }
    assert_eq!(recovery.errors.len(), 32);
    assert_eq!(recovery.errors[31].message.len(), 1024);
    assert_eq!(recovery.error_count, 51);
}

#[test]
fn views_and_scans_are_bounded() {
    let mut recovery = Recovery::new();
    for n in 0..256 {
        let mut receipt = published(true);
        receipt.id = TransferId(n);
        assert_eq!(recovery.overflows(&receipt), false);
        recovery.observe(Sighting::Loaded { receipt, outcome: Outcome::Kept });
    }
    assert!(recovery.overflows(&receipt(true)));
    assert!(!recovery.overflows(&published(true)));
    recovery.observe(Sighting::Loaded { receipt: published(true), outcome: Outcome::Kept });
    assert_eq!(recovery.receipts.len(), 256);
    assert_eq!(recovery.error_count, 1);
    assert_eq!(bounded_entries(10), (10, false));
    assert_eq!(bounded_entries(1024), (1024, false));
    assert_eq!(bounded_entries(1025), (1024, true));
}

#[test]
fn entries_are_reached_through_their_directories() {
    let manifest = Manifest {
        generation: 1,
        entries: vec![
            entry(0, None, "root", EntryKind::Directory),
            entry(1, Some(0), "nested", EntryKind::Directory),
            entry(2, Some(1), "link", EntryKind::Symlink { target: "../script".into() }),
            entry(3, Some(0), "script", EntryKind::File { size: 10 }),
        ],
        total_bytes: 10,
    };
    let all = ways(&manifest).unwrap();
    assert_eq!(all_shown(&all), ["root", "root/nested", "root/nested/link", "root/script"]);
    assert_eq!(finishing_order(&manifest), vec![3, 2, 1]);
    assert_eq!(root_entry(&manifest, &"root".into()), Some(0));
    assert_eq!(root_entry(&manifest, &"nested".into()), None);
    let orphan = Manifest {
        generation: 1,
        entries: vec![entry(1, Some(0), "lost", EntryKind::Directory)],
        total_bytes: 0,
    };
    assert!(ways(&orphan).is_none());
}

#[test]
fn room_is_kept_free() {
    assert!(has_room(5, 4096, 4096) == false);
    assert!(has_room(4097, 4096, 4096));
    assert!(!has_room(4096, 4096, 4096));
    assert!(has_room(u64::MAX, u64::MAX, u64::MAX));
}

#[test]
fn a_choice_survives_a_restart() {
    assert_eq!(load_enabled(&None), Ok(true));
    for enabled in [true, false] {
        let bytes = save_enabled(enabled).unwrap();
        assert_eq!(load_enabled(&Some(bytes)), Ok(enabled));
    }
    assert_eq!(save_enabled(true), Some(b"true".to_vec()));
    assert_eq!(load_enabled(&Some(b" false\n".to_vec())), Ok(false));
    assert_eq!(load_enabled(&Some(b"maybe".to_vec())), Err(KeepingFault::Choice));
    assert_eq!(load_enabled(&Some(b"true true".to_vec())), Err(KeepingFault::Choice));
    let long = b"true             ".to_vec();
    assert_eq!(load_enabled(&Some(long)), Err(KeepingFault::Choice));
}

#[test]
fn what_is_looked_at_is_bounded() {
    let errand = Errand::Inventory;
    let mut tally = Tally { errand, remaining: 2, bytes: 0 };
    let things = vec![Thing::File { bytes: 5 }, Thing::Directory];
    assert_eq!(count_all(&mut tally, &things), Ok(()));
    assert_eq!(tally, Tally { errand, remaining: 0, bytes: 5 });
    assert_eq!(tally.count(Thing::Other), Err(KeepingFault::InventoryEntries));
    let mut short = Tally { errand, remaining: 2, bytes: 0 };
    let many = vec![Thing::File { bytes: 5 }, Thing::Directory, Thing::File { bytes: 7 }];
    assert_eq!(count_all(&mut short, &many), Err(KeepingFault::InventoryEntries));
    assert_eq!(short, Tally { errand, remaining: 0, bytes: 5 });
    let mut close = Tally { errand, remaining: 9, bytes: u64::MAX - 6 };
    assert_eq!(count_all(&mut close, &many), Err(KeepingFault::Overflow));
    assert_eq!(close, Tally { errand, remaining: 7, bytes: u64::MAX - 1 });
    let mut full = Tally { errand, remaining: 2, bytes: u64::MAX };
    assert_eq!(full.count(Thing::File { bytes: 1 }), Err(KeepingFault::Overflow));
    assert_eq!(full.count(Thing::Directory), Ok(()));
    assert_eq!(tally.descend(34), Ok(()));
    assert_eq!(tally.descend(35), Err(KeepingFault::InventoryDepth));
    let mut cleanup = Tally::for_cleanup();
    assert_eq!(cleanup.descend(34), Ok(()));
    assert_eq!(cleanup.descend(35), Err(KeepingFault::CleanupDepth));
    assert_eq!(cleanup.count(Thing::File { bytes: u64::MAX }), Ok(()));
    assert_eq!(cleanup.bytes, 0);
    cleanup.remaining = 0;
    assert_eq!(cleanup.count(Thing::Other), Err(KeepingFault::CleanupEntries));
    let mut preflight = Tally::for_preflight();
    assert_eq!(preflight.remaining, Tally::for_cleanup().remaining);
    assert_eq!(preflight.descend(35), Ok(()));
    preflight.remaining = 0;
    assert_eq!(preflight.count(Thing::Directory), Err(KeepingFault::ReceiptEntries));
    assert_eq!(KeepingFault::CleanupDepth.text(), "cleanup depth limit reached");
    assert_eq!(KeepingFault::CleanupEntries.text(), "cleanup entry limit reached");
    assert_eq!(KeepingFault::InventoryDepth.text(), "cache inventory depth limit reached");
    assert_eq!(KeepingFault::InventoryEntries.text(), "cache inventory entry limit reached");
    assert_eq!(KeepingFault::ReceiptEntries.text(), "receipt cleanup entry limit reached");
    assert_eq!(check_journal(true, 2 * 1024 * 1024), Ok(()));
    assert_eq!(check_journal(true, 2 * 1024 * 1024 + 1), Err(KeepingFault::Journal));
    assert_eq!(check_journal(false, 1), Err(KeepingFault::Journal));
    assert_eq!(check_link(0), Err(KeepingFault::Link));
    assert_eq!(check_link(4096), Ok(()));
    assert_eq!(check_link(4097), Err(KeepingFault::Link));
    assert_eq!(confined(&place("a/b")), Ok(()));
    assert_eq!(confined(&place("a/../b")), Err(KeepingFault::Leaves));
    assert_eq!(confined(&place("/a")), Err(KeepingFault::Leaves));
    assert_eq!(verify_owned(true, true, true), Ok(()));
    assert_eq!(verify_owned(true, false, true), Err(KeepingFault::NotOwned));
    assert_eq!(verify_owned(true, true, false), Err(KeepingFault::Changed));
    assert_eq!(KeepingFault::Changed.text(), "owned directory identity changed");
    assert_eq!(restore_access(0o40700), None);
    assert_eq!(restore_access(0o40055), Some(0o755));
}
