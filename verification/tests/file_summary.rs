use serde_json::Value;
use splice_core::files::records::{
    EntryId, EntryKind, Fault, FileError, FileOfferId, FileState, FileTimestamp, Manifest,
    ManifestEntry, OfferOrigin, OfferRecord, OfferState, RecoveryIssue, TransferDirection,
    TransferId, TransferRecord, TransferState,
};
use splice_core::files::snapshot::{FileSummary, OfferSummary, TransferSummary, Wait};
use splice_core::machine::MachineId;
use std::sync::Arc;

fn bytes(id: u128) -> Value {
    Value::Array(id.to_be_bytes().iter().map(|byte| Value::from(*byte)).collect())
}

fn object(fields: Vec<(&str, Value)>) -> Value {
    let mut map = serde_json::Map::new();
    for (name, value) in fields {
        map.insert(name.to_string(), value);
    }
    Value::Object(map)
}

fn entry(entry: &ManifestEntry) -> Value {
    let EntryKind::File { size } = entry.kind else { unreachable!() };
    object(vec![
        ("id", Value::from(entry.id.0)),
        ("parent", Value::Null),
        ("name", Value::from(entry.name.as_str())),
        ("kind", object(vec![("File", object(vec![("size", Value::from(size))]))])),
        ("mode", Value::from(entry.mode)),
        (
            "modified",
            object(vec![
                ("seconds", Value::from(entry.modified.seconds)),
                ("nanos", Value::from(entry.modified.nanos)),
            ]),
        ),
    ])
}

fn offer(offer: &OfferSummary) -> Value {
    object(vec![
        ("id", bytes(offer.id.0)),
        ("owner", Value::from(offer.owner.0.as_str())),
        ("recipient", Value::from(offer.recipient.0.as_str())),
        ("origin", Value::from("Selection")),
        ("state", Value::from("Available")),
        ("expires_unix_ms", Value::from(offer.expires_unix_ms)),
        ("roots", Value::Array(offer.roots.iter().map(entry).collect())),
        ("root_count", Value::from(offer.root_count)),
        ("entry_count", Value::from(offer.entry_count)),
        ("total_bytes", Value::from(offer.total_bytes)),
    ])
}

fn transfer(transfer: &TransferSummary) -> Value {
    object(vec![
        ("id", bytes(transfer.id.0)),
        ("offer", bytes(transfer.offer.0)),
        ("peer", Value::from(transfer.peer.0.as_str())),
        ("direction", Value::from("Receive")),
        ("state", Value::from("Cancelled")),
        ("bytes", Value::from(transfer.bytes)),
        ("total_bytes", Value::from(transfer.total_bytes)),
        ("error", Value::from(transfer.error.as_deref())),
    ])
}

fn encoded(summary: &FileSummary) -> Vec<u8> {
    let issues = summary.recovery_errors.iter().map(|issue| {
        object(vec![
            ("transfer", bytes(issue.transfer.unwrap().0)),
            ("message", Value::from(issue.message.as_str())),
        ])
    });
    let value = object(vec![
        ("recovery_errors", Value::Array(issues.collect())),
        ("recovery_error_count", Value::from(summary.recovery_error_count)),
        ("offers", Value::Array(summary.offers.iter().map(offer).collect())),
        ("transfers", Value::Array(summary.transfers.iter().map(transfer).collect())),
        ("error", Value::from(summary.error.as_deref())),
        ("enabled", Value::from(summary.enabled)),
        ("payload_bytes_sent", Value::from(summary.payload_bytes_sent)),
        ("payload_bytes_received", Value::from(summary.payload_bytes_received)),
    ]);
    serde_json::to_vec(&value).unwrap()
}

fn repeated(byte: u8) -> u128 {
    u128::from_be_bytes([byte; 16])
}

#[test]
fn maximal_compact_file_summary_fits_ipc_budget() {
    let mut state = FileState::default();
    for n in 0..16u8 {
        state.offers.push(OfferRecord {
            id: FileOfferId(repeated(n)),
            owner: MachineId("\u{1}".repeat(256)),
            recipient: MachineId("\u{2}".repeat(256)),
            origin: OfferOrigin::Selection,
            state: OfferState::Available,
            expires_unix_ms: u64::MAX,
            manifest: Arc::new(Manifest {
                generation: repeated(255),
                total_bytes: u64::MAX,
                entries: (0..128)
                    .map(|id| ManifestEntry {
                        mode: 0o700,
                        modified: FileTimestamp { seconds: 1_700_000_000, nanos: 0 },
                        id: EntryId(id),
                        parent: None,
                        name: "\u{3}".repeat(255),
                        kind: EntryKind::File { size: u64::MAX },
                    })
                    .collect(),
            }),
        });
    }
    for n in 0..256 {
        state.transfers.push(TransferRecord {
            id: TransferId(repeated(n as u8)),
            offer: FileOfferId(repeated(255)),
            peer: MachineId("\u{1}".repeat(256)),
            direction: TransferDirection::Receive,
            state: TransferState::Cancelled,
            bytes: u64::MAX,
            total_bytes: u64::MAX,
            paths: Some(Arc::new(vec!["secret-local-path".to_string(); 128])),
            error: Some(Fault::Said("\u{2}".repeat(1024))),
        });
    }
    state.recovery_errors = (0..32)
        .map(|_| RecoveryIssue {
            transfer: Some(TransferId(repeated(255))),
            message: "\u{1}".repeat(1024),
        })
        .collect();
    state.recovery_error_count = 32;
    let summary = FileSummary::from(&state);
    let encoded = encoded(&summary);
    assert!(encoded.len() < 900 * 1024, "{}", encoded.len());
    assert!(!String::from_utf8(encoded).unwrap().contains("secret-local-path"));
    assert_eq!(summary.offers[0].root_count, 128);
    assert_eq!(summary.offers[0].roots.len(), 8);
}

fn record(state: TransferState, error: Option<Fault>) -> TransferRecord {
    TransferRecord {
        id: TransferId(7),
        offer: FileOfferId(1),
        peer: MachineId("peer".into()),
        direction: TransferDirection::Receive,
        state,
        bytes: 0,
        total_bytes: 10,
        paths: None,
        error,
    }
}

#[test]
fn a_wait_ends_with_the_transfer() {
    let mut state = FileState::default();
    assert!(matches!(
        state.wait(TransferId(7)),
        Wait::Over(Fault::Known(FileError::UnknownTransfer))
    ));
    state.transfers.push(record(TransferState::Receiving, None));
    assert!(matches!(state.wait(TransferId(7)), Wait::Pending));
    state.transfers[0] = record(TransferState::Ready, None);
    assert!(matches!(state.wait(TransferId(7)), Wait::Ready(_)));
    state.transfers[0] = record(TransferState::Failed, Some(Fault::Said("lost".into())));
    assert!(matches!(state.wait(TransferId(7)), Wait::Over(fault) if fault.text() == "lost"));
}

#[test]
fn a_stopped_service_fails_what_was_under_way() {
    let mut state = FileState { enabled: true, ..FileState::default() };
    state.transfers.push(record(TransferState::Receiving, None));
    state.transfers.push(record(TransferState::Ready, None));
    state.halt("no network");
    assert!(!state.enabled);
    assert_eq!(state.error.as_ref().unwrap().text(), "file service: no network");
    assert_eq!(state.transfers[0].state, TransferState::Failed);
    assert_eq!(state.transfers[0].error.as_ref().unwrap().text(), "file service: no network");
    assert_eq!(state.transfers[1].state, TransferState::Ready);
    assert!(state.transfers[1].error.is_none());
}

#[test]
fn faults_are_told_in_words_and_cut_at_a_character() {
    assert_eq!(FileError::QuotaExceeded.text(), "retained file cache quota exceeded");
    let long = "\u{e9}".repeat(60);
    let fault = Fault::said(&long);
    assert_eq!(fault.text(), long);
    assert_eq!(fault.shown(), "\u{e9}".repeat(48));
    assert_eq!(Fault::said(&"x".repeat(2000)).text().len(), 1024);
}
