use sha2::{Digest, Sha256};
use splice_core::files::completion::{dice_of, random_failure, roll};
use splice_core::files::desk::{Delivery, Undrawn};
use splice_core::files::guard::{next_backoff, Guard, FIRST_BACKOFF_MS};
use splice_core::files::records::{
    EntryId, EntryKind, FileError, FileOfferId, FileTimestamp, Manifest, ManifestEntry, PeerPolicy,
    Policy, Token, TransferDirection, TransferId, TransferRecord, TransferState,
};
use splice_core::files::stream::{accept_stream, open_stream, Got, Intake, Outlet, StreamFault};
use splice_core::input_transport::socket::Ip;
use splice_core::machine::MachineId;
use std::sync::Arc;

fn file(id: u32, size: u64) -> ManifestEntry {
    ManifestEntry {
        id: EntryId(id),
        parent: None,
        name: format!("file-{id}"),
        kind: EntryKind::File { size },
        mode: 0o700,
        modified: FileTimestamp { seconds: 1_700_000_000, nanos: 0 },
    }
}

fn directory(id: u32) -> ManifestEntry {
    ManifestEntry { kind: EntryKind::Directory, ..file(id, 0) }
}

fn manifest(entries: Vec<ManifestEntry>) -> Manifest {
    let total_bytes = entries
        .iter()
        .map(|entry| match entry.kind {
            EntryKind::File { size } => size,
            _ => 0,
        })
        .sum();
    Manifest { generation: 2, entries, total_bytes }
}

fn token(byte: u8) -> Token {
    let number = u128::from_be_bytes([byte; 16]);
    Token { high: number, low: number }
}

/// Hands a whole stream to a receiver, in pieces of at most `piece` bytes.
fn receive(manifest: &Manifest, stream: &[u8], piece: usize) -> Result<Vec<Vec<u8>>, StreamFault> {
    let mut intake = Intake::new(manifest);
    let mut files: Vec<Vec<u8>> = vec![];
    let mut rest = stream;
    loop {
        if intake.opens().is_some() {
            files.push(vec![]);
            intake.open();
            continue;
        }
        let n = intake.wants().min(piece).min(rest.len());
        let bytes = rest[..n].to_vec();
        rest = &rest[n..];
        match intake.take(&bytes)? {
            Got::Keep => files.last_mut().unwrap().extend(&bytes),
            Got::Complete => return Ok(files),
            Got::More | Got::Settle(_) | Got::Sealed => {}
        }
    }
}

#[test]
fn corrupt_truncated_and_extended_streams_never_publish_unverified_files() {
    let manifest = manifest(vec![file(0, 7)]);
    for mode in ["valid", "hash", "truncated", "trailing"] {
        let mut stream = b"payload".to_vec();
        if mode != "truncated" {
            let digest: [u8; 32] =
                if mode == "hash" { [0; 32] } else { Sha256::digest(b"payload").into() };
            stream.extend(digest);
            stream.extend(b"DONE");
            if mode == "trailing" {
                stream.extend(b"extra");
            }
        }
        for piece in [1, 3, 100] {
            let result = receive(&manifest, &stream, piece);
            match mode {
                "valid" => assert_eq!(result, Ok(vec![b"payload".to_vec()])),
                "hash" => assert_eq!(result, Err(StreamFault::Mismatch)),
                "truncated" => assert_eq!(result, Err(StreamFault::Cut)),
                _ => assert_eq!(result, Err(StreamFault::Trailing)),
            }
        }
    }
    assert_eq!(receive(&manifest, b"payl", 100), Err(StreamFault::Truncated));
    let mut unsealed = b"payload".to_vec();
    let digest: [u8; 32] = Sha256::digest(b"payload").into();
    unsealed.extend(digest);
    unsealed.extend(b"NONE");
    assert_eq!(receive(&manifest, &unsealed, 100), Err(StreamFault::Unsealed));
    assert_eq!(StreamFault::Mismatch.text(), "file SHA-256 mismatch");
}

#[test]
fn what_an_outlet_says_an_intake_takes() {
    let contents: Vec<Vec<u8>> = vec![b"first file".to_vec(), vec![], vec![7; 300_000]];
    let manifest = manifest(vec![
        file(0, 10),
        directory(1),
        file(2, 0),
        file(3, 300_000),
    ]);
    let mut outlet = Outlet::new(&manifest);
    let mut stream: Vec<u8> = vec![];
    let mut at = 0;
    while let Some(entry) = outlet.opens() {
        assert_eq!(entry, EntryId([0, 2, 3][at]));
        outlet.open();
        while let Some((offset, wanted)) = outlet.reads() {
            let from = offset as usize;
            let bytes = contents[at][from..from + wanted].to_vec();
            stream.extend(&bytes);
            outlet.read(&bytes).unwrap();
        }
        stream.extend(outlet.checked());
        at += 1;
    }
    stream.extend(outlet.seal());
    assert_eq!(at, 3);
    assert_eq!(receive(&manifest, &stream, 1 << 20), Ok(contents));
    assert_eq!(stream.len(), 10 + 300_000 + 3 * 32 + 4);
}

#[test]
fn a_source_that_shrinks_is_noticed() {
    let manifest = manifest(vec![file(0, 10)]);
    let mut outlet = Outlet::new(&manifest);
    outlet.open();
    outlet.read(&vec![1, 2, 3]).unwrap();
    assert_eq!(outlet.reads(), Some((3, 7)));
    assert_eq!(outlet.read(&vec![]), Err(StreamFault::Shrunk));
}

#[test]
fn a_stream_is_opened_by_its_transfer_and_secret() {
    let transfer = TransferId(0x0102_0304_0506_0708_090a_0b0c_0d0e_0f10);
    let secret = Token { high: u128::MAX, low: 5 };
    let header = open_stream(transfer, secret);
    assert_eq!(header.len(), 56);
    assert_eq!(&header[8..12], &[1, 2, 3, 4]);
    assert_eq!(header[55], 5);
    assert_eq!(accept_stream(&header), Some((transfer, secret)));
    let mut other = header.clone();
    other[0] ^= 1;
    assert_eq!(accept_stream(&other), None);
}

#[test]
fn waits_double_up_to_a_second() {
    let mut wait = FIRST_BACKOFF_MS;
    let mut waits = vec![];
    for _ in 0..8 {
        waits.push(wait);
        wait = next_backoff(wait);
    }
    assert_eq!(waits, vec![25, 50, 100, 200, 400, 800, 1000, 1000]);
}

fn grant() -> Delivery {
    Delivery {
        record: TransferRecord {
            id: TransferId(1),
            offer: FileOfferId(2),
            peer: MachineId("recipient".into()),
            direction: TransferDirection::Send,
            state: TransferState::Committed,
            bytes: 0,
            total_bytes: 0,
            paths: None,
            error: None,
        },
        manifest: Arc::new(Manifest { generation: 3, entries: vec![], total_bytes: 0 }),
        destination: None,
        generation: 7,
        epoch: 0,
        cancelled: false,
        progress: 0,
        token: Some(token(4)),
        source: None,
        deadline: 30_000,
        running: false,
        receiver_ready: false,
    }
}

#[test]
fn grants_bind_peer_generation_and_token_and_are_consumed_once() {
    let mut grant = grant();
    let recipient = MachineId("recipient".into());
    let other = MachineId("another-peer".into());
    assert_eq!(grant.claim_bulk(&other, 7, token(4), 0), Err(FileError::BulkNotLive));
    assert_eq!(grant.claim_bulk(&recipient, 8, token(4), 0), Err(FileError::BulkNotLive));
    assert_eq!(grant.claim_bulk(&recipient, 7, token(5), 0), Err(FileError::BulkToken));
    assert_eq!(grant.token, Some(token(4)));
    grant.claim_bulk(&recipient, 7, token(4), 0).unwrap();
    assert!(grant.token.is_none());
    assert!(grant.claim_bulk(&recipient, 7, token(4), 0).is_err());
}

#[test]
fn cancellation_expiry_and_uncommitted_deliveries_never_authorize_bulk() {
    let recipient = MachineId("recipient".into());
    let mut cancelled = grant();
    cancelled.cancelled = true;
    assert_eq!(cancelled.claim_bulk(&recipient, 7, token(4), 0), Err(FileError::BulkCancelled));
    let mut expired = grant();
    expired.deadline = 0;
    assert!(expired.claim_bulk(&recipient, 7, token(4), 0).is_err());
    let mut uncommitted = grant();
    uncommitted.record.state = TransferState::Preparing;
    assert!(uncommitted.claim_bulk(&recipient, 7, token(4), 0).is_err());
}

#[test]
fn a_transfer_goes_on_only_under_what_it_was_allowed_under() {
    let guard = Guard { peer: MachineId("peer".into()), generation: 4, epoch: 2 };
    let policy = |enabled: bool, epoch: u64, generation: u64| Policy {
        peers: vec![PeerPolicy {
            peer: MachineId("peer".into()),
            epoch,
            admitted: Some((generation, Ip::V4(0x0a00_0001))),
        }],
        enabled,
        clipboard_enabled: true,
    };
    assert_eq!(guard.check(&policy(true, 2, 4), false, true), Ok(()));
    assert_eq!(
        guard.check(&policy(true, 2, 4), true, true),
        Err(FileError::TransferCancelled)
    );
    for (changed, connected) in [
        (policy(false, 2, 4), true),
        (policy(true, 3, 4), true),
        (policy(true, 2, 5), true),
        (policy(true, 2, 4), false),
        (Policy { peers: vec![], enabled: true, clipboard_enabled: true }, true),
    ] {
        let refused = guard.check(&changed, false, connected);
        assert_eq!(refused, Err(FileError::ConnectionReplaced));
    }
}

#[test]
fn a_drawn_zero_counts_for_nothing() {
    let drawn = dice_of(Ok(5), Ok(0), Ok(9));
    assert_eq!(drawn.id.unwrap(), 5);
    assert_eq!(drawn.token.unwrap(), Token { high: 0, low: 9 });
    let zero = dice_of(Ok(0), Ok(0), Ok(0));
    assert!(matches!((zero.id, zero.token), (Err(Undrawn::Zero), Err(Undrawn::Zero))));
    let failed = dice_of(Err("a".into()), Ok(1), Err("b".into()));
    assert!(matches!(&failed.id, Err(Undrawn::Failed(why)) if why == "a"));
    assert!(matches!(&failed.token, Err(Undrawn::Failed(why)) if why == "b"));
    assert_eq!(failed.id.unwrap_err().error(), FileError::RandomFailed);
    assert_eq!(random_failure("no entropy"), "random identifier: no entropy");
    let (one, other) = (roll(), roll());
    assert!(one.id.is_ok() && one.token.is_ok());
    assert_ne!(one.id.unwrap(), other.id.unwrap());
}
