//! What is said and remembered of shared files.

use crate::input_transport::socket::Ip;
use crate::machine::MachineId;
use std::sync::Arc;
use vstd::prelude::*;

verus! {

#[derive(Clone, Copy, Debug, PartialEq, Eq, PartialOrd, Ord, Hash, Structural)]
pub struct FileOfferId(pub u128);

#[derive(Clone, Copy, Debug, PartialEq, Eq, PartialOrd, Ord, Hash, Structural)]
pub struct TransferId(pub u128);

#[derive(Clone, Copy, Debug, PartialEq, Eq, PartialOrd, Ord, Hash, Structural)]
pub struct NativeDragId(pub u128);

#[derive(Clone, Copy, Debug, PartialEq, Eq, PartialOrd, Ord, Hash, Structural)]
pub struct EntryId(pub u32);

/// The secret that opens a bulk connection.
#[derive(Clone, Copy, Debug, PartialEq, Eq, Structural)]
pub struct Token {
    pub high: u128,
    pub low: u128,
}

#[derive(Clone, Copy, Debug, PartialEq, Eq, Structural)]
pub struct FileTimestamp {
    pub seconds: i64,
    pub nanos: u32,
}

#[derive(Debug, PartialEq, Eq)]
pub enum EntryKind {
    Directory,
    File { size: u64 },
    Symlink { target: String },
}

#[derive(Debug, PartialEq, Eq)]
pub struct ManifestEntry {
    pub id: EntryId,
    pub parent: Option<EntryId>,
    pub name: String,
    pub kind: EntryKind,
    pub mode: u32,
    pub modified: FileTimestamp,
}

#[derive(Debug, PartialEq, Eq)]
pub struct Manifest {
    pub generation: u128,
    pub entries: Vec<ManifestEntry>,
    pub total_bytes: u64,
}

impl Clone for EntryKind {
    fn clone(&self) -> (r: Self)
        ensures
            r == *self,
    {
        match self {
            EntryKind::Directory => EntryKind::Directory,
            EntryKind::File { size } => EntryKind::File { size: *size },
            EntryKind::Symlink { target } => EntryKind::Symlink { target: target.clone() },
        }
    }
}

impl Clone for ManifestEntry {
    fn clone(&self) -> (r: Self)
        ensures
            r == *self,
    {
        ManifestEntry {
            id: self.id,
            parent: self.parent,
            name: self.name.clone(),
            kind: self.kind.clone(),
            mode: self.mode,
            modified: self.modified,
        }
    }
}

/// Where an offer comes from.
#[derive(Clone, Copy, Debug, PartialEq, Eq, Structural)]
pub enum OfferOrigin {
    Selection,
    Clipboard { generation: u64 },
}

#[derive(Debug, PartialEq, Eq)]
pub enum ReceiveDestination {
    Directory(String),
    Cache,
}

impl Clone for ReceiveDestination {
    fn clone(&self) -> (r: Self)
        ensures
            r == *self,
    {
        match self {
            ReceiveDestination::Directory(path) => ReceiveDestination::Directory(path.clone()),
            ReceiveDestination::Cache => ReceiveDestination::Cache,
        }
    }
}

/// A file or directory chosen on this machine.
#[derive(Debug, PartialEq, Eq)]
pub enum SelectedRoot {
    Path(String),
    /// A file that is open already, under the handle it is known by.
    Open { name: String, file: u64 },
}

#[derive(Debug, PartialEq, Eq)]
pub struct LocalSelection {
    pub roots: Vec<SelectedRoot>,
    /// What keeps the files accessible.
    pub access: Option<u64>,
}

#[derive(Debug)]
pub enum FileCommand {
    Offer { selection: Arc<LocalSelection>, recipient: MachineId, origin: OfferOrigin },
    Receive { offer: FileOfferId, destination: ReceiveDestination },
    ClearReceived { transfer: TransferId },
    Revoke { offer: FileOfferId },
    Cancel { transfer: TransferId },
    Retry { transfer: TransferId },
    PrepareDrag { offer: FileOfferId, entries: Arc<Vec<EntryId>> },
    DropDrag { drag: NativeDragId },
    CommitDrag { drag: NativeDragId, destination: ReceiveDestination },
    CancelDrag { drag: NativeDragId },
    ClipboardChanged { generation: u64 },
    SetEnabled(bool),
    CaptureClipboard { selection: Arc<LocalSelection>, generation: u64 },
    RouteClipboard { recipient: MachineId, generation: u64 },
    ClearClipboard,
    CancelDrags,
    CancelPeerDrags { peer: MachineId },
}

#[derive(Clone, Copy, Debug, PartialEq, Eq, Structural)]
pub enum FileReply {
    Offered(FileOfferId),
    Receiving(TransferId),
    DragPrepared(NativeDragId),
    Done,
}

#[derive(Clone, Copy, Debug, PartialEq, Eq, Structural)]
pub enum OfferState {
    Available,
    Revoked,
    Expired,
}

#[derive(Debug)]
pub struct OfferRecord {
    pub id: FileOfferId,
    pub owner: MachineId,
    pub recipient: MachineId,
    pub origin: OfferOrigin,
    pub manifest: Arc<Manifest>,
    pub expires_unix_ms: u64,
    pub state: OfferState,
}

impl Clone for OfferRecord {
    fn clone(&self) -> (r: Self)
        ensures
            r == *self,
    {
        OfferRecord {
            id: self.id,
            owner: self.owner.clone(),
            recipient: self.recipient.clone(),
            origin: self.origin,
            manifest: self.manifest.clone(),
            expires_unix_ms: self.expires_unix_ms,
            state: self.state,
        }
    }
}

#[derive(Clone, Copy, Debug, PartialEq, Eq, Structural)]
pub enum TransferDirection {
    Send,
    Receive,
}

#[derive(Clone, Copy, Debug, PartialEq, Eq, Structural)]
pub enum TransferState {
    Preparing,
    Committed,
    Receiving,
    Verifying,
    Ready,
    Cancelled,
    Failed,
}

impl TransferState {
    pub open spec fn is_terminal(self) -> bool {
        self is Ready || self is Cancelled || self is Failed
    }

    pub fn terminal(self) -> (r: bool)
        ensures
            r == self.is_terminal(),
    {
        match self {
            TransferState::Ready | TransferState::Cancelled | TransferState::Failed => true,
            _ => false,
        }
    }
}

/// Why something about files was refused or went wrong.
#[derive(Clone, Copy, Debug, PartialEq, Eq, Structural)]
pub enum FileError {
    Disabled,
    NotAuthorized,
    ConnectionChanged,
    QueueUnavailable,
    StaleFrame,
    UnknownOffer,
    OfferGone,
    OfferOutdated,
    OfferIdentity,
    OfferLifetime,
    OfferReplayed,
    OfferRegistryFull,
    PeerOfferLimit,
    UnknownRevoked,
    RevokePeer,
    RecordLimit,
    ConcurrencyLimit,
    UnknownTransfer,
    NotRetainable,
    ClearLimit,
    StillActive,
    RetainedOrClearing,
    DragLimit,
    DragReplayed,
    PrepareScope,
    NoSource,
    NotSourceLease,
    NotSourceSelection,
    UnknownDrag,
    NoSuchDrag,
    UnknownDrop,
    UnknownLease,
    PreparePeer,
    DropPeer,
    DropNotConfirmed,
    CommitConsumed,
    CommitScope,
    NativeCommitScope,
    GrantUnsolicited,
    GrantMismatch,
    GrantExpired,
    NoDestination,
    PeerDisappeared,
    CancelScope,
    CancelDragScope,
    ResultUnknown,
    ResultScope,
    ResultEarly,
    RejectUnknown,
    RejectScope,
    RejectUnknownDrag,
    RejectDragScope,
    BulkUnknown,
    BulkNotLive,
    BulkConsumed,
    BulkToken,
    BulkCancelled,
    BulkSource,
    SelectionRoots,
    SourcePath,
    DescriptorName,
    SelectionReplaced,
    SelectionStale,
    EnumerationLimit,
    ClipboardDisabled,
    SettingPending,
    DropPending,
    DropExpired,
    NotRetryable,
    RetryAtReceiver,
    NotReceived,
    OwnOffer,
    RootUnknown,
    RootRepeated,
    ChoiceSize,
    DragAuthorization,
    DragEarly,
    BeingCleared,
    DragNotCommitted,
    ReceiveAuthorization,
    QuotaExceeded,
    RandomFailed,
    RandomZero,
    RecipientChanged,
    TransferCancelled,
    OfferRevoked,
    AuthorizationRevoked,
    ConnectionReplaced,
    DeadlineExceeded,
    CancelledByUser,
    CancelledByPeer,
    DragCancelled,
    DragCancelledByPeer,
    ServiceStopped,
    WorkerFailed,
    NeedsCommandHandling,
    RouteByEnumeration,
    OfferByEnumeration,
    PersistPolicy,
}

/// What went wrong: a condition of this machine, or what a worker or a peer said.
#[derive(Debug)]
pub enum Fault {
    Known(FileError),
    Said(String),
}

impl Clone for Fault {
    fn clone(&self) -> (r: Self)
        ensures
            r == *self,
    {
        match self {
            Fault::Known(e) => Fault::Known(*e),
            Fault::Said(text) => Fault::Said(text.clone()),
        }
    }
}

pub fn clone_fault(fault: &Option<Fault>) -> (r: Option<Fault>)
    ensures
        r == *fault,
{
    match fault {
        Some(fault) => Some(fault.clone()),
        None => None,
    }
}

#[derive(Debug)]
pub struct TransferRecord {
    pub id: TransferId,
    pub offer: FileOfferId,
    pub peer: MachineId,
    pub direction: TransferDirection,
    pub state: TransferState,
    pub bytes: u64,
    pub total_bytes: u64,
    /// Where the files are, once they are in place.
    pub paths: Option<Arc<Vec<String>>>,
    pub error: Option<Fault>,
}

impl TransferRecord {
    pub open spec fn has_paths(&self) -> bool {
        match self.paths {
            Some(paths) => paths@.len() > 0,
            None => false,
        }
    }

    /// Whether the transfer has files in place.
    pub fn placed(&self) -> (r: bool)
        ensures
            r == self.has_paths(),
    {
        match &self.paths {
            Some(paths) => paths.len() > 0,
            None => false,
        }
    }
}

impl Clone for TransferRecord {
    fn clone(&self) -> (r: Self)
        ensures
            r == *self,
    {
        TransferRecord {
            id: self.id,
            offer: self.offer,
            peer: self.peer.clone(),
            direction: self.direction,
            state: self.state,
            bytes: self.bytes,
            total_bytes: self.total_bytes,
            paths: match &self.paths {
                Some(paths) => Some(paths.clone()),
                None => None,
            },
            error: clone_fault(&self.error),
        }
    }
}

#[derive(Debug)]
pub struct RecoveryIssue {
    pub transfer: Option<TransferId>,
    pub message: String,
}

impl Clone for RecoveryIssue {
    fn clone(&self) -> (r: Self)
        ensures
            r == *self,
    {
        RecoveryIssue { transfer: self.transfer, message: self.message.clone() }
    }
}

#[derive(Debug)]
pub struct FileState {
    pub recovery_errors: Vec<RecoveryIssue>,
    pub recovery_error_count: usize,
    pub offers: Vec<OfferRecord>,
    pub transfers: Vec<TransferRecord>,
    pub error: Option<Fault>,
    pub enabled: bool,
    pub payload_bytes_sent: u64,
    pub payload_bytes_received: u64,
}

#[derive(Debug)]
pub struct ReceivedFiles {
    pub transfer: TransferId,
    pub paths: Option<Arc<Vec<String>>>,
}

/// Received files that stay in place as long as this is kept.
#[derive(Debug)]
pub struct ReceivedLease {
    pub files: ReceivedFiles,
    pub manifest: Arc<Manifest>,
}

/// What machines say to each other about files.
#[derive(Debug)]
pub enum FileMessage {
    Offer(Offer),
    Revoke { offer: FileOfferId, unaccepted_only: bool },
    Prepare {
        offer: FileOfferId,
        generation: u128,
        drag: NativeDragId,
        roots: Arc<Vec<EntryId>>,
    },
    Prepared { drag: NativeDragId },
    Dropped { drag: NativeDragId },
    DropConfirmed { drag: NativeDragId },
    Commit {
        offer: FileOfferId,
        generation: u128,
        transfer: TransferId,
        roots: Arc<Vec<EntryId>>,
        drag: Option<NativeDragId>,
    },
    Grant { transfer: TransferId, token: Token },
    Cancel { transfer: TransferId },
    CancelDrag { drag: NativeDragId },
    Result { transfer: TransferId, error: Option<Fault> },
    Reject { transfer: Option<TransferId>, drag: Option<NativeDragId>, reason: Fault },
}

#[derive(Debug)]
pub struct Offer {
    pub id: FileOfferId,
    pub owner: MachineId,
    pub recipient: MachineId,
    pub origin: OfferOrigin,
    pub manifest: Arc<Manifest>,
    pub expires_unix_ms: u64,
}

/// What is decided about a peer.
#[derive(Debug)]
pub struct PeerPolicy {
    pub peer: MachineId,
    /// Counts how often the peer was shut out.
    pub epoch: u64,
    /// The connection that may share files, and the peer's address.
    pub admitted: Option<(u64, Ip)>,
}

#[derive(Debug)]
pub struct Policy {
    /// Peers, each once.
    pub peers: Vec<PeerPolicy>,
    pub enabled: bool,
    pub clipboard_enabled: bool,
}

} // verus!
