//! What went wrong, in words.

use super::records::{Fault, FileError};
use crate::text::{beginning, shortened};
use vstd::prelude::*;
use vstd::utf8::encode_utf8;

verus! {

/// Bytes that are kept of what others say.
pub const MAX_SAID: usize = 1024;

/// Bytes that are shown of a fault.
pub const MAX_SHOWN: usize = 96;

/// The words for a condition.
pub open spec fn words(error: FileError) -> Seq<char> {
    match error {
        FileError::Disabled => "file sharing disabled"@,
        FileError::NotAuthorized => "peer is not authorized for file sharing"@,
        FileError::ConnectionChanged => "file control connection changed"@,
        FileError::QueueUnavailable => "file control queue unavailable"@,
        FileError::StaleFrame => "stale file control frame"@,
        FileError::UnknownOffer => "unknown file offer"@,
        FileError::OfferGone => "file offer revoked or expired"@,
        FileError::OfferOutdated => "offer belongs to a previous peer connection"@,
        FileError::OfferIdentity => "file offer identity mismatch"@,
        FileError::OfferLifetime => "invalid file offer lifetime"@,
        FileError::OfferReplayed => "replayed file offer"@,
        FileError::OfferRegistryFull => "file offer registry full; revoke old offers"@,
        FileError::PeerOfferLimit => "peer file offer limit reached"@,
        FileError::UnknownRevoked => "unknown revoked offer"@,
        FileError::RevokePeer => "revoke peer mismatch"@,
        FileError::RecordLimit => "retained transfer record limit reached"@,
        FileError::ConcurrencyLimit => "file transfer concurrency limit reached"@,
        FileError::UnknownTransfer => "unknown transfer"@,
        FileError::NotRetainable => "receive is not ready for retention"@,
        FileError::ClearLimit => "receive cleanup concurrency limit reached"@,
        FileError::StillActive => "receive is still active"@,
        FileError::RetainedOrClearing => "receive is retained by a native consumer or already clearing"@,
        FileError::DragLimit => "native drag lease limit reached"@,
        FileError::DragReplayed => "native drag lease limit or replay"@,
        FileError::PrepareScope => "native prepare scope mismatch"@,
        FileError::NoSource => "missing local source selection"@,
        FileError::NotSourceLease => "not a source lease"@,
        FileError::NotSourceSelection => "not a source selection"@,
        FileError::UnknownDrag => "unknown native drag"@,
        FileError::NoSuchDrag => "unknown or cancelled native drag"@,
        FileError::UnknownDrop => "unknown confirmed native drop"@,
        FileError::UnknownLease => "unknown native source lease"@,
        FileError::PreparePeer => "native prepare peer mismatch"@,
        FileError::DropPeer => "native drop peer mismatch"@,
        FileError::DropNotConfirmed => "native drop confirmation mismatch"@,
        FileError::CommitConsumed => "file commit already consumed"@,
        FileError::CommitScope => "file commit scope mismatch"@,
        FileError::NativeCommitScope => "native commit scope mismatch"@,
        FileError::GrantUnsolicited => "unsolicited file grant"@,
        FileError::GrantMismatch => "file grant does not match a live receive commit"@,
        FileError::GrantExpired => "file grant expired or invalid"@,
        FileError::NoDestination => "missing receive destination"@,
        FileError::PeerDisappeared => "peer disappeared"@,
        FileError::CancelScope => "cancel scope mismatch"@,
        FileError::CancelDragScope => "cancel drag scope mismatch"@,
        FileError::ResultUnknown => "unknown transfer result"@,
        FileError::ResultScope => "transfer result scope mismatch"@,
        FileError::ResultEarly => "success result precedes payload delivery"@,
        FileError::RejectUnknown => "unknown rejected transfer"@,
        FileError::RejectScope => "reject scope mismatch"@,
        FileError::RejectUnknownDrag => "unknown rejected drag"@,
        FileError::RejectDragScope => "reject drag scope mismatch"@,
        FileError::BulkUnknown => "unknown bulk transfer"@,
        FileError::BulkNotLive => "bulk grant is not live"@,
        FileError::BulkConsumed => "bulk grant already consumed"@,
        FileError::BulkToken => "bulk token mismatch"@,
        FileError::BulkCancelled => "transfer cancelled"@,
        FileError::BulkSource => "missing source lease"@,
        FileError::SelectionRoots => "invalid selection root count"@,
        FileError::SourcePath => "invalid local source path"@,
        FileError::DescriptorName => "invalid selected descriptor name"@,
        FileError::SelectionReplaced => "clipboard selection replaced"@,
        FileError::SelectionStale => "clipboard selection is stale"@,
        FileError::EnumerationLimit => "file enumeration limit reached"@,
        FileError::ClipboardDisabled => "clipboard sharing disabled"@,
        FileError::SettingPending => "file policy write already pending"@,
        FileError::DropPending => "native drop confirmation already pending"@,
        FileError::DropExpired => "native drop confirmation expired or cancelled"@,
        FileError::NotRetryable => "only stopped receives can retry"@,
        FileError::RetryAtReceiver => "retry must be requested at receiver"@,
        FileError::NotReceived => "only a received offer can be dragged"@,
        FileError::OwnOffer => "cannot receive own offer"@,
        FileError::RootUnknown => "unknown root in choice of files"@,
        FileError::RootRepeated => "repeated root in choice of files"@,
        FileError::ChoiceSize => "choice of files is too large"@,
        FileError::DragAuthorization => "native drag authorization expired"@,
        FileError::DragEarly => "native content read occurred before accepted drop or after expiry"@,
        FileError::BeingCleared => "receive is being cleared"@,
        FileError::DragNotCommitted => "native drag is not committed"@,
        FileError::ReceiveAuthorization => "receive authorization changed"@,
        FileError::QuotaExceeded => "retained file cache quota exceeded"@,
        FileError::RandomFailed => "random identifier"@,
        FileError::RandomZero => "random identifier is zero"@,
        FileError::RecipientChanged => "recipient changed during enumeration"@,
        FileError::TransferCancelled => "transfer cancelled"@,
        FileError::OfferRevoked => "file offer explicitly revoked"@,
        FileError::AuthorizationRevoked => "file authorization revoked or connection changed"@,
        FileError::ConnectionReplaced => "file authorization revoked or connection replaced"@,
        FileError::DeadlineExceeded => "file grant or durable result deadline exceeded"@,
        FileError::CancelledByUser => "cancelled by user"@,
        FileError::CancelledByPeer => "cancelled by peer"@,
        FileError::DragCancelled => "native drag cancelled"@,
        FileError::DragCancelledByPeer => "native drag cancelled by peer"@,
        FileError::ServiceStopped => "file service stopped"@,
        FileError::WorkerFailed => "file worker failed"@,
        FileError::NeedsCommandHandling => "operation requires command handling"@,
        FileError::RouteByEnumeration => "clipboard routing must run through enumeration"@,
        FileError::OfferByEnumeration => "offer must run through enumeration"@,
        FileError::PersistPolicy => "file policy must be persisted through command handling"@,
    }
}

/// The words for a fault.
pub open spec fn fault_words(fault: Fault) -> Seq<char> {
    match fault {
        Fault::Known(error) => words(error),
        Fault::Said(text) => text@,
    }
}

/// A text is the beginning of some words, as far as the limit allows.
pub open spec fn is_beginning(text: Seq<char>, of: Seq<char>, limit: nat) -> bool {
    encode_utf8(text) == beginning(of, limit)
}

impl FileError {
    pub fn text(self) -> (r: &'static str)
        ensures
            r@ == words(self),
    {
        match self {
            FileError::Disabled => "file sharing disabled",
            FileError::NotAuthorized => "peer is not authorized for file sharing",
            FileError::ConnectionChanged => "file control connection changed",
            FileError::QueueUnavailable => "file control queue unavailable",
            FileError::StaleFrame => "stale file control frame",
            FileError::UnknownOffer => "unknown file offer",
            FileError::OfferGone => "file offer revoked or expired",
            FileError::OfferOutdated => "offer belongs to a previous peer connection",
            FileError::OfferIdentity => "file offer identity mismatch",
            FileError::OfferLifetime => "invalid file offer lifetime",
            FileError::OfferReplayed => "replayed file offer",
            FileError::OfferRegistryFull => "file offer registry full; revoke old offers",
            FileError::PeerOfferLimit => "peer file offer limit reached",
            FileError::UnknownRevoked => "unknown revoked offer",
            FileError::RevokePeer => "revoke peer mismatch",
            FileError::RecordLimit => "retained transfer record limit reached",
            FileError::ConcurrencyLimit => "file transfer concurrency limit reached",
            FileError::UnknownTransfer => "unknown transfer",
            FileError::NotRetainable => "receive is not ready for retention",
            FileError::ClearLimit => "receive cleanup concurrency limit reached",
            FileError::StillActive => "receive is still active",
            FileError::RetainedOrClearing => "receive is retained by a native consumer or already clearing",
            FileError::DragLimit => "native drag lease limit reached",
            FileError::DragReplayed => "native drag lease limit or replay",
            FileError::PrepareScope => "native prepare scope mismatch",
            FileError::NoSource => "missing local source selection",
            FileError::NotSourceLease => "not a source lease",
            FileError::NotSourceSelection => "not a source selection",
            FileError::UnknownDrag => "unknown native drag",
            FileError::NoSuchDrag => "unknown or cancelled native drag",
            FileError::UnknownDrop => "unknown confirmed native drop",
            FileError::UnknownLease => "unknown native source lease",
            FileError::PreparePeer => "native prepare peer mismatch",
            FileError::DropPeer => "native drop peer mismatch",
            FileError::DropNotConfirmed => "native drop confirmation mismatch",
            FileError::CommitConsumed => "file commit already consumed",
            FileError::CommitScope => "file commit scope mismatch",
            FileError::NativeCommitScope => "native commit scope mismatch",
            FileError::GrantUnsolicited => "unsolicited file grant",
            FileError::GrantMismatch => "file grant does not match a live receive commit",
            FileError::GrantExpired => "file grant expired or invalid",
            FileError::NoDestination => "missing receive destination",
            FileError::PeerDisappeared => "peer disappeared",
            FileError::CancelScope => "cancel scope mismatch",
            FileError::CancelDragScope => "cancel drag scope mismatch",
            FileError::ResultUnknown => "unknown transfer result",
            FileError::ResultScope => "transfer result scope mismatch",
            FileError::ResultEarly => "success result precedes payload delivery",
            FileError::RejectUnknown => "unknown rejected transfer",
            FileError::RejectScope => "reject scope mismatch",
            FileError::RejectUnknownDrag => "unknown rejected drag",
            FileError::RejectDragScope => "reject drag scope mismatch",
            FileError::BulkUnknown => "unknown bulk transfer",
            FileError::BulkNotLive => "bulk grant is not live",
            FileError::BulkConsumed => "bulk grant already consumed",
            FileError::BulkToken => "bulk token mismatch",
            FileError::BulkCancelled => "transfer cancelled",
            FileError::BulkSource => "missing source lease",
            FileError::SelectionRoots => "invalid selection root count",
            FileError::SourcePath => "invalid local source path",
            FileError::DescriptorName => "invalid selected descriptor name",
            FileError::SelectionReplaced => "clipboard selection replaced",
            FileError::SelectionStale => "clipboard selection is stale",
            FileError::EnumerationLimit => "file enumeration limit reached",
            FileError::ClipboardDisabled => "clipboard sharing disabled",
            FileError::SettingPending => "file policy write already pending",
            FileError::DropPending => "native drop confirmation already pending",
            FileError::DropExpired => "native drop confirmation expired or cancelled",
            FileError::NotRetryable => "only stopped receives can retry",
            FileError::RetryAtReceiver => "retry must be requested at receiver",
            FileError::NotReceived => "only a received offer can be dragged",
            FileError::OwnOffer => "cannot receive own offer",
            FileError::RootUnknown => "unknown root in choice of files",
            FileError::RootRepeated => "repeated root in choice of files",
            FileError::ChoiceSize => "choice of files is too large",
            FileError::DragAuthorization => "native drag authorization expired",
            FileError::DragEarly => "native content read occurred before accepted drop or after expiry",
            FileError::BeingCleared => "receive is being cleared",
            FileError::DragNotCommitted => "native drag is not committed",
            FileError::ReceiveAuthorization => "receive authorization changed",
            FileError::QuotaExceeded => "retained file cache quota exceeded",
            FileError::RandomFailed => "random identifier",
            FileError::RandomZero => "random identifier is zero",
            FileError::RecipientChanged => "recipient changed during enumeration",
            FileError::TransferCancelled => "transfer cancelled",
            FileError::OfferRevoked => "file offer explicitly revoked",
            FileError::AuthorizationRevoked => "file authorization revoked or connection changed",
            FileError::ConnectionReplaced => "file authorization revoked or connection replaced",
            FileError::DeadlineExceeded => "file grant or durable result deadline exceeded",
            FileError::CancelledByUser => "cancelled by user",
            FileError::CancelledByPeer => "cancelled by peer",
            FileError::DragCancelled => "native drag cancelled",
            FileError::DragCancelledByPeer => "native drag cancelled by peer",
            FileError::ServiceStopped => "file service stopped",
            FileError::WorkerFailed => "file worker failed",
            FileError::NeedsCommandHandling => "operation requires command handling",
            FileError::RouteByEnumeration => "clipboard routing must run through enumeration",
            FileError::OfferByEnumeration => "offer must run through enumeration",
            FileError::PersistPolicy => "file policy must be persisted through command handling",
        }
    }
}

impl Fault {
    /// What someone else said, kept within bounds.
    pub fn said(text: &str) -> (r: Fault)
        ensures
            r matches Fault::Said(kept) && is_beginning(kept@, text@, MAX_SAID as nat),
    {
        Fault::Said(shortened(text, MAX_SAID))
    }

    /// The words for the fault.
    pub fn text(&self) -> (r: &str)
        ensures
            r@ == fault_words(*self),
    {
        match self {
            Fault::Known(error) => error.text(),
            Fault::Said(text) => text.as_str(),
        }
    }

    /// As much of it as is shown.
    pub fn shown(&self) -> (r: String)
        ensures
            is_beginning(r@, fault_words(*self), MAX_SHOWN as nat),
    {
        shortened(self.text(), MAX_SHOWN)
    }
}

} // verus!
