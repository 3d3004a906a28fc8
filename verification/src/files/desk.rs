//! The state of file sharing, and the steps that all decisions are made of.

use super::mailbox::Mailbox;
use super::records::{
    EntryId, Fault, FileError, FileMessage, FileOfferId, FileReply, LocalSelection, Manifest,
    OfferOrigin, OfferRecord, OfferState, PeerPolicy, Policy, ReceiveDestination, RecoveryIssue,
    Token, TransferDirection, TransferId, TransferRecord, TransferState,
};
use crate::id_map::{kept, mapped, IdMap};
use crate::input_transport::socket::Ip;
use crate::machine::MachineId;
use std::sync::Arc;
use vstd::prelude::*;

verus! {

pub const MAX_OFFERS: usize = 16;

pub const MAX_PEER_OFFERS: usize = 4;

pub const MAX_ACTIVE: usize = 4;

pub const MAX_PEER_ACTIVE: usize = 2;

pub const MAX_DRAGS: usize = 32;

pub const MAX_PEER_DRAGS: usize = 8;

pub const MAX_RECORDS: usize = 256;

/// Selections that may be walked at the same time.
pub const MAX_ENUMERATIONS: usize = 2;

/// Received transfers that may be cleared at the same time.
pub const MAX_CLEARING: usize = 2;

/// Bytes that received files may take in the cache.
pub const CACHE_QUOTA: u64 = 0x10_0000_0000;

/// Milliseconds that an offer, or a drag of it, lasts.
pub const OFFER_LIFETIME_MS: u64 = 600_000;

/// Milliseconds that clocks may differ.
pub const CLOCK_SLACK_MS: u64 = 300_000;

/// Milliseconds until a grant is used, or a result comes.
pub const DEADLINE_MS: u64 = 30_000;

/// Milliseconds until a drop is confirmed.
pub const AUTH_DEADLINE_MS: u64 = 5_000;

/// The time: of day, and since the start.
#[derive(Clone, Copy, Debug, PartialEq, Eq, Structural)]
pub struct Clock {
    pub unix_ms: u64,
    pub at: u64,
}

impl Clock {
    /// Far from the end of time.
    pub open spec fn sane(self) -> bool {
        self.unix_ms <= 0x4000_0000_0000_0000 && self.at <= 0x4000_0000_0000_0000
    }
}

#[derive(Debug)]
pub struct RegisteredOffer {
    pub record: OfferRecord,
    /// The selection it offers, under the handle it is known by.
    pub source: Option<u64>,
    pub generation: u64,
    pub epoch: u64,
}

#[derive(Debug)]
pub struct Delivery {
    pub record: TransferRecord,
    pub manifest: Arc<Manifest>,
    pub destination: Option<ReceiveDestination>,
    pub generation: u64,
    pub epoch: u64,
    pub cancelled: bool,
    /// Bytes that a worker has moved.
    pub progress: u64,
    pub token: Option<Token>,
    pub source: Option<u64>,
    pub deadline: u64,
    pub running: bool,
    pub receiver_ready: bool,
}

#[derive(Debug)]
pub struct Drag {
    pub offer: FileOfferId,
    pub roots: Arc<Vec<EntryId>>,
    pub dropped: bool,
    pub prepared: bool,
    pub transfer: Option<TransferId>,
    pub peer: MachineId,
    pub generation: u64,
    pub epoch: u64,
    pub expires: u64,
    pub source: Option<u64>,
    /// What is dragged, until its transfer is over.
    pub manifest: Option<Arc<Manifest>>,
}

#[derive(Debug)]
pub struct Enumeration {
    pub recipient: MachineId,
    pub generation: u64,
    pub epoch: u64,
    pub origin: OfferOrigin,
    pub cancelled: bool,
    /// Who waits for the offer.
    pub waiter: Option<u64>,
    /// Nobody waits any more.
    pub hung_up: bool,
}

#[derive(Clone, Copy, Debug, PartialEq, Eq, Structural)]
pub struct DropReply {
    pub deadline: u64,
    pub waiter: u64,
}

/// A change of the setting that is being written.
#[derive(Clone, Copy, Debug, PartialEq, Eq, Structural)]
pub struct Setting {
    pub enabled: bool,
    pub waiter: Option<u64>,
}

/// A control connection, and the frames its queue still takes.
#[derive(Debug)]
pub struct Wire {
    pub peer: MachineId,
    pub generation: u64,
    pub room: u64,
}

/// What is to be done.
#[derive(Debug)]
pub enum Effect {
    Send { peer: MachineId, message: FileMessage },
    Reply { waiter: u64, result: Result<FileReply, Fault> },
    Enumerate { id: u64, selection: Arc<LocalSelection> },
    Clear { transfer: TransferId },
    SaveEnabled { enabled: bool },
    Receive { transfer: TransferId, token: Token, ip: Ip },
}

/// Why there is no number.
#[derive(Debug)]
pub enum Undrawn {
    /// None could be drawn, for the reason in these words.
    Failed(String),
    /// It was zero.
    Zero,
}

impl Undrawn {
    pub open spec fn why(self) -> FileError {
        match self {
            Undrawn::Failed(_) => FileError::RandomFailed,
            Undrawn::Zero => FileError::RandomZero,
        }
    }

    pub fn error(&self) -> (r: FileError)
        ensures
            r == self.why(),
    {
        match self {
            Undrawn::Failed(_) => FileError::RandomFailed,
            Undrawn::Zero => FileError::RandomZero,
        }
    }
}

/// Numbers drawn at random, or why there are none.
#[derive(Debug)]
pub struct Dice {
    pub id: Result<u128, Undrawn>,
    pub token: Result<Token, Undrawn>,
}

/// A fault as it is told: where nothing could be drawn, with the reason for that.
pub open spec fn explained<T>(error: FileError, drawn: Result<T, Undrawn>) -> Fault {
    match (error, drawn) {
        (FileError::RandomFailed, Err(Undrawn::Failed(text))) => Fault::Said(text),
        _ => Fault::Known(error),
    }
}

pub fn explain<T>(error: FileError, drawn: &Result<T, Undrawn>) -> (r: Fault)
    ensures
        r == explained(error, *drawn),
{
    match (error, drawn) {
        (FileError::RandomFailed, Err(Undrawn::Failed(text))) => Fault::Said(text.clone()),
        _ => Fault::Known(error),
    }
}

pub struct Service {
    pub clipboard: Mailbox,
    pub id: MachineId,
    pub policy: Policy,
    pub wires: Vec<Wire>,
    pub outbox: Vec<Effect>,
    pub enabled: bool,
    pub setting: Option<Setting>,
    pub offers: IdMap<RegisteredOffer>,
    pub transfers: IdMap<Delivery>,
    pub drags: IdMap<Drag>,
    pub drop_replies: IdMap<DropReply>,
    pub enumerations: IdMap<Enumeration>,
    pub enumeration_id: u64,
    pub clipboard_generation: Option<u64>,
    pub clipboard_selection: Option<Arc<LocalSelection>>,
    /// Leases on received files.
    pub pins: IdMap<u64>,
    /// Transfers being cleared, and who waits for it.
    pub clearing: IdMap<Option<u64>>,
    pub retired_sent: u64,
    pub retired_received: u64,
    pub error: Option<Fault>,
    pub recovery_errors: Vec<RecoveryIssue>,
    pub recovery_error_count: usize,
    pub untracked_cache_bytes: u64,
    pub cleanup_failures: IdMap<()>,
}

pub ghost struct Desk {
    pub clipboard: Mailbox,
    pub id: MachineId,
    pub policy: Policy,
    pub wires: Seq<Wire>,
    pub outbox: Seq<Effect>,
    pub enabled: bool,
    pub setting: Option<Setting>,
    pub offers: Map<u128, RegisteredOffer>,
    pub transfers: Map<u128, Delivery>,
    pub drags: Map<u128, Drag>,
    pub drop_replies: Map<u128, DropReply>,
    pub enumerations: Map<u128, Enumeration>,
    pub enumeration_id: u64,
    pub clipboard_generation: Option<u64>,
    pub clipboard_selection: Option<Arc<LocalSelection>>,
    pub pins: Map<u128, u64>,
    pub clearing: Map<u128, Option<u64>>,
    pub retired_sent: u64,
    pub retired_received: u64,
    pub error: Option<Fault>,
    pub recovery_errors: Seq<RecoveryIssue>,
    pub recovery_error_count: usize,
    pub untracked_cache_bytes: u64,
    pub cleanup_failures: Map<u128, ()>,
}

impl View for Service {
    type V = Desk;

    open spec fn view(&self) -> Desk {
        Desk {
            clipboard: self.clipboard,
            id: self.id,
            policy: self.policy,
            wires: self.wires@,
            outbox: self.outbox@,
            enabled: self.enabled,
            setting: self.setting,
            offers: self.offers@,
            transfers: self.transfers@,
            drags: self.drags@,
            drop_replies: self.drop_replies@,
            enumerations: self.enumerations@,
            enumeration_id: self.enumeration_id,
            clipboard_generation: self.clipboard_generation,
            clipboard_selection: self.clipboard_selection,
            pins: self.pins@,
            clearing: self.clearing@,
            retired_sent: self.retired_sent,
            retired_received: self.retired_received,
            error: self.error,
            recovery_errors: self.recovery_errors@,
            recovery_error_count: self.recovery_error_count,
            untracked_cache_bytes: self.untracked_cache_bytes,
            cleanup_failures: self.cleanup_failures@,
        }
    }
}

/// Where a peer stands in a policy, or the number of peers where it is unknown.
pub open spec fn policy_place(peers: Seq<PeerPolicy>, peer: Seq<char>) -> int
    decreases peers.len(),
{
    if peers.len() == 0 {
        0
    } else if peers[0].peer@ == peer {
        0
    } else {
        1 + policy_place(peers.skip(1), peer)
    }
}

/// Where a peer's connection stands, or the number of connections where it has none.
pub open spec fn wire_place(wires: Seq<Wire>, peer: Seq<char>) -> int
    decreases wires.len(),
{
    if wires.len() == 0 {
        0
    } else if wires[0].peer@ == peer {
        0
    } else {
        1 + wire_place(wires.skip(1), peer)
    }
}

proof fn lemma_policy_place(peers: Seq<PeerPolicy>, peer: Seq<char>)
    ensures
        0 <= policy_place(peers, peer) <= peers.len(),
        policy_place(peers, peer) < peers.len() ==> peers[policy_place(peers, peer)].peer@ == peer,
        forall|i: int| 0 <= i < policy_place(peers, peer) ==> (#[trigger] peers[i]).peer@ != peer,
    decreases peers.len(),
{
    if peers.len() > 0 && peers[0].peer@ != peer {
        let rest = peers.skip(1);
        lemma_policy_place(rest, peer);
        assert forall|i: int| 0 <= i < policy_place(peers, peer) implies (
        #[trigger] peers[i]).peer@ != peer by {
            if i > 0 {
                assert(rest[i - 1] == peers[i]);
            }
        }
    }
}

proof fn lemma_wire_place(wires: Seq<Wire>, peer: Seq<char>)
    ensures
        0 <= wire_place(wires, peer) <= wires.len(),
        wire_place(wires, peer) < wires.len() ==> wires[wire_place(wires, peer)].peer@ == peer,
        forall|i: int| 0 <= i < wire_place(wires, peer) ==> (#[trigger] wires[i]).peer@ != peer,
    decreases wires.len(),
{
    if wires.len() > 0 && wires[0].peer@ != peer {
        let rest = wires.skip(1);
        lemma_wire_place(rest, peer);
        assert forall|i: int| 0 <= i < wire_place(wires, peer) implies (
        #[trigger] wires[i]).peer@ != peer by {
            if i > 0 {
                assert(rest[i - 1] == wires[i]);
            }
        }
    }
}

/// A delivery that is told to stop.
pub open spec fn cancelled_delivery(d: Delivery, fault: Fault) -> Delivery {
    if d.record.state.is_terminal() {
        d
    } else {
        Delivery {
            cancelled: true,
            token: None,
            source: None,
            record: TransferRecord {
                state: if d.running {
                    d.record.state
                } else {
                    TransferState::Cancelled
                },
                error: Some(fault),
                ..d.record
            },
            ..d
        }
    }
}

/// A delivery that has failed.
pub open spec fn failed_delivery(d: Delivery, fault: Fault) -> Delivery {
    if d.record.state.is_terminal() {
        d
    } else {
        let stopped = cancelled_delivery(d, fault);
        Delivery {
            record: TransferRecord {
                state: if d.running {
                    d.record.state
                } else {
                    TransferState::Failed
                },
                ..stopped.record
            },
            ..stopped
        }
    }
}

/// A drag that a revocation ends.
pub open spec fn revoked_drag(offer: FileOfferId, clipboard_only: bool) -> spec_fn(Drag) -> bool {
    |d: Drag| d.offer == offer && (!clipboard_only || !d.dropped)
}

/// A delivery after its offer was revoked.
pub open spec fn revoked_delivery(offer: FileOfferId) -> spec_fn(Delivery) -> Delivery {
    |d: Delivery|
        if d.record.offer == offer {
            cancelled_delivery(d, Fault::Known(FileError::OfferRevoked))
        } else {
            d
        }
}

pub open spec fn revoked_offer(o: RegisteredOffer) -> RegisteredOffer {
    RegisteredOffer {
        record: OfferRecord { state: OfferState::Revoked, ..o.record },
        source: None,
        ..o
    }
}

/// The fault of a refusal.
pub open spec fn refused(e: FileError) -> Result<FileReply, Fault> {
    Err(Fault::Known(e))
}

/// Issues that are not about a transfer.
pub open spec fn other_issues(issues: Seq<RecoveryIssue>, id: u128) -> Seq<RecoveryIssue>
    decreases issues.len(),
{
    if issues.len() == 0 {
        Seq::empty()
    } else if issues.last().transfer == Some(TransferId(id)) {
        other_issues(issues.drop_last(), id)
    } else {
        other_issues(issues.drop_last(), id).push(issues.last())
    }
}

impl Desk {
    pub open spec fn epoch(self, peer: Seq<char>) -> u64 {
        let at = policy_place(self.policy.peers@, peer);
        if at < self.policy.peers@.len() {
            self.policy.peers@[at].epoch
        } else {
            0
        }
    }

    pub open spec fn admitted(self, peer: Seq<char>) -> Option<(u64, Ip)> {
        let at = policy_place(self.policy.peers@, peer);
        if at < self.policy.peers@.len() {
            self.policy.peers@[at].admitted
        } else {
            None
        }
    }

    pub open spec fn connected(self, peer: Seq<char>, generation: u64) -> bool {
        let at = wire_place(self.wires, peer);
        at < self.wires.len() && self.wires[at].generation == generation
    }

    /// The connection on which a peer may share files.
    pub open spec fn authorized(self, peer: Seq<char>) -> Result<u64, FileError> {
        if !self.enabled || !self.policy.enabled {
            Err(FileError::Disabled)
        } else {
            match self.admitted(peer) {
                None => Err(FileError::NotAuthorized),
                Some((generation, _)) => if self.connected(peer, generation) {
                    Ok(generation)
                } else {
                    Err(FileError::ConnectionChanged)
                },
            }
        }
    }

    /// What was agreed on a connection, in an epoch, still stands.
    pub open spec fn stands(self, peer: Seq<char>, generation: u64, epoch: u64) -> bool {
        self.authorized(peer) == Ok::<u64, FileError>(generation) && self.epoch(peer) == epoch
    }

    /// Why nothing can be said to a peer.
    pub open spec fn send_error(self, peer: Seq<char>) -> Option<FileError> {
        match self.authorized(peer) {
            Err(e) => Some(e),
            Ok(_) => if self.wires[wire_place(self.wires, peer)].room == 0 {
                Some(FileError::QueueUnavailable)
            } else {
                None
            },
        }
    }

    /// A message was handed to a peer's connection, where it takes one.
    pub open spec fn posted(self, peer: MachineId, message: FileMessage) -> Desk {
        if self.send_error(peer@) is Some {
            self
        } else {
            let at = wire_place(self.wires, peer@);
            let wire = self.wires[at];
            Desk {
                wires: self.wires.update(at, Wire { room: (wire.room - 1) as u64, ..wire }),
                outbox: self.outbox.push(Effect::Send { peer, message }),
                ..self
            }
        }
    }

    /// A request was answered; a refusal is also shown.
    pub open spec fn answered(self, waiter: Option<u64>, result: Result<FileReply, Fault>) -> Desk {
        Desk {
            error: match result {
                Ok(_) => None,
                Err(fault) => Some(fault),
            },
            outbox: match waiter {
                Some(waiter) => self.outbox.push(Effect::Reply { waiter, result }),
                None => self.outbox,
            },
            ..self
        }
    }

    /// The machine at the other side of an offer.
    pub open spec fn other_side(self, record: OfferRecord) -> MachineId {
        if record.owner@ == self.id@ {
            record.recipient
        } else {
            record.owner
        }
    }

    /// Why an offer cannot be used.
    pub open spec fn offer_error(self, id: FileOfferId, clock: Clock) -> Option<FileError> {
        if !self.offers.contains_key(id.0) {
            Some(FileError::UnknownOffer)
        } else {
            let o = self.offers[id.0];
            let peer = self.other_side(o.record)@;
            if !(o.record.state is Available) || o.record.expires_unix_ms <= clock.unix_ms {
                Some(FileError::OfferGone)
            } else {
                match self.authorized(peer) {
                    Err(e) => Some(e),
                    Ok(generation) => if generation == o.generation && self.epoch(peer)
                        == o.epoch {
                        None
                    } else {
                        Some(FileError::OfferOutdated)
                    },
                }
            }
        }
    }

    pub open spec fn cancelling(self, id: TransferId, fault: Fault) -> Desk {
        if self.transfers.contains_key(id.0) {
            Desk {
                transfers: self.transfers.insert(
                    id.0,
                    cancelled_delivery(self.transfers[id.0], fault),
                ),
                ..self
            }
        } else {
            self
        }
    }

    pub open spec fn failing(self, id: TransferId, fault: Fault) -> Desk {
        if self.transfers.contains_key(id.0) {
            Desk {
                transfers: self.transfers.insert(
                    id.0,
                    failed_delivery(self.transfers[id.0], fault),
                ),
                ..self
            }
        } else {
            self
        }
    }

    /// An offer is withdrawn, with the drags of it, and unless only what was not accepted
    /// is meant, with its transfers.
    pub open spec fn revoking(self, offer: FileOfferId, clipboard_only: bool) -> Desk {
        Desk {
            offers: if self.offers.contains_key(offer.0) {
                self.offers.insert(offer.0, revoked_offer(self.offers[offer.0]))
            } else {
                self.offers
            },
            drags: kept(self.drags, |d: Drag| !revoked_drag(offer, clipboard_only)(d)),
            transfers: if clipboard_only {
                self.transfers
            } else {
                mapped(self.transfers, revoked_delivery(offer))
            },
            ..self
        }
    }

    /// A transfer is forgotten, its bytes counted.
    pub open spec fn forgetting(self, id: TransferId) -> Desk {
        let issues = other_issues(self.recovery_errors, id.0);
        let gone = self.recovery_errors.len() - issues.len();
        let counted = if self.transfers.contains_key(id.0) {
            let d = self.transfers[id.0];
            match d.record.direction {
                TransferDirection::Send => Desk {
                    retired_sent: vstd::wrapping::u64_specs::wrapping_add(
                        self.retired_sent,
                        d.progress,
                    ),
                    ..self
                },
                TransferDirection::Receive => Desk {
                    retired_received: vstd::wrapping::u64_specs::wrapping_add(
                        self.retired_received,
                        d.progress,
                    ),
                    ..self
                },
            }
        } else {
            self
        };
        Desk {
            transfers: self.transfers.remove(id.0),
            pins: self.pins.remove(id.0),
            cleanup_failures: self.cleanup_failures.remove(id.0),
            recovery_errors: issues,
            recovery_error_count: if self.recovery_error_count >= gone {
                (self.recovery_error_count - gone) as usize
            } else {
                0
            },
            drags: kept(self.drags, |d: Drag| d.transfer != Some(id)),
            ..counted
        }
    }
}

impl Service {
    pub open spec fn wf(&self) -> bool {
        &&& self.offers.wf()
        &&& self.transfers.wf()
        &&& self.drags.wf()
        &&& self.drop_replies.wf()
        &&& self.enumerations.wf()
        &&& self.pins.wf()
        &&& self.clearing.wf()
        &&& self.cleanup_failures.wf()
    }

    fn find_policy(&self, peer: &MachineId) -> (r: usize)
        ensures
            r == policy_place(self.policy.peers@, peer@),
            r <= self.policy.peers@.len(),
    {
        let mut at: usize = 0;
        let ghost all = self.policy.peers@;
        proof {
            lemma_policy_place(all, peer@);
        }
        while at < self.policy.peers.len() && !self.policy.peers[at].peer.same(peer)
            invariant
                all == self.policy.peers@,
                at <= all.len(),
                forall|i: int| 0 <= i < at ==> (#[trigger] all[i]).peer@ != peer@,
            ensures
                at <= all.len(),
                forall|i: int| 0 <= i < at ==> (#[trigger] all[i]).peer@ != peer@,
                at < all.len() ==> all[at as int].peer@ == peer@,
            decreases all.len() - at,
        {
            at = at + 1;
        }
        proof {
            let p = policy_place(all, peer@);
            if p < at {
                assert(all[p].peer@ == peer@);
            }
            if at < p {
                assert(all[at as int].peer@ == peer@);
            }
        }
        at
    }

    fn find_wire(&self, peer: &MachineId) -> (r: usize)
        ensures
            r == wire_place(self.wires@, peer@),
            r <= self.wires@.len(),
    {
        let mut at: usize = 0;
        let ghost all = self.wires@;
        proof {
            lemma_wire_place(all, peer@);
        }
        while at < self.wires.len() && !self.wires[at].peer.same(peer)
            invariant
                all == self.wires@,
                at <= all.len(),
                forall|i: int| 0 <= i < at ==> (#[trigger] all[i]).peer@ != peer@,
            ensures
                at <= all.len(),
                forall|i: int| 0 <= i < at ==> (#[trigger] all[i]).peer@ != peer@,
                at < all.len() ==> all[at as int].peer@ == peer@,
            decreases all.len() - at,
        {
            at = at + 1;
        }
        proof {
            let p = wire_place(all, peer@);
            if p < at {
                assert(all[p].peer@ == peer@);
            }
            if at < p {
                assert(all[at as int].peer@ == peer@);
            }
        }
        at
    }

    pub fn epoch(&self, peer: &MachineId) -> (r: u64)
        ensures
            r == self@.epoch(peer@),
    {
        let at: usize = self.find_policy(peer);
        if at < self.policy.peers.len() {
            self.policy.peers[at].epoch
        } else {
            0
        }
    }

    pub(crate) fn admission(&self, peer: &MachineId) -> (r: Option<(u64, Ip)>)
        ensures
            r == self@.admitted(peer@),
    {
        let at: usize = self.find_policy(peer);
        if at < self.policy.peers.len() {
            self.policy.peers[at].admitted
        } else {
            None
        }
    }

    /// The connection on which a peer may share files.
    pub fn authorize(&self, peer: &MachineId) -> (r: Result<u64, FileError>)
        ensures
            r == self@.authorized(peer@),
    {
        if !self.enabled || !self.policy.enabled {
            return Err(FileError::Disabled);
        }
        match self.admission(peer) {
            None => Err(FileError::NotAuthorized),
            Some((generation, _)) => {
                let at: usize = self.find_wire(peer);
                if at < self.wires.len() && self.wires[at].generation == generation {
                    Ok(generation)
                } else {
                    Err(FileError::ConnectionChanged)
                }
            },
        }
    }

    pub fn stands(&self, peer: &MachineId, generation: u64, epoch: u64) -> (r: bool)
        ensures
            r == self@.stands(peer@, generation, epoch),
    {
        match self.authorize(peer) {
            Ok(current) => current == generation && self.epoch(peer) == epoch,
            Err(_) => false,
        }
    }

    /// Hands a message to a peer's connection.
    pub fn send(&mut self, peer: &MachineId, message: FileMessage) -> (r: Result<(), FileError>)
        requires
            old(self).wf(),
        ensures
            final(self).wf(),
            final(self)@ == old(self)@.posted(*peer, message),
            match r {
                Ok(_) => old(self)@.send_error(peer@) is None,
                Err(e) => old(self)@.send_error(peer@) == Some(e),
            },
    {
        match self.authorize(peer) {
            Ok(_) => {},
            Err(e) => {
                return Err(e);
            },
        }
        let at: usize = self.find_wire(peer);
        let room: u64 = self.wires[at].room;
        if room == 0 {
            return Err(FileError::QueueUnavailable);
        }
        let wire = Wire {
            peer: self.wires[at].peer.clone(),
            generation: self.wires[at].generation,
            room: room - 1,
        };
        self.wires.set(at, wire);
        self.outbox.push(Effect::Send { peer: peer.clone(), message });
        Ok(())
    }

    /// Answers a request.
    pub fn reply(&mut self, waiter: Option<u64>, result: Result<FileReply, Fault>)
        requires
            old(self).wf(),
        ensures
            final(self).wf(),
            final(self)@ == old(self)@.answered(waiter, result),
    {
        self.error = match &result {
            Ok(_) => None,
            Err(fault) => Some(fault.clone()),
        };
        if let Some(waiter) = waiter {
            self.outbox.push(Effect::Reply { waiter, result });
        }
    }

    pub fn other_side(&self, record: &OfferRecord) -> (r: MachineId)
        ensures
            r == self@.other_side(*record),
    {
        if record.owner.same(&self.id) {
            record.recipient.clone()
        } else {
            record.owner.clone()
        }
    }

    /// The offer, where it can be used.
    pub fn available(&self, id: FileOfferId, clock: Clock) -> (r: Result<
        &RegisteredOffer,
        FileError,
    >)
        requires
            self.wf(),
        ensures
            match r {
                Ok(offer) => self@.offer_error(id, clock) is None && *offer == self@.offers[id.0],
                Err(e) => self@.offer_error(id, clock) == Some(e),
            },
    {
        let Some(offer) = self.offers.get(id.0) else {
            return Err(FileError::UnknownOffer);
        };
        if offer.record.state != OfferState::Available || offer.record.expires_unix_ms
            <= clock.unix_ms {
            return Err(FileError::OfferGone);
        }
        let peer = self.other_side(&offer.record);
        match self.authorize(&peer) {
            Err(e) => Err(e),
            Ok(generation) => if generation == offer.generation && self.epoch(&peer)
                == offer.epoch {
                Ok(offer)
            } else {
                Err(FileError::OfferOutdated)
            },
        }
    }

    /// Tells a transfer to stop.
    pub fn cancel(&mut self, id: TransferId, fault: Fault)
        requires
            old(self).wf(),
        ensures
            final(self).wf(),
            final(self)@ == old(self)@.cancelling(id, fault),
    {
        let ghost before = self@;
        if let Some(delivery) = self.transfers.get_mut(id.0) {
            cancel_delivery(delivery, fault);
        }
        assert(self@.transfers =~= before.cancelling(id, fault).transfers);
    }

    /// Marks a transfer as failed.
    pub fn fail(&mut self, id: TransferId, fault: Fault)
        requires
            old(self).wf(),
        ensures
            final(self).wf(),
            final(self)@ == old(self)@.failing(id, fault),
    {
        let ghost before = self@;
        if let Some(delivery) = self.transfers.get_mut(id.0) {
            fail_delivery(delivery, fault);
        }
        assert(self@.transfers =~= before.failing(id, fault).transfers);
    }
}

pub(crate) fn cancel_delivery(delivery: &mut Delivery, fault: Fault)
    ensures
        *final(delivery) == cancelled_delivery(*old(delivery), fault),
{
    if delivery.record.state.terminal() {
        return ;
    }
    delivery.cancelled = true;
    delivery.token = None;
    delivery.source = None;
    if !delivery.running {
        delivery.record.state = TransferState::Cancelled;
    }
    delivery.record.error = Some(fault);
}

pub(crate) fn fail_delivery(delivery: &mut Delivery, fault: Fault)
    ensures
        *final(delivery) == failed_delivery(*old(delivery), fault),
{
    if delivery.record.state.terminal() {
        return ;
    }
    cancel_delivery(delivery, fault);
    if !delivery.running {
        delivery.record.state = TransferState::Failed;
    }
}

} // verus!
