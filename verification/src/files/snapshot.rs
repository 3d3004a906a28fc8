//! How sharing starts, and what is shown of it.

use super::desk::{Clock, Delivery, Desk, Service};
use super::faults::{fault_words, is_beginning, MAX_SHOWN};
use super::mailbox::Mailbox;
use super::records::{
    clone_fault, Fault, FileError, FileOfferId, FileState, Manifest, ManifestEntry, OfferOrigin,
    OfferRecord, OfferState, Policy, ReceiveDestination, ReceivedFiles, RecoveryIssue,
    TransferDirection, TransferId, TransferRecord, TransferState,
};
use crate::id_map::{ids_of, lists, IdMap};
use crate::machine::MachineId;
use crate::text::{a_short_text_is_kept, shortened};
use std::sync::Arc;
use vstd::prelude::*;
use vstd::utf8::encode_utf8;

verus! {

/// Issues that a summary shows.
pub const SHOWN_ISSUES: usize = 32;

/// Roots that a summary shows of an offer.
pub const SHOWN_ROOTS: usize = 8;

/// What is written down of a received transfer.
#[derive(Debug)]
pub struct Journal {
    pub record: TransferRecord,
    pub manifest: Arc<Manifest>,
    pub destination: ReceiveDestination,
}

impl Clone for Journal {
    fn clone(&self) -> (r: Self)
        ensures
            r == *self,
    {
        Journal {
            record: self.record.clone(),
            manifest: self.manifest.clone(),
            destination: self.destination.clone(),
        }
    }
}

/// What was found of earlier transfers.
#[derive(Debug)]
pub struct Recovered {
    pub journals: Vec<Journal>,
    pub errors: Vec<RecoveryIssue>,
    pub error_count: usize,
    pub untracked_cache_bytes: u64,
    pub cleanup_failures: Vec<TransferId>,
}

/// A transfer that an earlier run left.
pub open spec fn restored(journal: Journal, at: u64) -> Delivery {
    Delivery {
        record: journal.record,
        manifest: journal.manifest,
        destination: Some(journal.destination),
        generation: 0,
        epoch: 0,
        cancelled: false,
        progress: journal.record.bytes,
        token: None,
        source: None,
        deadline: at,
        running: false,
        receiver_ready: false,
    }
}

pub open spec fn all_restored(journals: Seq<Journal>, at: u64) -> Map<u128, Delivery>
    decreases journals.len(),
{
    if journals.len() == 0 {
        Map::empty()
    } else {
        all_restored(journals.drop_last(), at).insert(
            journals.last().record.id.0,
            restored(journals.last(), at),
        )
    }
}

pub open spec fn all_failures(ids: Seq<TransferId>) -> Map<u128, ()>
    decreases ids.len(),
{
    if ids.len() == 0 {
        Map::empty()
    } else {
        all_failures(ids.drop_last()).insert(ids.last().0, ())
    }
}

/// How a transfer is shown: with the bytes moved so far, and as being verified once all
/// of them are there.
pub open spec fn shown(d: Delivery) -> TransferRecord {
    TransferRecord {
        bytes: d.progress,
        state: if d.record.state is Receiving && d.progress == d.record.total_bytes {
            TransferState::Verifying
        } else {
            d.record.state
        },
        ..d.record
    }
}

/// Bytes moved in one direction, modulo what a counter holds.
pub open spec fn moved(
    ids: Seq<u128>,
    transfers: Map<u128, Delivery>,
    direction: TransferDirection,
    before: u64,
) -> u64
    decreases ids.len(),
{
    if ids.len() == 0 {
        before
    } else {
        let rest = moved(ids.drop_last(), transfers, direction, before);
        let d = transfers[ids.last()];
        if d.record.direction == direction {
            vstd::wrapping::u64_specs::wrapping_add(rest, d.progress)
        } else {
            rest
        }
    }
}

/// What is shown of sharing.
pub open spec fn shows(desk: Desk, state: FileState) -> bool {
    let offers = ids_of(desk.offers);
    let transfers = ids_of(desk.transfers);
    &&& state.recovery_errors@ == desk.recovery_errors
    &&& state.recovery_error_count == desk.recovery_error_count
    &&& state.offers@ == Seq::new(offers.len(), |i: int| desk.offers[offers[i]].record)
    &&& state.transfers@ == Seq::new(
        transfers.len(),
        |i: int| shown(desk.transfers[transfers[i]]),
    )
    &&& state.error == desk.error
    &&& state.enabled == (desk.enabled && desk.policy.enabled)
    &&& state.payload_bytes_sent == moved(
        transfers,
        desk.transfers,
        TransferDirection::Send,
        desk.retired_sent,
    )
    &&& state.payload_bytes_received == moved(
        transfers,
        desk.transfers,
        TransferDirection::Receive,
        desk.retired_received,
    )
}

fn show(d: &Delivery) -> (r: TransferRecord)
    ensures
        r == shown(*d),
{
    let mut record = d.record.clone();
    record.bytes = d.progress;
    if record.state == TransferState::Receiving && record.bytes == record.total_bytes {
        record.state = TransferState::Verifying;
    }
    record
}

impl Service {
    /// Sharing starts with what an earlier run left.
    pub fn new(id: MachineId, policy: Policy, enabled: bool, recovered: Recovered, clock: Clock) -> (r:
        Service)
        ensures
            r.wf(),
            r@ == (Desk {
                clipboard: r.clipboard,
                id,
                policy,
                wires: Seq::empty(),
                outbox: Seq::empty(),
                enabled,
                setting: None,
                offers: Map::empty(),
                transfers: all_restored(recovered.journals@, clock.at),
                drags: Map::empty(),
                drop_replies: Map::empty(),
                enumerations: Map::empty(),
                enumeration_id: 0,
                clipboard_generation: None,
                clipboard_selection: None,
                pins: Map::empty(),
                clearing: Map::empty(),
                retired_sent: 0,
                retired_received: 0,
                error: None,
                recovery_errors: recovered.errors@,
                recovery_error_count: recovered.error_count,
                untracked_cache_bytes: recovered.untracked_cache_bytes,
                cleanup_failures: all_failures(recovered.cleanup_failures@),
            }),
            r.clipboard == (Mailbox { epoch: 0, update: None, closed: false }),
    {
        let mut transfers: IdMap<Delivery> = IdMap::new();
        assert(recovered.journals@.take(0) =~= Seq::empty());
        for i in 0..recovered.journals.len()
            invariant
                transfers.wf(),
                transfers@ == all_restored(recovered.journals@.take(i as int), clock.at),
        {
            let journal = &recovered.journals[i];
            assert(recovered.journals@.take(i + 1).drop_last() =~= recovered.journals@.take(
                i as int,
            ));
            transfers.insert(
                journal.record.id.0,
                Delivery {
                    record: journal.record.clone(),
                    manifest: journal.manifest.clone(),
                    destination: Some(journal.destination.clone()),
                    generation: 0,
                    epoch: 0,
                    cancelled: false,
                    progress: journal.record.bytes,
                    token: None,
                    source: None,
                    deadline: clock.at,
                    running: false,
                    receiver_ready: false,
                },
            );
        }
        assert(recovered.journals@.take(recovered.journals@.len() as int) =~= recovered.journals@);
        let mut failures: IdMap<()> = IdMap::new();
        assert(recovered.cleanup_failures@.take(0) =~= Seq::empty());
        for i in 0..recovered.cleanup_failures.len()
            invariant
                failures.wf(),
                failures@ == all_failures(recovered.cleanup_failures@.take(i as int)),
        {
            assert(recovered.cleanup_failures@.take(i + 1).drop_last()
                =~= recovered.cleanup_failures@.take(i as int));
            failures.insert(recovered.cleanup_failures[i].0, ());
        }
        assert(recovered.cleanup_failures@.take(recovered.cleanup_failures@.len() as int)
            =~= recovered.cleanup_failures@);
        Service {
            clipboard: Mailbox::new(),
            id,
            policy,
            wires: Vec::new(),
            outbox: Vec::new(),
            enabled,
            setting: None,
            offers: IdMap::new(),
            transfers,
            drags: IdMap::new(),
            drop_replies: IdMap::new(),
            enumerations: IdMap::new(),
            enumeration_id: 0,
            clipboard_generation: None,
            clipboard_selection: None,
            pins: IdMap::new(),
            clearing: IdMap::new(),
            retired_sent: 0,
            retired_received: 0,
            error: None,
            recovery_errors: recovered.errors,
            recovery_error_count: recovered.error_count,
            untracked_cache_bytes: recovered.untracked_cache_bytes,
            cleanup_failures: failures,
        }
    }

    fn shown_offers(&self) -> (r: Vec<OfferRecord>)
        requires
            self.wf(),
        ensures
            r@ == Seq::new(
                ids_of(self@.offers).len(),
                |i: int| self@.offers[ids_of(self@.offers)[i]].record,
            ),
    {
        let ids = self.offers.all_ids();
        let mut out: Vec<OfferRecord> = Vec::new();
        for i in 0..ids.len()
            invariant
                self.wf(),
                ids@ == ids_of(self@.offers),
                lists(ids@, self@.offers),
                out@.len() == i,
                forall|k: int|
                    0 <= k < i ==> (#[trigger] out@[k]) == self@.offers[ids@[k]].record,
        {
            assert(ids@.contains(ids@[i as int]));
            if let Some(o) = self.offers.get(ids[i]) {
                out.push(o.record.clone());
            }
        }
        out
    }

    /// What is shown of sharing.
    pub fn publish(&self) -> (r: FileState)
        requires
            self.wf(),
        ensures
            shows(self@, r),
    {
        let ids = self.transfers.all_ids();
        let mut transfers: Vec<TransferRecord> = Vec::new();
        let mut sent: u64 = self.retired_sent;
        let mut received: u64 = self.retired_received;
        assert(ids@.take(0) =~= Seq::empty());
        for i in 0..ids.len()
            invariant
                self.wf(),
                ids@ == ids_of(self@.transfers),
                lists(ids@, self@.transfers),
                transfers@.len() == i,
                forall|k: int|
                    0 <= k < i ==> (#[trigger] transfers@[k]) == shown(self@.transfers[ids@[k]]),
                sent == moved(
                    ids@.take(i as int),
                    self@.transfers,
                    TransferDirection::Send,
                    self.retired_sent,
                ),
                received == moved(
                    ids@.take(i as int),
                    self@.transfers,
                    TransferDirection::Receive,
                    self.retired_received,
                ),
        {
            assert(ids@.contains(ids@[i as int]));
            assert(ids@.take(i + 1).drop_last() =~= ids@.take(i as int));
            if let Some(d) = self.transfers.get(ids[i]) {
                transfers.push(show(d));
                if d.record.direction == TransferDirection::Send {
                    sent = sent.wrapping_add(d.progress);
                } else {
                    received = received.wrapping_add(d.progress);
                }
            }
        }
        assert(ids@.take(ids@.len() as int) =~= ids@);
        assert(transfers@ =~= Seq::new(ids@.len(), |i: int| shown(self@.transfers[ids@[i]])));
        FileState {
            recovery_errors: copied_issues(&self.recovery_errors),
            recovery_error_count: self.recovery_error_count,
            offers: self.shown_offers(),
            transfers,
            error: clone_fault(&self.error),
            enabled: self.enabled && self.policy.enabled,
            payload_bytes_sent: sent,
            payload_bytes_received: received,
        }
    }
}

fn copied_issues(issues: &Vec<RecoveryIssue>) -> (r: Vec<RecoveryIssue>)
    ensures
        r@ == issues@,
{
    let mut out: Vec<RecoveryIssue> = Vec::new();
    for i in 0..issues.len()
        invariant
            out@ =~= issues@.take(i as int),
    {
        out.push(issues[i].clone());
    }
    out
}

impl Default for FileState {
    fn default() -> (r: Self)
        ensures
            r.recovery_errors@ == Seq::<RecoveryIssue>::empty(),
            r.recovery_error_count == 0,
            r.offers@ == Seq::<OfferRecord>::empty(),
            r.transfers@ == Seq::<TransferRecord>::empty(),
            r.error is None,
            !r.enabled,
            r.payload_bytes_sent == 0,
            r.payload_bytes_received == 0,
    {
        FileState {
            recovery_errors: Vec::new(),
            recovery_error_count: 0,
            offers: Vec::new(),
            transfers: Vec::new(),
            error: None,
            enabled: false,
            payload_bytes_sent: 0,
            payload_bytes_received: 0,
        }
    }
}

/// What became of a transfer that someone waits for.
#[derive(Debug)]
pub enum Wait {
    Ready(ReceivedFiles),
    Over(Fault),
    Pending,
}

/// Where a transfer stands among the shown ones, or their number.
pub open spec fn transfer_place(transfers: Seq<TransferRecord>, id: TransferId) -> int
    decreases transfers.len(),
{
    if transfers.len() == 0 {
        0
    } else if transfers[0].id == id {
        0
    } else {
        1 + transfer_place(transfers.skip(1), id)
    }
}

proof fn lemma_transfer_place(transfers: Seq<TransferRecord>, id: TransferId, at: int)
    requires
        0 <= at <= transfers.len(),
        forall|i: int| 0 <= i < at ==> (#[trigger] transfers[i]).id != id,
        at < transfers.len() ==> transfers[at].id == id,
    ensures
        transfer_place(transfers, id) == at,
    decreases transfers.len(),
{
    if transfers.len() > 0 && at > 0 {
        assert(transfers[0].id != id);
        let rest = transfers.skip(1);
        assert forall|i: int| 0 <= i < at - 1 implies (#[trigger] rest[i]).id != id by {
            assert(rest[i] == transfers[i + 1]);
        }
        lemma_transfer_place(rest, id, at - 1);
    }
}

pub open spec fn waited(state: FileState, id: TransferId) -> Wait {
    let at = transfer_place(state.transfers@, id);
    if at >= state.transfers@.len() {
        Wait::Over(Fault::Known(FileError::UnknownTransfer))
    } else {
        let record = state.transfers@[at];
        match record.state {
            TransferState::Ready => Wait::Ready(
                ReceivedFiles { transfer: id, paths: record.paths },
            ),
            TransferState::Failed | TransferState::Cancelled => Wait::Over(
                match record.error {
                    Some(fault) => fault,
                    None => Fault::Known(FileError::TransferCancelled),
                },
            ),
            _ => Wait::Pending,
        }
    }
}

impl FileState {
    /// What became of a transfer.
    pub fn wait(&self, id: TransferId) -> (r: Wait)
        ensures
            r == waited(*self, id),
    {
        let mut at: usize = 0;
        while at < self.transfers.len() && self.transfers[at].id != id
            invariant
                at <= self.transfers@.len(),
                forall|i: int| 0 <= i < at ==> (#[trigger] self.transfers@[i]).id != id,
            ensures
                at <= self.transfers@.len(),
                forall|i: int| 0 <= i < at ==> (#[trigger] self.transfers@[i]).id != id,
                at < self.transfers@.len() ==> self.transfers@[at as int].id == id,
            decreases self.transfers@.len() - at,
        {
            at = at + 1;
        }
        proof {
            lemma_transfer_place(self.transfers@, id, at as int);
        }
        if at >= self.transfers.len() {
            return Wait::Over(Fault::Known(FileError::UnknownTransfer));
        }
        let record = &self.transfers[at];
        match record.state {
            TransferState::Ready => Wait::Ready(
                ReceivedFiles {
                    transfer: id,
                    paths: match &record.paths {
                        Some(paths) => Some(paths.clone()),
                        None => None,
                    },
                },
            ),
            TransferState::Failed | TransferState::Cancelled => Wait::Over(
                match &record.error {
                    Some(fault) => fault.clone(),
                    None => Fault::Known(FileError::TransferCancelled),
                },
            ),
            _ => Wait::Pending,
        }
    }
}

/// An offer in short.
#[derive(Debug)]
pub struct OfferSummary {
    pub id: FileOfferId,
    pub owner: MachineId,
    pub recipient: MachineId,
    pub origin: OfferOrigin,
    pub state: OfferState,
    pub expires_unix_ms: u64,
    pub roots: Vec<ManifestEntry>,
    pub root_count: usize,
    pub entry_count: usize,
    pub total_bytes: u64,
}

/// A transfer in short: without the places of its files.
#[derive(Debug)]
pub struct TransferSummary {
    pub id: TransferId,
    pub offer: FileOfferId,
    pub peer: MachineId,
    pub direction: TransferDirection,
    pub state: TransferState,
    pub bytes: u64,
    pub total_bytes: u64,
    pub error: Option<String>,
}

#[derive(Debug)]
pub struct FileSummary {
    pub recovery_errors: Vec<RecoveryIssue>,
    pub recovery_error_count: usize,
    pub offers: Vec<OfferSummary>,
    pub transfers: Vec<TransferSummary>,
    pub error: Option<String>,
    pub enabled: bool,
    pub payload_bytes_sent: u64,
    pub payload_bytes_received: u64,
}

/// Entries that are under no other.
pub open spec fn top_entries(entries: Seq<ManifestEntry>) -> Seq<ManifestEntry>
    decreases entries.len(),
{
    if entries.len() == 0 {
        Seq::empty()
    } else if entries.last().parent is None {
        top_entries(entries.drop_last()).push(entries.last())
    } else {
        top_entries(entries.drop_last())
    }
}

/// As many as are shown, from the front.
pub open spec fn front<T>(all: Seq<T>, limit: int) -> Seq<T> {
    if all.len() <= limit {
        all
    } else {
        all.take(limit)
    }
}

pub open spec fn issue_shown(issue: RecoveryIssue, short: RecoveryIssue) -> bool {
    short.transfer == issue.transfer && is_beginning(
        short.message@,
        issue.message@,
        MAX_SHOWN as nat,
    )
}

pub open spec fn fault_shown(fault: Option<Fault>, short: Option<String>) -> bool {
    match fault {
        None => short is None,
        Some(fault) => short matches Some(text) && is_beginning(
            text@,
            fault_words(fault),
            MAX_SHOWN as nat,
        ),
    }
}

pub open spec fn offer_shown(offer: OfferRecord, short: OfferSummary) -> bool {
    let roots = top_entries(offer.manifest.entries@);
    &&& short.id == offer.id
    &&& short.owner == offer.owner
    &&& short.recipient == offer.recipient
    &&& short.origin == offer.origin
    &&& short.state == offer.state
    &&& short.expires_unix_ms == offer.expires_unix_ms
    &&& short.roots@ == front(roots, SHOWN_ROOTS as int)
    &&& short.root_count == roots.len()
    &&& short.entry_count == offer.manifest.entries@.len()
    &&& short.total_bytes == offer.manifest.total_bytes
}

pub open spec fn transfer_shown(record: TransferRecord, short: TransferSummary) -> bool {
    &&& short.id == record.id
    &&& short.offer == record.offer
    &&& short.peer == record.peer
    &&& short.direction == record.direction
    &&& short.state == record.state
    &&& short.bytes == record.bytes
    &&& short.total_bytes == record.total_bytes
    &&& fault_shown(record.error, short.error)
}

/// The state of sharing in short.
pub open spec fn summarizes(state: FileState, summary: FileSummary) -> bool {
    let issues = front(state.recovery_errors@, SHOWN_ISSUES as int);
    &&& summary.recovery_errors@.len() == issues.len()
    &&& forall|i: int|
        0 <= i < issues.len() ==> issue_shown(issues[i], #[trigger] summary.recovery_errors@[i])
    &&& summary.recovery_error_count == state.recovery_error_count
    &&& summary.offers@.len() == state.offers@.len()
    &&& forall|i: int|
        0 <= i < state.offers@.len() ==> offer_shown(
            state.offers@[i],
            #[trigger] summary.offers@[i],
        )
    &&& summary.transfers@.len() == state.transfers@.len()
    &&& forall|i: int|
        0 <= i < state.transfers@.len() ==> transfer_shown(
            state.transfers@[i],
            #[trigger] summary.transfers@[i],
        )
    &&& fault_shown(state.error, summary.error)
    &&& summary.enabled == state.enabled
    &&& summary.payload_bytes_sent == state.payload_bytes_sent
    &&& summary.payload_bytes_received == state.payload_bytes_received
}

fn show_fault(fault: &Option<Fault>) -> (r: Option<String>)
    ensures
        fault_shown(*fault, r),
{
    match fault {
        None => None,
        Some(fault) => Some(fault.shown()),
    }
}

fn show_offer(offer: &OfferRecord) -> (r: OfferSummary)
    ensures
        offer_shown(*offer, r),
{
    let entries = &offer.manifest.entries;
    let mut roots: Vec<ManifestEntry> = Vec::new();
    let mut root_count: usize = 0;
    assert(entries@.take(0) =~= Seq::empty());
    for i in 0..entries.len()
        invariant
            root_count <= i <= entries@.len(),
            root_count == top_entries(entries@.take(i as int)).len(),
            roots@ == front(top_entries(entries@.take(i as int)), SHOWN_ROOTS as int),
    {
        assert(entries@.take(i + 1).drop_last() =~= entries@.take(i as int));
        if entries[i].parent.is_none() {
            if roots.len() < SHOWN_ROOTS {
                roots.push(entries[i].clone());
            }
            root_count = root_count + 1;
        }
    }
    assert(entries@.take(entries@.len() as int) =~= entries@);
    OfferSummary {
        id: offer.id,
        owner: offer.owner.clone(),
        recipient: offer.recipient.clone(),
        origin: offer.origin,
        state: offer.state,
        expires_unix_ms: offer.expires_unix_ms,
        roots,
        root_count,
        entry_count: entries.len(),
        total_bytes: offer.manifest.total_bytes,
    }
}

fn show_issues(issues: &Vec<RecoveryIssue>) -> (r: Vec<RecoveryIssue>)
    ensures
        r@.len() == front(issues@, SHOWN_ISSUES as int).len(),
        forall|i: int| 0 <= i < r@.len() ==> issue_shown(issues@[i], #[trigger] r@[i]),
{
    let mut out: Vec<RecoveryIssue> = Vec::new();
    while out.len() < issues.len() && out.len() < SHOWN_ISSUES
        invariant
            out@.len() <= issues@.len(),
            out@.len() <= SHOWN_ISSUES,
            forall|i: int| 0 <= i < out@.len() ==> issue_shown(issues@[i], #[trigger] out@[i]),
        decreases issues@.len() - out@.len(),
    {
        let issue = &issues[out.len()];
        out.push(
            RecoveryIssue {
                transfer: issue.transfer,
                message: shortened(issue.message.as_str(), MAX_SHOWN),
            },
        );
    }
    out
}

impl<'a> From<&'a FileState> for FileSummary {
    fn from(state: &'a FileState) -> (r: Self)
        ensures
            summarizes(*state, r),
    {
        let mut offers: Vec<OfferSummary> = Vec::new();
        for i in 0..state.offers.len()
            invariant
                offers@.len() == i,
                forall|k: int|
                    0 <= k < i ==> offer_shown(state.offers@[k], #[trigger] offers@[k]),
        {
            offers.push(show_offer(&state.offers[i]));
        }
        let mut transfers: Vec<TransferSummary> = Vec::new();
        for i in 0..state.transfers.len()
            invariant
                transfers@.len() == i,
                forall|k: int|
                    0 <= k < i ==> transfer_shown(state.transfers@[k], #[trigger] transfers@[k]),
        {
            let t = &state.transfers[i];
            transfers.push(
                TransferSummary {
                    id: t.id,
                    offer: t.offer,
                    peer: t.peer.clone(),
                    direction: t.direction,
                    state: t.state,
                    bytes: t.bytes,
                    total_bytes: t.total_bytes,
                    error: show_fault(&t.error),
                },
            );
        }
        FileSummary {
            recovery_errors: show_issues(&state.recovery_errors),
            recovery_error_count: state.recovery_error_count,
            offers,
            transfers,
            error: show_fault(&state.error),
            enabled: state.enabled,
            payload_bytes_sent: state.payload_bytes_sent,
            payload_bytes_received: state.payload_bytes_received,
        }
    }
}

impl<'a> vstd::std_specs::convert::FromSpecImpl<&'a FileState> for FileSummary {
    open spec fn obeys_from_spec() -> bool {
        false
    }

    open spec fn from_spec(state: &'a FileState) -> Self {
        arbitrary()
    }
}

/// A summary stays small, whatever it summarizes: few issues, few roots of each offer, and
/// every fault cut short.
pub proof fn a_summary_stays_small(state: FileState, summary: FileSummary)
    requires
        summarizes(state, summary),
    ensures
        summary.recovery_errors@.len() <= SHOWN_ISSUES,
        forall|i: int|
            0 <= i < summary.recovery_errors@.len() ==> encode_utf8(
                (#[trigger] summary.recovery_errors@[i]).message@,
            ).len() <= MAX_SHOWN,
        forall|i: int|
            0 <= i < summary.offers@.len() ==> (#[trigger] summary.offers@[i]).roots@.len()
                <= SHOWN_ROOTS,
        forall|i: int|
            0 <= i < summary.transfers@.len() && (
            #[trigger] summary.transfers@[i]).error is Some ==> encode_utf8(
                summary.transfers@[i].error->0@,
            ).len() <= MAX_SHOWN,
        summary.error matches Some(text) ==> encode_utf8(text@).len() <= MAX_SHOWN,
{
    let issues = front(state.recovery_errors@, SHOWN_ISSUES as int);
    assert forall|i: int| 0 <= i < summary.recovery_errors@.len() implies encode_utf8(
        (#[trigger] summary.recovery_errors@[i]).message@,
    ).len() <= MAX_SHOWN by {
        a_short_text_is_kept(issues[i].message@, MAX_SHOWN as nat);
    }
    assert forall|i: int| 0 <= i < summary.transfers@.len() && (
    #[trigger] summary.transfers@[i]).error is Some implies encode_utf8(
        summary.transfers@[i].error->0@,
    ).len() <= MAX_SHOWN by {
        assert(transfer_shown(state.transfers@[i], summary.transfers@[i]));
        a_short_text_is_kept(fault_words(state.transfers@[i].error->0), MAX_SHOWN as nat);
    }
    if summary.error is Some {
        a_short_text_is_kept(fault_words(state.error->0), MAX_SHOWN as nat);
    }
}

/// A transfer when the service stops.
pub open spec fn halted(record: TransferRecord, fault: Fault) -> TransferRecord {
    if record.state.is_terminal() {
        record
    } else {
        TransferRecord { state: TransferState::Failed, error: Some(fault), ..record }
    }
}

impl FileState {
    /// The service stopped: nothing is shared, and what was under way has failed.
    pub fn halt(&mut self, why: &str)
        ensures
            final(self).error matches Some(fault) && fault_words(fault) == "file service: "@ + why@
                && final(self).transfers@ == Seq::new(
                old(self).transfers@.len(),
                |i: int| halted(old(self).transfers@[i], fault),
            ) && *final(self) == (FileState {
                enabled: false,
                error: Some(fault),
                transfers: final(self).transfers,
                ..*old(self)
            }),
    {
        let mut text = "file service: ".to_owned();
        text.append(why);
        let fault = Fault::Said(text);
        let ghost before = self.transfers@;
        let count: usize = self.transfers.len();
        for i in 0..count
            invariant
                count == before.len(),
                self.transfers@.len() == count,
                forall|k: int|
                    0 <= k < i ==> (#[trigger] self.transfers@[k]) == halted(before[k], fault),
                forall|k: int| i <= k < count ==> (#[trigger] self.transfers@[k]) == before[k],
                *self == (FileState { transfers: self.transfers, ..*old(self) }),
        {
            if !self.transfers[i].state.terminal() {
                let record = &mut self.transfers[i];
                record.state = TransferState::Failed;
                record.error = Some(fault.clone());
            }
        }
        assert(self.transfers@ =~= Seq::new(before.len(), |i: int| halted(before[i], fault)));
        self.enabled = false;
        self.error = Some(fault);
    }
}

} // verus!
