//! What is withdrawn, forgotten and limited.

use super::desk::{
    other_issues, refused, revoked_delivery, revoked_drag, Delivery, Desk, Drag, Effect,
    Enumeration, RegisteredOffer, Service, MAX_ACTIVE, MAX_CLEARING, MAX_DRAGS, MAX_OFFERS,
    MAX_PEER_ACTIVE, MAX_PEER_DRAGS, MAX_PEER_OFFERS, MAX_RECORDS,
};
use super::mailbox::Update;
use super::records::{
    Fault, FileError, FileMessage, FileOfferId, OfferOrigin, OfferState, RecoveryIssue,
    TransferDirection, TransferId,
};
use crate::id_map::{
    changed, count_of, ids_of, kept, lemma_change_all, lemma_change_step, lemma_pick_step,
    lemma_prune_all, lemma_prune_step, lists, mapped, picked, pruned,
};
use crate::machine::MachineId;
use vstd::prelude::*;

verus! {

/// Transfers kept before the oldest are retired.
pub const HISTORY_FULL: usize = 192;

/// Transfers kept after the oldest are retired.
pub const HISTORY_KEPT: usize = 128;

/// Drags kept before those that are over are dropped.
pub const DRAGS_FULL: usize = 256;

/// A transfer that holds a place among the active ones.
pub open spec fn is_active() -> spec_fn(Delivery) -> bool {
    |d: Delivery| !d.record.state.is_terminal() || d.running
}

pub open spec fn is_active_with(peer: Seq<char>) -> spec_fn(Delivery) -> bool {
    |d: Delivery| is_active()(d) && d.record.peer@ == peer
}

/// A drag that still holds what is dragged.
pub open spec fn is_live(d: Drag) -> bool {
    d.manifest is Some && d.manifest->0.entries@.len() > 0
}

pub open spec fn is_live_with(peer: Seq<char>) -> spec_fn(Drag) -> bool {
    |d: Drag| is_live(d) && d.peer@ == peer
}

/// An available offer that involves a peer.
pub open spec fn is_offered_with(peer: Seq<char>) -> spec_fn(RegisteredOffer) -> bool {
    |o: RegisteredOffer|
        o.record.state is Available && (o.record.owner@ == peer || o.record.recipient@ == peer)
}

pub open spec fn is_for(peer: Seq<char>) -> spec_fn(Enumeration) -> bool {
    |e: Enumeration| e.recipient@ == peer
}

/// Transfers that can be retired: over, clean, and without files of their own.
pub open spec fn is_history(failures: Map<u128, ()>) -> spec_fn(Delivery) -> bool {
    |d: Delivery|
        d.record.state.is_terminal() && !failures.contains_key(d.record.id.0) && !d.running && (
        d.record.direction is Send || !d.record.has_paths())
}

/// A drag whose transfer is over lets go of what was dragged.
pub open spec fn settled_drag(transfers: Map<u128, Delivery>) -> spec_fn(Drag) -> Drag {
    |d: Drag|
        if d.transfer matches Some(id) && is_over(transfers, id) {
            Drag { source: None, manifest: None, ..d }
        } else {
            d
        }
}

/// A transfer has ended, or is forgotten.
pub open spec fn is_over(transfers: Map<u128, Delivery>, id: TransferId) -> bool {
    !transfers.contains_key(id.0) || (transfers[id.0].record.state.is_terminal()
        && !transfers[id.0].running)
}

/// Identities in the order of their transfers' deadlines.
pub open spec fn by_deadline(ids: Seq<u128>, transfers: Map<u128, Delivery>) -> Seq<u128>
    decreases ids.len(),
{
    if ids.len() == 0 {
        Seq::empty()
    } else {
        let before = by_deadline(ids.drop_last(), transfers);
        before.insert(
            room_for(before, transfers[ids.last()].deadline, transfers),
            ids.last(),
        )
    }
}

/// The place behind all that are due no later.
pub open spec fn room_for(sorted: Seq<u128>, deadline: u64, transfers: Map<u128, Delivery>) -> int
    decreases sorted.len(),
{
    if sorted.len() == 0 || transfers[sorted.last()].deadline <= deadline {
        sorted.len() as int
    } else {
        room_for(sorted.drop_last(), deadline, transfers)
    }
}

impl Desk {
    /// Why a received transfer cannot be cleared.
    pub open spec fn clear_error(self, id: TransferId) -> Option<FileError> {
        if self.clearing.len() >= MAX_CLEARING {
            Some(FileError::ClearLimit)
        } else if !self.transfers.contains_key(id.0) {
            Some(FileError::UnknownTransfer)
        } else {
            let d = self.transfers[id.0];
            if !(d.record.direction is Receive && d.record.state.is_terminal() && !d.running) {
                Some(FileError::StillActive)
            } else if self.clearing.contains_key(id.0) || (self.pins.contains_key(id.0)
                && self.pins[id.0] > 0) {
                Some(FileError::RetainedOrClearing)
            } else {
                None
            }
        }
    }

    /// A received transfer is cleared, or the refusal answered.
    pub open spec fn clearing_received(self, id: TransferId, waiter: Option<u64>) -> Desk {
        match self.clear_error(id) {
            Some(e) => self.answered(waiter, refused(e)),
            None => Desk {
                clearing: self.clearing.insert(id.0, waiter),
                outbox: self.outbox.push(Effect::Clear { transfer: id }),
                ..self
            },
        }
    }

    /// Transfers are retired one by one: sent ones are forgotten, received ones cleared as
    /// long as a place for that is free.
    pub open spec fn retiring(self, ids: Seq<u128>) -> Desk
        decreases ids.len(),
    {
        if ids.len() == 0 {
            self
        } else {
            let id = TransferId(ids[0]);
            let rest = ids.skip(1);
            if !self.transfers.contains_key(ids[0]) {
                self.retiring(rest)
            } else if self.transfers[ids[0]].record.direction is Send {
                self.forgetting(id).retiring(rest)
            } else if self.clearing.contains_key(ids[0]) {
                self.retiring(rest)
            } else if self.clearing.len() >= MAX_CLEARING {
                self
            } else {
                self.clearing_received(id, None).retiring(rest)
            }
        }
    }

    /// Transfers that are retired when the history is full, the oldest first.
    pub open spec fn to_retire(self) -> Seq<u128> {
        let over = picked(
            ids_of(self.transfers),
            self.transfers,
            is_history(self.cleanup_failures),
        );
        let sorted = by_deadline(over, self.transfers);
        let excess = self.transfers.len() - HISTORY_KEPT;
        if excess < sorted.len() {
            sorted.take(excess)
        } else {
            sorted
        }
    }

    pub open spec fn history_retired(self) -> Desk {
        if self.transfers.len() < HISTORY_FULL {
            self
        } else {
            self.retiring(self.to_retire())
        }
    }

    pub open spec fn drags_retired(self) -> Desk {
        let settled = mapped(self.drags, settled_drag(self.transfers));
        Desk {
            drags: if settled.len() >= DRAGS_FULL {
                kept(settled, |d: Drag| is_live(d))
            } else {
                settled
            },
            ..self
        }
    }

    /// Why a transfer with a peer cannot begin.
    pub open spec fn capacity_error(self, peer: Seq<char>) -> Option<FileError> {
        if self.transfers.len() >= MAX_RECORDS {
            Some(FileError::RecordLimit)
        } else if count_of(self.transfers, is_active()) >= MAX_ACTIVE || count_of(
            self.transfers,
            is_active_with(peer),
        ) >= MAX_PEER_ACTIVE {
            Some(FileError::ConcurrencyLimit)
        } else {
            None
        }
    }

    /// Why a drag with a peer cannot begin.
    pub open spec fn drag_error(self, peer: Seq<char>) -> Option<FileError> {
        if count_of(self.drags, |d: Drag| is_live(d)) >= MAX_DRAGS || count_of(
            self.drags,
            is_live_with(peer),
        ) >= MAX_PEER_DRAGS {
            Some(FileError::DragLimit)
        } else {
            None
        }
    }

    /// Offers that are over make room where the registry is full.
    pub open spec fn offers_retired(self) -> Desk {
        if self.offers.len() + self.enumerations.len() >= MAX_OFFERS {
            Desk {
                offers: kept(self.offers, |o: RegisteredOffer| o.record.state is Available),
                ..self
            }
        } else {
            self
        }
    }

    /// Why an offer with a peer cannot be taken.
    pub open spec fn registry_error(self, peer: Seq<char>) -> Option<FileError> {
        if self.offers.len() + self.enumerations.len() >= MAX_OFFERS {
            Some(FileError::OfferRegistryFull)
        } else if count_of(self.offers, is_offered_with(peer)) + count_of(
            self.enumerations,
            is_for(peer),
        ) >= MAX_PEER_OFFERS {
            Some(FileError::PeerOfferLimit)
        } else {
            None
        }
    }
}

proof fn lemma_room(sorted: Seq<u128>, deadline: u64, transfers: Map<u128, Delivery>)
    ensures
        0 <= room_for(sorted, deadline, transfers) <= sorted.len(),
    decreases sorted.len(),
{
    if sorted.len() > 0 && transfers[sorted.last()].deadline > deadline {
        lemma_room(sorted.drop_last(), deadline, transfers);
    }
}

impl Service {
    /// Withdraws an offer.
    pub fn revoke(&mut self, offer: FileOfferId, clipboard_only: bool)
        requires
            old(self).wf(),
        ensures
            final(self).wf(),
            final(self)@ == old(self)@.revoking(offer, clipboard_only),
    {
        let ghost before = self@;
        let ghost goal = before.revoking(offer, clipboard_only);
        if let Some(registered) = self.offers.get_mut(offer.0) {
            registered.record.state = OfferState::Revoked;
            registered.source = None;
        }
        assert(self@.offers =~= goal.offers);
        self.drop_revoked_drags(offer, clipboard_only);
        if !clipboard_only {
            let ids = self.transfers.all_ids();
            let ghost change = revoked_delivery(offer);
            for i in 0..ids.len()
                invariant
                    self.wf(),
                    lists(ids@, before.transfers),
                    change == revoked_delivery(offer),
                    self@ == (Desk {
                        offers: goal.offers,
                        drags: goal.drags,
                        transfers: changed(before.transfers, ids@.take(i as int), change),
                        ..before
                    }),
            {
                proof {
                    lemma_change_step(before.transfers, ids@, i as int, change);
                }
                let ghost earlier = self@.transfers;
                if let Some(delivery) = self.transfers.get_mut(ids[i]) {
                    if delivery.record.offer == offer {
                        super::desk::cancel_delivery(
                            delivery,
                            Fault::Known(FileError::OfferRevoked),
                        );
                    }
                }
                assert(self@.transfers =~= earlier.insert(
                    ids@[i as int],
                    change(before.transfers[ids@[i as int]]),
                ));
            }
            proof {
                lemma_change_all(before.transfers, ids@, change);
            }
        }
    }

    fn drop_revoked_drags(&mut self, offer: FileOfferId, clipboard_only: bool)
        requires
            old(self).wf(),
        ensures
            final(self).wf(),
            final(self)@ == (Desk {
                drags: kept(
                    old(self)@.drags,
                    |d: Drag| !revoked_drag(offer, clipboard_only)(d),
                ),
                ..old(self)@
            }),
    {
        let ghost before = self@;
        let ids = self.drags.all_ids();
        let ghost keep = |d: Drag| !revoked_drag(offer, clipboard_only)(d);
        let ghost drop = |d: Drag| !keep(d);
        for i in 0..ids.len()
            invariant
                self.wf(),
                lists(ids@, before.drags),
                keep == (|d: Drag| !revoked_drag(offer, clipboard_only)(d)),
                drop == (|d: Drag| !keep(d)),
                self@ == (Desk {
                    drags: pruned(before.drags, ids@.take(i as int), drop),
                    ..before
                }),
        {
            proof {
                lemma_prune_step(before.drags, ids@, i as int, drop);
            }
            let ends: bool = match self.drags.get(ids[i]) {
                Some(d) => d.offer == offer && (!clipboard_only || !d.dropped),
                None => false,
            };
            if ends {
                self.drags.remove(ids[i]);
            }
        }
        proof {
            lemma_prune_all(before.drags, ids@, keep);
        }
    }

    fn drop_drags_of(&mut self, id: TransferId)
        requires
            old(self).wf(),
        ensures
            final(self).wf(),
            final(self)@ == (Desk {
                drags: kept(old(self)@.drags, |d: Drag| d.transfer != Some(id)),
                ..old(self)@
            }),
    {
        let ghost before = self@;
        let ids = self.drags.all_ids();
        let ghost keep = |d: Drag| d.transfer != Some(id);
        let ghost drop = |d: Drag| !keep(d);
        for i in 0..ids.len()
            invariant
                self.wf(),
                lists(ids@, before.drags),
                keep == (|d: Drag| d.transfer != Some(id)),
                drop == (|d: Drag| !keep(d)),
                self@ == (Desk {
                    drags: pruned(before.drags, ids@.take(i as int), drop),
                    ..before
                }),
        {
            proof {
                lemma_prune_step(before.drags, ids@, i as int, drop);
            }
            let ends: bool = match self.drags.get(ids[i]) {
                Some(d) => match d.transfer {
                    Some(transfer) => transfer == id,
                    None => false,
                },
                None => false,
            };
            if ends {
                self.drags.remove(ids[i]);
            }
        }
        proof {
            lemma_prune_all(before.drags, ids@, keep);
        }
    }

    fn drop_issues(&mut self, id: TransferId)
        requires
            old(self).wf(),
        ensures
            final(self).wf(),
            ({
                let before = old(self)@;
                let issues = other_issues(before.recovery_errors, id.0);
                let gone = before.recovery_errors.len() - issues.len();
                final(self)@ == (Desk {
                    recovery_errors: issues,
                    recovery_error_count: if before.recovery_error_count >= gone {
                        (before.recovery_error_count - gone) as usize
                    } else {
                        0
                    },
                    ..before
                })
            }),
    {
        let ghost all = self.recovery_errors@;
        let mut issues: Vec<RecoveryIssue> = Vec::new();
        assert(all.take(0) =~= Seq::empty());
        for i in 0..self.recovery_errors.len()
            invariant
                all == self.recovery_errors@,
                issues@ == other_issues(all.take(i as int), id.0),
                issues@.len() <= i,
        {
            assert(all.take(i + 1).drop_last() =~= all.take(i as int));
            let about: bool = match self.recovery_errors[i].transfer {
                Some(transfer) => transfer == id,
                None => false,
            };
            if !about {
                issues.push(self.recovery_errors[i].clone());
            }
        }
        assert(all.take(all.len() as int) =~= all);
        let gone: usize = self.recovery_errors.len() - issues.len();
        self.recovery_errors = issues;
        if self.recovery_error_count >= gone {
            self.recovery_error_count = self.recovery_error_count - gone;
        } else {
            self.recovery_error_count = 0;
        }
    }

    /// Forgets a transfer.
    pub fn remove_record(&mut self, id: TransferId)
        requires
            old(self).wf(),
        ensures
            final(self).wf(),
            final(self)@ == old(self)@.forgetting(id),
    {
        let ghost before = self@;
        if let Some(delivery) = self.transfers.remove(id.0) {
            match delivery.record.direction {
                TransferDirection::Send => {
                    self.retired_sent = self.retired_sent.wrapping_add(delivery.progress);
                },
                TransferDirection::Receive => {
                    self.retired_received = self.retired_received.wrapping_add(delivery.progress);
                },
            }
        }
        self.pins.remove(id.0);
        self.cleanup_failures.remove(id.0);
        self.drop_issues(id);
        self.drop_drags_of(id);
    }

    /// Begins to clear a received transfer.
    pub fn clear_received(&mut self, id: TransferId, waiter: Option<u64>)
        requires
            old(self).wf(),
        ensures
            final(self).wf(),
            final(self)@ == old(self)@.clearing_received(id, waiter),
    {
        let error: Option<FileError> = if self.clearing.len() >= MAX_CLEARING {
            Some(FileError::ClearLimit)
        } else {
            match self.transfers.get(id.0) {
                None => Some(FileError::UnknownTransfer),
                Some(d) => {
                    let pinned: bool = match self.pins.get(id.0) {
                        Some(leases) => *leases > 0,
                        None => false,
                    };
                    if d.record.direction != TransferDirection::Receive
                        || !d.record.state.terminal() || d.running {
                        Some(FileError::StillActive)
                    } else if self.clearing.contains(id.0) || pinned {
                        Some(FileError::RetainedOrClearing)
                    } else {
                        None
                    }
                },
            }
        };
        match error {
            Some(e) => {
                self.reply(waiter, Err(Fault::Known(e)));
            },
            None => {
                self.clearing.insert(id.0, waiter);
                self.outbox.push(Effect::Clear { transfer: id });
            },
        }
    }

    /// Transfers that can be retired, in the order of their deadlines.
    fn history(&self) -> (r: Vec<u128>)
        requires
            self.wf(),
        ensures
            r@ == by_deadline(
                picked(
                    ids_of(self@.transfers),
                    self@.transfers,
                    is_history(self@.cleanup_failures),
                ),
                self@.transfers,
            ),
            forall|k: int| 0 <= k < r@.len() ==> self@.transfers.contains_key(#[trigger] r@[k]),
    {
        let ids = self.transfers.all_ids();
        let ghost all = self@.transfers;
        let ghost keep = is_history(self@.cleanup_failures);
        let mut out: Vec<u128> = Vec::new();
        assert(ids@.take(0) =~= Seq::empty());
        for i in 0..ids.len()
            invariant
                self.wf(),
                all == self@.transfers,
                lists(ids@, all),
                keep == is_history(self@.cleanup_failures),
                out@ == by_deadline(picked(ids@.take(i as int), all, keep), all),
                forall|k: int| 0 <= k < out@.len() ==> all.contains_key(#[trigger] out@[k]),
        {
            proof {
                lemma_pick_step(all, ids@, i as int, keep);
                assert(ids@.contains(ids@[i as int]));
            }
            let id: u128 = ids[i];
            if let Some(d) = self.transfers.get(id) {
                if d.record.state.terminal() && !self.cleanup_failures.contains(d.record.id.0)
                    && !d.running && (d.record.direction == TransferDirection::Send
                    || !d.record.placed()) {
                    let ghost sorted = out@;
                    let at: usize = self.find_room(&out, d.deadline);
                    proof {
                        let now = picked(ids@.take(i + 1), all, keep);
                        assert(now.drop_last() =~= picked(ids@.take(i as int), all, keep));
                    }
                    out.insert(at, id);
                    assert forall|k: int| 0 <= k < out@.len() implies all.contains_key(
                        #[trigger] out@[k],
                    ) by {
                        if k < at {
                            assert(all.contains_key(sorted[k]));
                        } else if k > at {
                            assert(all.contains_key(sorted[k - 1]));
                        }
                    }
                }
            }
        }
        assert(ids@.take(ids@.len() as int) =~= ids@);
        out
    }

    fn find_room(&self, sorted: &Vec<u128>, deadline: u64) -> (r: usize)
        requires
            self.wf(),
            forall|k: int|
                0 <= k < sorted@.len() ==> self@.transfers.contains_key(#[trigger] sorted@[k]),
        ensures
            r == room_for(sorted@, deadline, self@.transfers),
            r <= sorted@.len(),
    {
        let mut at: usize = sorted.len();
        assert(sorted@.take(at as int) =~= sorted@);
        while at > 0
            invariant
                self.wf(),
                at <= sorted@.len(),
                forall|k: int|
                    0 <= k < sorted@.len() ==> self@.transfers.contains_key(#[trigger] sorted@[k]),
                room_for(sorted@.take(at as int), deadline, self@.transfers) == room_for(
                    sorted@,
                    deadline,
                    self@.transfers,
                ),
            decreases at,
        {
            assert(sorted@.take(at as int).drop_last() =~= sorted@.take(at - 1));
            assert(self@.transfers.contains_key(sorted@[at - 1]));
            let later: bool = match self.transfers.get(sorted[at - 1]) {
                Some(d) => d.deadline > deadline,
                None => false,
            };
            if !later {
                return at;
            }
            at = at - 1;
        }
        at
    }

    /// Retires the oldest transfers where too many are kept.
    pub fn retire_history(&mut self)
        requires
            old(self).wf(),
        ensures
            final(self).wf(),
            final(self)@ == old(self)@.history_retired(),
    {
        let count: usize = self.transfers.len();
        if count < HISTORY_FULL {
            return ;
        }
        let ghost goal = self@.history_retired();
        let ids = self.history();
        let excess: usize = count - HISTORY_KEPT;
        let limit: usize = if excess < ids.len() {
            excess
        } else {
            ids.len()
        };
        let ghost all = ids@.take(limit as int);
        assert(ids@.take(ids@.len() as int) =~= ids@);
        assert(all.skip(0) =~= all);
        let mut i: usize = 0;
        while i < limit
            invariant
                self.wf(),
                i <= limit <= ids@.len(),
                all == ids@.take(limit as int),
                self@.retiring(all.skip(i as int)) == goal,
            ensures
                self.wf(),
                self@ == goal,
            decreases limit - i,
        {
            let ghost rest = all.skip(i as int);
            assert(rest.skip(1) =~= all.skip(i + 1));
            assert(rest[0] == ids@[i as int]);
            let id: u128 = ids[i];
            let direction: Option<TransferDirection> = match self.transfers.get(id) {
                Some(d) => Some(d.record.direction),
                None => None,
            };
            match direction {
                None => {},
                Some(TransferDirection::Send) => {
                    self.remove_record(TransferId(id));
                },
                Some(TransferDirection::Receive) => {
                    if !self.clearing.contains(id) {
                        if self.clearing.len() >= MAX_CLEARING {
                            break ;
                        }
                        self.clear_received(TransferId(id), None);
                    }
                },
            }
            i = i + 1;
        }
    }
}

/// An enumeration of the clipboard is stopped.
pub open spec fn stopped_clipboard(e: Enumeration) -> Enumeration {
    if e.origin is Clipboard {
        Enumeration { cancelled: true, ..e }
    } else {
        e
    }
}

/// A machine's own offer of its clipboard.
pub open spec fn is_own_clipboard(id: Seq<char>) -> spec_fn(RegisteredOffer) -> bool {
    |o: RegisteredOffer| o.record.owner@ == id && o.record.origin is Clipboard
}

impl Desk {
    /// Clipboard offers are withdrawn one by one, as far as they were not accepted.
    pub open spec fn withdrawing(self, offers: Seq<u128>) -> Desk
        decreases offers.len(),
    {
        if offers.len() == 0 {
            self
        } else {
            let offer = FileOfferId(offers.last());
            let before = self.withdrawing(offers.drop_last());
            before.posted(
                self.offers[offers.last()].record.recipient,
                FileMessage::Revoke { offer, unaccepted_only: true },
            ).revoking(offer, true)
        }
    }

    /// The file clipboard is emptied, and what was offered of it withdrawn.
    pub open spec fn clipboard_cleared(self) -> Desk {
        let emptied = Desk {
            clipboard_selection: None,
            clipboard_generation: None,
            enumerations: mapped(self.enumerations, |e: Enumeration| stopped_clipboard(e)),
            ..self
        };
        emptied.withdrawing(picked(ids_of(self.offers), self.offers, is_own_clipboard(self.id@)))
    }

    /// A change of the file clipboard takes effect; a capture counts where sharing is on
    /// and was not shut off since.
    pub open spec fn clipboard_applied(self, update: Update) -> Desk {
        let newest = match self.clipboard.update {
            Some(latest) => latest,
            None => update,
        };
        let cleared = Desk {
            clipboard: super::mailbox::Mailbox { update: None, ..self.clipboard },
            ..self
        }.clipboard_cleared();
        match newest {
            Update::Capture { selection, generation, epoch } => if self.enabled
                && self.policy.enabled && self.policy.clipboard_enabled && self.clipboard.epoch
                == epoch {
                Desk {
                    clipboard_generation: Some(generation),
                    clipboard_selection: Some(selection),
                    ..cleared
                }
            } else {
                cleared
            },
            Update::Clear => cleared,
        }
    }

    /// A change that waits takes effect.
    pub open spec fn synced(self) -> Desk {
        match self.clipboard.update {
            Some(update) => Desk {
                clipboard: super::mailbox::Mailbox { update: None, ..self.clipboard },
                ..self
            }.clipboard_applied(update),
            None => self,
        }
    }
}

proof fn lemma_withdrawing(desk: Desk, offers: Seq<u128>)
    ensures
        forall|id: u128| #[trigger]
            desk.withdrawing(offers).offers.contains_key(id) == desk.offers.contains_key(id),
        forall|id: u128| #[trigger]
            desk.offers.contains_key(id) ==> desk.withdrawing(offers).offers[id].record.recipient
                == desk.offers[id].record.recipient,
    decreases offers.len(),
{
    if offers.len() > 0 {
        lemma_withdrawing(desk, offers.drop_last());
    }
}

impl Service {
    /// Drags whose transfers are over let go of what was dragged; where too many are kept,
    /// they are dropped.
    pub fn retire_drags(&mut self)
        requires
            old(self).wf(),
        ensures
            final(self).wf(),
            final(self)@ == old(self)@.drags_retired(),
    {
        let ghost before = self@;
        let ids = self.drags.all_ids();
        let ghost change = settled_drag(before.transfers);
        for i in 0..ids.len()
            invariant
                self.wf(),
                lists(ids@, before.drags),
                change == settled_drag(before.transfers),
                self@ == (Desk {
                    drags: changed(before.drags, ids@.take(i as int), change),
                    ..before
                }),
        {
            proof {
                lemma_change_step(before.drags, ids@, i as int, change);
            }
            let ghost earlier = self@.drags;
            let transfer: Option<TransferId> = match self.drags.get(ids[i]) {
                Some(d) => d.transfer,
                None => None,
            };
            let over: bool = match transfer {
                Some(id) => match self.transfers.get(id.0) {
                    Some(d) => d.record.state.terminal() && !d.running,
                    None => true,
                },
                None => false,
            };
            if over {
                if let Some(drag) = self.drags.get_mut(ids[i]) {
                    drag.source = None;
                    drag.manifest = None;
                }
            }
            assert(self@.drags =~= earlier.insert(
                ids@[i as int],
                change(before.drags[ids@[i as int]]),
            ));
        }
        proof {
            lemma_change_all(before.drags, ids@, change);
        }
        let ghost settled = self@;
        if self.drags.len() >= DRAGS_FULL {
            let ids = self.drags.all_ids();
            let ghost keep = |d: Drag| is_live(d);
            let ghost drop = |d: Drag| !keep(d);
            for i in 0..ids.len()
                invariant
                    self.wf(),
                    lists(ids@, settled.drags),
                    keep == (|d: Drag| is_live(d)),
                    drop == (|d: Drag| !keep(d)),
                    self@ == (Desk {
                        drags: pruned(settled.drags, ids@.take(i as int), drop),
                        ..settled
                    }),
            {
                proof {
                    lemma_prune_step(settled.drags, ids@, i as int, drop);
                }
                let live: bool = match self.drags.get(ids[i]) {
                    Some(d) => drag_is_live(d),
                    None => true,
                };
                if !live {
                    self.drags.remove(ids[i]);
                }
            }
            proof {
                lemma_prune_all(settled.drags, ids@, keep);
            }
        }
    }

    /// Whether a transfer with a peer can begin; the history makes room first.
    pub fn capacity(&mut self, peer: &MachineId) -> (r: Result<(), FileError>)
        requires
            old(self).wf(),
        ensures
            final(self).wf(),
            final(self)@ == old(self)@.history_retired(),
            match r {
                Ok(_) => final(self)@.capacity_error(peer@) is None,
                Err(e) => final(self)@.capacity_error(peer@) == Some(e),
            },
    {
        self.retire_history();
        if self.transfers.len() >= MAX_RECORDS {
            return Err(FileError::RecordLimit);
        }
        let ids = self.transfers.all_ids();
        let ghost all = self@.transfers;
        let mut active: usize = 0;
        let mut with_peer: usize = 0;
        assert(ids@.take(0) =~= Seq::empty());
        for i in 0..ids.len()
            invariant
                self.wf(),
                all == self@.transfers,
                lists(ids@, all),
                active == picked(ids@.take(i as int), all, is_active()).len(),
                with_peer == picked(ids@.take(i as int), all, is_active_with(peer@)).len(),
                active <= i,
                with_peer <= i,
        {
            proof {
                lemma_pick_step(all, ids@, i as int, is_active());
                lemma_pick_step(all, ids@, i as int, is_active_with(peer@));
                assert(ids@.contains(ids@[i as int]));
            }
            if let Some(d) = self.transfers.get(ids[i]) {
                if !d.record.state.terminal() || d.running {
                    active = active + 1;
                    if d.record.peer.same(peer) {
                        with_peer = with_peer + 1;
                    }
                }
            }
        }
        assert(ids@.take(ids@.len() as int) =~= ids@);
        if active >= MAX_ACTIVE || with_peer >= MAX_PEER_ACTIVE {
            return Err(FileError::ConcurrencyLimit);
        }
        Ok(())
    }

    /// Whether a drag with a peer can begin; drags that are over make room first.
    pub fn drag_capacity(&mut self, peer: &MachineId) -> (r: Result<(), FileError>)
        requires
            old(self).wf(),
        ensures
            final(self).wf(),
            final(self)@ == old(self)@.drags_retired(),
            match r {
                Ok(_) => final(self)@.drag_error(peer@) is None,
                Err(e) => final(self)@.drag_error(peer@) == Some(e),
            },
    {
        self.retire_drags();
        let ids = self.drags.all_ids();
        let ghost all = self@.drags;
        let mut live: usize = 0;
        let mut with_peer: usize = 0;
        assert(ids@.take(0) =~= Seq::empty());
        for i in 0..ids.len()
            invariant
                self.wf(),
                all == self@.drags,
                lists(ids@, all),
                live == picked(ids@.take(i as int), all, |d: Drag| is_live(d)).len(),
                with_peer == picked(ids@.take(i as int), all, is_live_with(peer@)).len(),
                live <= i,
                with_peer <= i,
        {
            proof {
                lemma_pick_step(all, ids@, i as int, |d: Drag| is_live(d));
                lemma_pick_step(all, ids@, i as int, is_live_with(peer@));
                assert(ids@.contains(ids@[i as int]));
            }
            if let Some(d) = self.drags.get(ids[i]) {
                if drag_is_live(d) {
                    live = live + 1;
                    if d.peer.same(peer) {
                        with_peer = with_peer + 1;
                    }
                }
            }
        }
        assert(ids@.take(ids@.len() as int) =~= ids@);
        if live >= MAX_DRAGS || with_peer >= MAX_PEER_DRAGS {
            return Err(FileError::DragLimit);
        }
        Ok(())
    }

    fn retire_offers(&mut self)
        requires
            old(self).wf(),
        ensures
            final(self).wf(),
            final(self)@ == old(self)@.offers_retired(),
    {
        if self.offers.len() < MAX_OFFERS && self.enumerations.len() < MAX_OFFERS
            - self.offers.len() {
            return ;
        }
        let ghost before = self@;
        let ids = self.offers.all_ids();
        let ghost keep = |o: RegisteredOffer| o.record.state is Available;
        let ghost drop = |o: RegisteredOffer| !keep(o);
        for i in 0..ids.len()
            invariant
                self.wf(),
                lists(ids@, before.offers),
                keep == (|o: RegisteredOffer| o.record.state is Available),
                drop == (|o: RegisteredOffer| !keep(o)),
                self@ == (Desk {
                    offers: pruned(before.offers, ids@.take(i as int), drop),
                    ..before
                }),
        {
            proof {
                lemma_prune_step(before.offers, ids@, i as int, drop);
            }
            let available: bool = match self.offers.get(ids[i]) {
                Some(o) => o.record.state == OfferState::Available,
                None => true,
            };
            if !available {
                self.offers.remove(ids[i]);
            }
        }
        proof {
            lemma_prune_all(before.offers, ids@, keep);
        }
    }

    /// Whether an offer with a peer can be taken; offers that are over make room first.
    pub fn offer_capacity(&mut self, peer: &MachineId) -> (r: Result<(), FileError>)
        requires
            old(self).wf(),
        ensures
            final(self).wf(),
            final(self)@ == old(self)@.offers_retired(),
            match r {
                Ok(_) => final(self)@.registry_error(peer@) is None,
                Err(e) => final(self)@.registry_error(peer@) == Some(e),
            },
    {
        self.retire_offers();
        if self.offers.len() >= MAX_OFFERS || self.enumerations.len() >= MAX_OFFERS
            - self.offers.len() {
            return Err(FileError::OfferRegistryFull);
        }
        let ids = self.offers.all_ids();
        let ghost all = self@.offers;
        let mut offered: usize = 0;
        assert(ids@.take(0) =~= Seq::empty());
        for i in 0..ids.len()
            invariant
                self.wf(),
                all == self@.offers,
                lists(ids@, all),
                offered == picked(ids@.take(i as int), all, is_offered_with(peer@)).len(),
                offered <= i,
        {
            proof {
                lemma_pick_step(all, ids@, i as int, is_offered_with(peer@));
                assert(ids@.contains(ids@[i as int]));
            }
            if let Some(o) = self.offers.get(ids[i]) {
                if o.record.state == OfferState::Available && (o.record.owner.same(peer)
                    || o.record.recipient.same(peer)) {
                    offered = offered + 1;
                }
            }
        }
        assert(ids@.take(ids@.len() as int) =~= ids@);
        let walks = self.enumerations.all_ids();
        let ghost every = self@.enumerations;
        let mut walking: usize = 0;
        assert(walks@.take(0) =~= Seq::empty());
        for i in 0..walks.len()
            invariant
                self.wf(),
                every == self@.enumerations,
                lists(walks@, every),
                walking == picked(walks@.take(i as int), every, is_for(peer@)).len(),
                walking <= i,
        {
            proof {
                lemma_pick_step(every, walks@, i as int, is_for(peer@));
                assert(walks@.contains(walks@[i as int]));
            }
            if let Some(e) = self.enumerations.get(walks[i]) {
                if e.recipient.same(peer) {
                    walking = walking + 1;
                }
            }
        }
        assert(walks@.take(walks@.len() as int) =~= walks@);
        if offered >= MAX_PEER_OFFERS || walking >= MAX_PEER_OFFERS - offered {
            return Err(FileError::PeerOfferLimit);
        }
        Ok(())
    }

    fn stop_clipboard_walks(&mut self)
        requires
            old(self).wf(),
        ensures
            final(self).wf(),
            final(self)@ == (Desk {
                enumerations: mapped(
                    old(self)@.enumerations,
                    |e: Enumeration| stopped_clipboard(e),
                ),
                ..old(self)@
            }),
    {
        let ghost before = self@;
        let ids = self.enumerations.all_ids();
        let ghost change = |e: Enumeration| stopped_clipboard(e);
        for i in 0..ids.len()
            invariant
                self.wf(),
                lists(ids@, before.enumerations),
                change == (|e: Enumeration| stopped_clipboard(e)),
                self@ == (Desk {
                    enumerations: changed(before.enumerations, ids@.take(i as int), change),
                    ..before
                }),
        {
            proof {
                lemma_change_step(before.enumerations, ids@, i as int, change);
            }
            let ghost earlier = self@.enumerations;
            if let Some(e) = self.enumerations.get_mut(ids[i]) {
                if let OfferOrigin::Clipboard { .. } = e.origin {
                    e.cancelled = true;
                }
            }
            assert(self@.enumerations =~= earlier.insert(
                ids@[i as int],
                change(before.enumerations[ids@[i as int]]),
            ));
        }
        proof {
            lemma_change_all(before.enumerations, ids@, change);
        }
    }

    /// Withdraws clipboard offers as far as they were not accepted.
    pub(crate) fn withdraw(&mut self, offers: &Vec<u128>)
        requires
            old(self).wf(),
            forall|i: int|
                0 <= i < offers@.len() ==> old(self)@.offers.contains_key(#[trigger] offers@[i]),
        ensures
            final(self).wf(),
            final(self)@ == old(self)@.withdrawing(offers@),
    {
        let ghost before = self@;
        let ghost all = offers@;
        assert(all.take(0) =~= Seq::empty());
        for i in 0..offers.len()
            invariant
                self.wf(),
                all == offers@,
                forall|k: int|
                    0 <= k < all.len() ==> before.offers.contains_key(#[trigger] all[k]),
                self@ == before.withdrawing(all.take(i as int)),
        {
            assert(all.take(i + 1).drop_last() =~= all.take(i as int));
            proof {
                lemma_withdrawing(before, all.take(i as int));
                assert(before.offers.contains_key(all[i as int]));
            }
            let offer = FileOfferId(offers[i]);
            let peer: MachineId = match self.offers.get(offers[i]) {
                Some(o) => o.record.recipient.clone(),
                None => {
                    assert(false);
                    self.id.clone()
                },
            };
            let _ = self.send(&peer, FileMessage::Revoke { offer, unaccepted_only: true });
            self.revoke(offer, true);
        }
        assert(all.take(all.len() as int) =~= all);
    }

    /// Empties the file clipboard.
    pub fn clear_clipboard_selection(&mut self)
        requires
            old(self).wf(),
        ensures
            final(self).wf(),
            final(self)@ == old(self)@.clipboard_cleared(),
    {
        self.clipboard_selection = None;
        self.clipboard_generation = None;
        self.stop_clipboard_walks();
        let ids = self.offers.all_ids();
        let ghost all = self@.offers;
        let ghost keep = is_own_clipboard(self@.id@);
        let mut own: Vec<u128> = Vec::new();
        assert(ids@.take(0) =~= Seq::empty());
        for i in 0..ids.len()
            invariant
                self.wf(),
                all == self@.offers,
                lists(ids@, all),
                keep == is_own_clipboard(self@.id@),
                own@ == picked(ids@.take(i as int), all, keep),
                forall|k: int| 0 <= k < own@.len() ==> all.contains_key(#[trigger] own@[k]),
        {
            proof {
                lemma_pick_step(all, ids@, i as int, keep);
                assert(ids@.contains(ids@[i as int]));
            }
            if let Some(o) = self.offers.get(ids[i]) {
                let clipboard: bool = match o.record.origin {
                    OfferOrigin::Clipboard { .. } => true,
                    OfferOrigin::Selection => false,
                };
                if clipboard && o.record.owner.same(&self.id) {
                    own.push(ids[i]);
                }
            }
        }
        assert(ids@.take(ids@.len() as int) =~= ids@);
        self.withdraw(&own);
    }

    /// A change of the file clipboard takes effect.
    pub fn apply_clipboard(&mut self, update: Update)
        requires
            old(self).wf(),
        ensures
            final(self).wf(),
            final(self)@ == old(self)@.clipboard_applied(update),
    {
        let newest: Update = match self.clipboard.take() {
            Some(latest) => latest,
            None => update,
        };
        proof {
            let ghost middle = self@;
            lemma_clearing_keeps(middle);
        }
        self.clear_clipboard_selection();
        if let Update::Capture { selection, generation, epoch } = newest {
            if self.enabled && self.policy.enabled && self.policy.clipboard_enabled
                && self.clipboard.current(epoch) {
                self.clipboard_generation = Some(generation);
                self.clipboard_selection = Some(selection);
            }
        }
    }

    /// A change that waits takes effect.
    pub fn sync_clipboard(&mut self)
        requires
            old(self).wf(),
        ensures
            final(self).wf(),
            final(self)@ == old(self)@.synced(),
    {
        if let Some(update) = self.clipboard.take() {
            self.apply_clipboard(update);
        }
    }
}

pub proof fn lemma_withdrawing_keeps(desk: Desk, offers: Seq<u128>)
    ensures
        desk.withdrawing(offers).enumeration_id == desk.enumeration_id,
        desk.withdrawing(offers).pins == desk.pins,
        desk.withdrawing(offers).enabled == desk.enabled,
        desk.withdrawing(offers).policy == desk.policy,
        desk.withdrawing(offers).clipboard == desk.clipboard,
        desk.withdrawing(offers).id == desk.id,
    decreases offers.len(),
{
    if offers.len() > 0 {
        lemma_withdrawing_keeps(desk, offers.drop_last());
    }
}

/// A change of the file clipboard leaves the epoch and the count of walks.
pub proof fn lemma_sync_keeps(desk: Desk)
    ensures
        desk.synced().clipboard.epoch == desk.clipboard.epoch,
        desk.synced().enumeration_id == desk.enumeration_id,
        desk.synced().pins == desk.pins,
        desk.synced().policy == desk.policy,
        desk.synced().enabled == desk.enabled,
        desk.synced().id == desk.id,
{
    let emptied = Desk {
        clipboard: super::mailbox::Mailbox { update: None, ..desk.clipboard },
        ..desk
    };
    lemma_clearing_keeps(emptied);
}

proof fn lemma_clearing_keeps(desk: Desk)
    ensures
        desk.clipboard_cleared().enumeration_id == desk.enumeration_id,
        desk.clipboard_cleared().pins == desk.pins,
        desk.clipboard_cleared().id == desk.id,
        desk.clipboard_cleared().enabled == desk.enabled,
        desk.clipboard_cleared().policy == desk.policy,
        desk.clipboard_cleared().clipboard == desk.clipboard,
{
    let emptied = Desk {
        clipboard_selection: None,
        clipboard_generation: None,
        enumerations: mapped(desk.enumerations, |e: Enumeration| stopped_clipboard(e)),
        ..desk
    };
    lemma_withdrawing_keeps(
        emptied,
        picked(ids_of(desk.offers), desk.offers, is_own_clipboard(desk.id@)),
    );
}

fn drag_is_live(d: &Drag) -> (r: bool)
    ensures
        r == is_live(*d),
{
    match &d.manifest {
        Some(manifest) => manifest.entries.len() > 0,
        None => false,
    }
}

} // verus!
