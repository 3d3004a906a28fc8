//! What the user asks for.

use super::desk::{
    Clock, Delivery, Desk, Dice, Drag, Enumeration, RegisteredOffer, Service, CACHE_QUOTA,
    DEADLINE_MS, OFFER_LIFETIME_MS,
};
use super::records::{
    EntryId, Fault, FileCommand, FileError, FileMessage, FileOfferId, FileReply, Manifest,
    NativeDragId, OfferOrigin, ReceiveDestination, TransferDirection, TransferId, TransferRecord,
    TransferState,
};
use super::selection::{choice_fault, is_selected, select, top};
use crate::id_map::{
    changed, ids_of, lemma_change_all, lemma_change_step, lemma_pick_step, lists, mapped, picked,
};
use crate::machine::MachineId;
use std::sync::Arc;
use vstd::prelude::*;

verus! {

/// What is received, from whom, and on which connection.
pub struct Plan {
    pub peer: MachineId,
    pub generation: u64,
    pub manifest: Arc<Manifest>,
    pub roots: Arc<Vec<EntryId>>,
}

/// Bytes of the cache that a transfer takes.
pub open spec fn cache_share(d: Delivery, failures: Map<u128, ()>) -> int {
    if d.destination != Some(ReceiveDestination::Cache) {
        0
    } else if (d.record.state is Failed || d.record.state is Cancelled) && !d.record.has_paths()
        && !d.running && !failures.contains_key(d.record.id.0) {
        0
    } else {
        d.record.total_bytes as int
    }
}

pub open spec fn cache_shares(
    ids: Seq<u128>,
    transfers: Map<u128, Delivery>,
    failures: Map<u128, ()>,
) -> int
    decreases ids.len(),
{
    if ids.len() == 0 {
        0
    } else {
        cache_shares(ids.drop_last(), transfers, failures) + cache_share(
            transfers[ids.last()],
            failures,
        )
    }
}

impl Desk {
    /// Bytes that the cache holds, or will hold.
    pub open spec fn cache_bytes(self) -> int {
        self.untracked_cache_bytes + cache_shares(
            ids_of(self.transfers),
            self.transfers,
            self.cleanup_failures,
        )
    }

    /// Why nothing can be received of an offer, or of a drag of it.
    pub open spec fn plan_error(
        self,
        offer: FileOfferId,
        drag: Option<NativeDragId>,
        roots: Seq<EntryId>,
        clock: Clock,
    ) -> Option<FileError> {
        match drag {
            Some(drag) => if !self.drags.contains_key(drag.0) {
                Some(FileError::UnknownDrag)
            } else if !self.drags[drag.0].dropped || self.drags[drag.0].expires <= clock.unix_ms {
                Some(FileError::DragNotCommitted)
            } else if self.drags[drag.0].manifest is None {
                Some(FileError::UnknownDrag)
            } else {
                None
            },
            None => if self.offer_error(offer, clock) is Some {
                self.offer_error(offer, clock)
            } else if self.offers[offer.0].record.recipient@ != self.id@ {
                Some(FileError::OwnOffer)
            } else {
                choice_fault(*self.offers[offer.0].record.manifest, roots)
            },
        }
    }

    /// What is received of an offer, or of a drag of it.
    pub open spec fn is_plan(
        self,
        offer: FileOfferId,
        drag: Option<NativeDragId>,
        roots: Arc<Vec<EntryId>>,
        plan: Plan,
    ) -> bool {
        match drag {
            Some(drag) => {
                let d = self.drags[drag.0];
                &&& plan.peer == d.peer
                &&& plan.generation == d.generation
                &&& Some(plan.manifest) == d.manifest
                &&& plan.roots == d.roots
            },
            None => {
                let o = self.offers[offer.0];
                &&& plan.peer == o.record.owner
                &&& plan.generation == o.generation
                &&& is_selected(*o.record.manifest, roots@, *plan.manifest)
                &&& plan.roots == roots
            },
        }
    }

    /// A receive begins: the commit is sent, and the transfer awaits its grant.
    pub open spec fn receiving(
        self,
        offer: FileOfferId,
        destination: ReceiveDestination,
        drag: Option<NativeDragId>,
        plan: Plan,
        clock: Clock,
        dice: Dice,
    ) -> (Desk, Result<FileReply, FileError>) {
        let ready = self.history_retired();
        if self.authorized(plan.peer@) is Err {
            (self, Err(self.authorized(plan.peer@)->Err_0))
        } else if self.authorized(plan.peer@)->Ok_0 != plan.generation {
            (self, Err(FileError::ReceiveAuthorization))
        } else if ready.capacity_error(plan.peer@) is Some {
            (ready, Err(ready.capacity_error(plan.peer@)->0))
        } else if destination is Cache && ready.cache_bytes() + plan.manifest.total_bytes
            > CACHE_QUOTA {
            (ready, Err(FileError::QuotaExceeded))
        } else if dice.id is Err {
            (ready, Err(dice.id->Err_0.why()))
        } else if ready.send_error(plan.peer@) is Some {
            (ready, Err(ready.send_error(plan.peer@)->0))
        } else {
            let id = TransferId(dice.id->Ok_0);
            let sent = ready.posted(
                plan.peer,
                FileMessage::Commit {
                    offer,
                    generation: plan.manifest.generation,
                    transfer: id,
                    roots: plan.roots,
                    drag,
                },
            );
            let delivery = Delivery {
                epoch: self.epoch(plan.peer@),
                record: TransferRecord {
                    id,
                    offer,
                    peer: plan.peer,
                    direction: TransferDirection::Receive,
                    state: TransferState::Committed,
                    bytes: 0,
                    total_bytes: plan.manifest.total_bytes,
                    paths: None,
                    error: None,
                },
                manifest: plan.manifest,
                destination: Some(destination),
                generation: plan.generation,
                cancelled: false,
                progress: 0,
                token: None,
                source: None,
                deadline: (clock.at + DEADLINE_MS) as u64,
                running: false,
                receiver_ready: false,
            };
            let begun = Desk { transfers: sent.transfers.insert(id.0, delivery), ..sent };
            let bound = match drag {
                Some(drag) => begun.drag_bound(drag, id),
                None => begun,
            };
            (bound, Ok(FileReply::Receiving(id)))
        }
    }

    /// A drag is tied to its transfer.
    pub open spec fn drag_bound(self, drag: NativeDragId, id: TransferId) -> Desk {
        if self.drags.contains_key(drag.0) {
            Desk {
                drags: self.drags.insert(
                    drag.0,
                    Drag { transfer: Some(id), ..self.drags[drag.0] },
                ),
                ..self
            }
        } else {
            self
        }
    }
}

/// The outcome of a receive that was asked for.
pub open spec fn receives(
    desk: Desk,
    offer: FileOfferId,
    destination: ReceiveDestination,
    drag: Option<NativeDragId>,
    roots: Arc<Vec<EntryId>>,
    clock: Clock,
    dice: Dice,
    after: Desk,
    result: Result<FileReply, FileError>,
) -> bool {
    match desk.plan_error(offer, drag, roots@, clock) {
        Some(e) => after == desk && result == Err::<FileReply, FileError>(e),
        None => exists|plan: Plan| #[trigger]
            desk.is_plan(offer, drag, roots, plan) && (after, result) == desk.receiving(
                offer,
                destination,
                drag,
                plan,
                clock,
                dice,
            ),
    }
}

impl Service {
    fn plan(
        &self,
        offer: FileOfferId,
        drag: Option<NativeDragId>,
        roots: Arc<Vec<EntryId>>,
        clock: Clock,
    ) -> (r: Result<Plan, FileError>)
        requires
            self.wf(),
        ensures
            match r {
                Ok(plan) => self@.plan_error(offer, drag, roots@, clock) is None && self@.is_plan(
                    offer,
                    drag,
                    roots,
                    plan,
                ),
                Err(e) => self@.plan_error(offer, drag, roots@, clock) == Some(e),
            },
    {
        match drag {
            Some(drag) => {
                let Some(lease) = self.drags.get(drag.0) else {
                    return Err(FileError::UnknownDrag);
                };
                if !lease.dropped || lease.expires <= clock.unix_ms {
                    return Err(FileError::DragNotCommitted);
                }
                match &lease.manifest {
                    Some(manifest) => Ok(
                        Plan {
                            peer: lease.peer.clone(),
                            generation: lease.generation,
                            manifest: manifest.clone(),
                            roots: lease.roots.clone(),
                        },
                    ),
                    None => Err(FileError::UnknownDrag),
                }
            },
            None => {
                let registered = match self.available(offer, clock) {
                    Ok(registered) => registered,
                    Err(e) => {
                        return Err(e);
                    },
                };
                if !registered.record.recipient.same(&self.id) {
                    return Err(FileError::OwnOffer);
                }
                match select(&registered.record.manifest, &roots) {
                    Ok(manifest) => Ok(
                        Plan {
                            peer: registered.record.owner.clone(),
                            generation: registered.generation,
                            manifest,
                            roots,
                        },
                    ),
                    Err(e) => Err(e),
                }
            },
        }
    }

    /// Whether the cache takes some bytes more.
    fn cache_takes(&self, bytes: u64) -> (r: bool)
        requires
            self.wf(),
        ensures
            r == (self@.cache_bytes() + bytes <= CACHE_QUOTA),
    {
        let ids = self.transfers.all_ids();
        let ghost all = self@.transfers;
        let ghost failures = self@.cleanup_failures;
        let mut sum: u64 = self.untracked_cache_bytes;
        let ghost exact: int = self.untracked_cache_bytes as int;
        assert(ids@.take(0) =~= Seq::empty());
        for i in 0..ids.len()
            invariant
                self.wf(),
                all == self@.transfers,
                failures == self@.cleanup_failures,
                lists(ids@, all),
                exact == self@.untracked_cache_bytes + cache_shares(
                    ids@.take(i as int),
                    all,
                    failures,
                ),
                sum == if exact > u64::MAX {
                    u64::MAX as int
                } else {
                    exact
                },
        {
            assert(ids@.take(i + 1).drop_last() =~= ids@.take(i as int));
            assert(ids@.contains(ids@[i as int]));
            if let Some(d) = self.transfers.get(ids[i]) {
                let cached: bool = match &d.destination {
                    Some(ReceiveDestination::Cache) => true,
                    _ => false,
                };
                let stopped: bool = match d.record.state {
                    TransferState::Failed | TransferState::Cancelled => true,
                    _ => false,
                };
                if cached && !(stopped && !d.record.placed() && !d.running
                    && !self.cleanup_failures.contains(d.record.id.0)) {
                    sum = if d.record.total_bytes > u64::MAX - sum {
                        u64::MAX
                    } else {
                        sum + d.record.total_bytes
                    };
                }
                proof {
                    exact = exact + cache_share(*d, failures);
                }
            }
        }
        assert(ids@.take(ids@.len() as int) =~= ids@);
        sum <= CACHE_QUOTA && bytes <= CACHE_QUOTA - sum
    }

    /// Begins to receive.
    pub fn begin_receive(
        &mut self,
        offer: FileOfferId,
        destination: ReceiveDestination,
        drag: Option<NativeDragId>,
        roots: Arc<Vec<EntryId>>,
        clock: Clock,
        dice: &Dice,
    ) -> (r: Result<FileReply, FileError>)
        requires
            old(self).wf(),
            clock.sane(),
        ensures
            final(self).wf(),
            receives(
                old(self)@,
                offer,
                destination,
                drag,
                roots,
                clock,
                *dice,
                final(self)@,
                r,
            ),
    {
        let plan = match self.plan(offer, drag, roots, clock) {
            Ok(plan) => plan,
            Err(e) => {
                return Err(e);
            },
        };
        let ghost before = self@;
        assert(before.is_plan(offer, drag, roots, plan));
        match self.authorize(&plan.peer) {
            Ok(generation) => {
                if generation != plan.generation {
                    return Err(FileError::ReceiveAuthorization);
                }
            },
            Err(e) => {
                return Err(e);
            },
        }
        let epoch: u64 = self.epoch(&plan.peer);
        match self.capacity(&plan.peer) {
            Ok(_) => {},
            Err(e) => {
                return Err(e);
            },
        }
        let cached: bool = match &destination {
            ReceiveDestination::Cache => true,
            ReceiveDestination::Directory(_) => false,
        };
        if cached && !self.cache_takes(plan.manifest.total_bytes) {
            return Err(FileError::QuotaExceeded);
        }
        let number: u128 = match &dice.id {
            Ok(number) => *number,
            Err(undrawn) => {
                return Err(undrawn.error());
            },
        };
        let id = TransferId(number);
        let commit = FileMessage::Commit {
            offer,
            generation: plan.manifest.generation,
            transfer: id,
            roots: plan.roots.clone(),
            drag,
        };
        match self.send(&plan.peer, commit) {
            Ok(_) => {},
            Err(e) => {
                return Err(e);
            },
        }
        let delivery = Delivery {
            epoch,
            record: TransferRecord {
                id,
                offer,
                peer: plan.peer.clone(),
                direction: TransferDirection::Receive,
                state: TransferState::Committed,
                bytes: 0,
                total_bytes: plan.manifest.total_bytes,
                paths: None,
                error: None,
            },
            manifest: plan.manifest.clone(),
            destination: Some(destination),
            generation: plan.generation,
            cancelled: false,
            progress: 0,
            token: None,
            source: None,
            deadline: clock.at + DEADLINE_MS,
            running: false,
            receiver_ready: false,
        };
        self.transfers.insert(id.0, delivery);
        if let Some(drag) = drag {
            self.bind_drag(drag, id);
        }
        assert((self@, Ok::<FileReply, FileError>(FileReply::Receiving(id))) == before.receiving(
            offer,
            destination,
            drag,
            plan,
            clock,
            *dice,
        ));
        Ok(FileReply::Receiving(id))
    }

    pub(crate) fn bind_drag(&mut self, drag: NativeDragId, id: TransferId)
        requires
            old(self).wf(),
        ensures
            final(self).wf(),
            final(self)@ == old(self)@.drag_bound(drag, id),
    {
        if let Some(lease) = self.drags.get_mut(drag.0) {
            lease.transfer = Some(id);
        }
    }
}

/// Drags that were not accepted yet, of one peer or of all.
pub open spec fn is_pending_drag(peer: Option<Seq<char>>) -> spec_fn(Drag) -> bool {
    |d: Drag| d.transfer is None && (peer is None || peer == Some(d.peer@))
}

/// A walk of another clipboard stops.
pub open spec fn stale_walk(generation: u64) -> spec_fn(Enumeration) -> Enumeration {
    |e: Enumeration|
        if e.origin is Clipboard && e.origin->generation != generation {
            Enumeration { cancelled: true, ..e }
        } else {
            e
        }
}

/// A machine's own offer of another clipboard.
pub open spec fn is_stale_clipboard(id: Seq<char>, generation: u64) -> spec_fn(
    RegisteredOffer,
) -> bool {
    |o: RegisteredOffer|
        o.record.owner@ == id && o.record.origin is Clipboard && o.record.origin->generation
            != generation
}

impl Desk {
    /// Drags end one by one.
    pub open spec fn drags_cancelled(self, drags: Seq<u128>) -> Desk
        decreases drags.len(),
    {
        if drags.len() == 0 {
            self
        } else {
            self.drags_cancelled(drags.drop_last()).drag_cancelled(NativeDragId(drags.last()))
        }
    }

    pub open spec fn pending_cancelled(self, peer: Option<Seq<char>>) -> Desk {
        self.drags_cancelled(picked(ids_of(self.drags), self.drags, is_pending_drag(peer)))
    }

    /// The clipboard holds something else: what was offered of the old one is withdrawn.
    pub open spec fn clipboard_changed(self, generation: u64) -> Desk {
        let changed = Desk {
            clipboard_selection: if self.clipboard_generation == Some(generation) {
                self.clipboard_selection
            } else {
                None
            },
            clipboard_generation: Some(generation),
            enumerations: mapped(self.enumerations, stale_walk(generation)),
            ..self
        };
        changed.withdrawing(
            picked(ids_of(self.offers), self.offers, is_stale_clipboard(self.id@, generation)),
        )
    }

    /// Why an offer cannot be dragged.
    pub open spec fn prepare_error(
        self,
        offer: FileOfferId,
        entries: Seq<EntryId>,
        clock: Clock,
    ) -> Option<FileError> {
        if self.offer_error(offer, clock) is Some {
            self.offer_error(offer, clock)
        } else if self.offers[offer.0].record.recipient@ != self.id@ {
            Some(FileError::NotReceived)
        } else {
            choice_fault(*self.offers[offer.0].record.manifest, entries)
        }
    }

    /// A drag of an offer is prepared.
    pub open spec fn preparing(
        self,
        offer: FileOfferId,
        entries: Arc<Vec<EntryId>>,
        manifest: Arc<Manifest>,
        clock: Clock,
        dice: Dice,
    ) -> (Desk, Result<FileReply, FileError>) {
        let o = self.offers[offer.0];
        let peer = o.record.owner;
        let ready = self.drags_retired();
        if ready.drag_error(peer@) is Some {
            (ready, Err(ready.drag_error(peer@)->0))
        } else if dice.id is Err {
            (ready, Err(dice.id->Err_0.why()))
        } else if ready.send_error(peer@) is Some {
            (ready, Err(ready.send_error(peer@)->0))
        } else {
            let drag = NativeDragId(dice.id->Ok_0);
            let sent = ready.posted(
                peer,
                FileMessage::Prepare {
                    offer,
                    generation: manifest.generation,
                    drag,
                    roots: entries,
                },
            );
            (
                Desk {
                    drags: sent.drags.insert(
                        drag.0,
                        Drag {
                            epoch: self.epoch(peer@),
                            offer,
                            roots: entries,
                            dropped: false,
                            prepared: false,
                            transfer: None,
                            peer,
                            generation: o.generation,
                            expires: (clock.unix_ms + OFFER_LIFETIME_MS) as u64,
                            source: None,
                            manifest: Some(manifest),
                        },
                    ),
                    ..sent
                },
                Ok(FileReply::DragPrepared(drag)),
            )
        }
    }

    /// Why a drop cannot be announced.
    pub open spec fn drop_error(self, drag: NativeDragId, clock: Clock) -> Option<FileError> {
        if !self.drags.contains_key(drag.0) {
            Some(FileError::NoSuchDrag)
        } else {
            let d = self.drags[drag.0];
            if d.expires <= clock.unix_ms {
                Some(FileError::DragAuthorization)
            } else {
                match self.authorized(d.peer@) {
                    Err(e) => Some(e),
                    Ok(generation) => if generation != d.generation {
                        Some(FileError::DragAuthorization)
                    } else {
                        self.send_error(d.peer@)
                    },
                }
            }
        }
    }

    /// A drop is announced.
    pub open spec fn dropping(self, drag: NativeDragId) -> Desk {
        let sent = self.posted(self.drags[drag.0].peer, FileMessage::Dropped { drag });
        Desk {
            drags: sent.drags.insert(drag.0, Drag { dropped: true, ..sent.drags[drag.0] }),
            ..sent
        }
    }
}

/// The outcome of a command that needs no worker.
pub open spec fn acts(
    desk: Desk,
    command: FileCommand,
    clock: Clock,
    dice: Dice,
    after: Desk,
    result: Result<FileReply, FileError>,
) -> bool {
    let done = Ok::<FileReply, FileError>(FileReply::Done);
    match command {
        FileCommand::CancelDrags => after == desk.pending_cancelled(None) && result == done,
        FileCommand::CancelPeerDrags { peer } => after == desk.pending_cancelled(Some(peer@))
            && result == done,
        FileCommand::ClearClipboard => after == desk.clipboard_cleared() && result == done,
        FileCommand::Receive { offer, destination } => exists|roots: Arc<Vec<EntryId>>|
            roots@.len() == 0 && #[trigger] receives(
                desk,
                offer,
                destination,
                None,
                roots,
                clock,
                dice,
                after,
                result,
            ),
        FileCommand::Retry { transfer } => if !desk.transfers.contains_key(transfer.0) {
            after == desk && result == Err::<FileReply, FileError>(FileError::UnknownTransfer)
        } else {
            let d = desk.transfers[transfer.0];
            if !(d.record.state is Failed || d.record.state is Cancelled) || d.running {
                after == desk && result == Err::<FileReply, FileError>(FileError::NotRetryable)
            } else if d.destination is None {
                after == desk && result == Err::<FileReply, FileError>(FileError::RetryAtReceiver)
            } else {
                exists|roots: Arc<Vec<EntryId>>|
                    roots@ == top(d.manifest.entries@) && #[trigger] receives(
                        desk,
                        d.record.offer,
                        d.destination->0,
                        None,
                        roots,
                        clock,
                        dice,
                        after,
                        result,
                    )
            }
        },
        FileCommand::Revoke { offer } => if !desk.offers.contains_key(offer.0) {
            after == desk && result == Err::<FileReply, FileError>(FileError::UnknownOffer)
        } else {
            after == desk.posted(
                desk.other_side(desk.offers[offer.0].record),
                FileMessage::Revoke { offer, unaccepted_only: false },
            ).revoking(offer, false) && result == done
        },
        FileCommand::Cancel { transfer } => if !desk.transfers.contains_key(transfer.0) {
            after == desk && result == Err::<FileReply, FileError>(FileError::UnknownTransfer)
        } else {
            after == desk.cancelling(transfer, Fault::Known(FileError::CancelledByUser)).posted(
                desk.transfers[transfer.0].record.peer,
                FileMessage::Cancel { transfer },
            ) && result == done
        },
        FileCommand::ClipboardChanged { generation } => after == desk.clipboard_changed(generation)
            && result == done,
        FileCommand::PrepareDrag { offer, entries } => match desk.prepare_error(
            offer,
            entries@,
            clock,
        ) {
            Some(e) => after == desk && result == Err::<FileReply, FileError>(e),
            None => exists|manifest: Arc<Manifest>| #[trigger]
                is_selected(*desk.offers[offer.0].record.manifest, entries@, *manifest) && (
                after,
                result,
            ) == desk.preparing(offer, entries, manifest, clock, dice),
        },
        FileCommand::DropDrag { drag } => match desk.drop_error(drag, clock) {
            Some(e) => after == desk && result == Err::<FileReply, FileError>(e),
            None => after == desk.dropping(drag) && result == done,
        },
        FileCommand::CommitDrag { drag, destination } => if !desk.drags.contains_key(drag.0) {
            after == desk && result == Err::<FileReply, FileError>(FileError::NoSuchDrag)
        } else {
            let d = desk.drags[drag.0];
            if !d.dropped || d.expires <= clock.unix_ms {
                after == desk && result == Err::<FileReply, FileError>(FileError::DragEarly)
            } else {
                match d.transfer {
                    Some(transfer) => after == desk && result == if desk.clearing.contains_key(
                        transfer.0,
                    ) {
                        Err::<FileReply, FileError>(FileError::BeingCleared)
                    } else {
                        Ok(FileReply::Receiving(transfer))
                    },
                    None => exists|roots: Arc<Vec<EntryId>>|
                        roots@.len() == 0 && #[trigger] receives(
                            desk,
                            d.offer,
                            destination,
                            Some(drag),
                            roots,
                            clock,
                            dice,
                            after,
                            result,
                        ),
                }
            }
        },
        FileCommand::CancelDrag { drag } => after == desk.drag_cancelled(drag) && result == done,
        FileCommand::CaptureClipboard { .. } | FileCommand::ClearReceived { .. } => after == desk
            && result == Err::<FileReply, FileError>(FileError::NeedsCommandHandling),
        FileCommand::RouteClipboard { .. } => after == desk && result == Err::<
            FileReply,
            FileError,
        >(FileError::RouteByEnumeration),
        FileCommand::Offer { .. } => after == desk && result == Err::<FileReply, FileError>(
            FileError::OfferByEnumeration,
        ),
        FileCommand::SetEnabled(_) => after == desk && result == Err::<FileReply, FileError>(
            FileError::PersistPolicy,
        ),
    }
}

impl Service {
    fn cancel_pending_drags(&mut self, peer: Option<&MachineId>)
        requires
            old(self).wf(),
        ensures
            final(self).wf(),
            final(self)@ == old(self)@.pending_cancelled(
                match peer {
                    Some(peer) => Some(peer@),
                    None => None,
                },
            ),
    {
        let ids = self.drags.all_ids();
        let ghost all = self@.drags;
        let ghost whose = match peer {
            Some(peer) => Some(peer@),
            None => None,
        };
        let ghost keep = is_pending_drag(whose);
        let mut pending: Vec<u128> = Vec::new();
        assert(ids@.take(0) =~= Seq::empty());
        for i in 0..ids.len()
            invariant
                self.wf(),
                all == self@.drags,
                lists(ids@, all),
                whose == match peer {
                    Some(peer) => Some(peer@),
                    None => None,
                },
                keep == is_pending_drag(whose),
                pending@ == picked(ids@.take(i as int), all, keep),
        {
            proof {
                lemma_pick_step(all, ids@, i as int, keep);
                assert(ids@.contains(ids@[i as int]));
            }
            if let Some(d) = self.drags.get(ids[i]) {
                let concerned: bool = match peer {
                    Some(peer) => d.peer.same(peer),
                    None => true,
                };
                if d.transfer.is_none() && concerned {
                    pending.push(ids[i]);
                }
            }
        }
        assert(ids@.take(ids@.len() as int) =~= ids@);
        let ghost before = self@;
        let ghost every = pending@;
        assert(every.take(0) =~= Seq::empty());
        for i in 0..pending.len()
            invariant
                self.wf(),
                every == pending@,
                self@ == before.drags_cancelled(every.take(i as int)),
        {
            assert(every.take(i + 1).drop_last() =~= every.take(i as int));
            self.cancel_drag(NativeDragId(pending[i]));
        }
        assert(every.take(every.len() as int) =~= every);
    }

    pub(crate) fn change_clipboard(&mut self, generation: u64)
        requires
            old(self).wf(),
        ensures
            final(self).wf(),
            final(self)@ == old(self)@.clipboard_changed(generation),
    {
        let same: bool = match self.clipboard_generation {
            Some(current) => current == generation,
            None => false,
        };
        if !same {
            self.clipboard_selection = None;
        }
        self.clipboard_generation = Some(generation);
        let ghost before = self@;
        let walks = self.enumerations.all_ids();
        let ghost change = stale_walk(generation);
        for i in 0..walks.len()
            invariant
                self.wf(),
                lists(walks@, before.enumerations),
                change == stale_walk(generation),
                self@ == (Desk {
                    enumerations: changed(before.enumerations, walks@.take(i as int), change),
                    ..before
                }),
        {
            proof {
                lemma_change_step(before.enumerations, walks@, i as int, change);
            }
            let ghost earlier = self@.enumerations;
            if let Some(e) = self.enumerations.get_mut(walks[i]) {
                if let OfferOrigin::Clipboard { generation: other } = e.origin {
                    if other != generation {
                        e.cancelled = true;
                    }
                }
            }
            assert(self@.enumerations =~= earlier.insert(
                walks@[i as int],
                change(before.enumerations[walks@[i as int]]),
            ));
        }
        proof {
            lemma_change_all(before.enumerations, walks@, change);
        }
        let ids = self.offers.all_ids();
        let ghost all = self@.offers;
        let ghost keep = is_stale_clipboard(self@.id@, generation);
        let mut stale: Vec<u128> = Vec::new();
        assert(ids@.take(0) =~= Seq::empty());
        for i in 0..ids.len()
            invariant
                self.wf(),
                all == self@.offers,
                lists(ids@, all),
                keep == is_stale_clipboard(self@.id@, generation),
                stale@ == picked(ids@.take(i as int), all, keep),
                forall|k: int| 0 <= k < stale@.len() ==> all.contains_key(#[trigger] stale@[k]),
        {
            proof {
                lemma_pick_step(all, ids@, i as int, keep);
                assert(ids@.contains(ids@[i as int]));
            }
            if let Some(o) = self.offers.get(ids[i]) {
                let other: bool = match o.record.origin {
                    OfferOrigin::Clipboard { generation: other } => other != generation,
                    OfferOrigin::Selection => false,
                };
                if other && o.record.owner.same(&self.id) {
                    stale.push(ids[i]);
                }
            }
        }
        assert(ids@.take(ids@.len() as int) =~= ids@);
        self.withdraw(&stale);
    }

    fn prepare_drag(
        &mut self,
        offer: FileOfferId,
        entries: Arc<Vec<EntryId>>,
        clock: Clock,
        dice: &Dice,
    ) -> (r: Result<FileReply, FileError>)
        requires
            old(self).wf(),
            clock.sane(),
        ensures
            final(self).wf(),
            acts(
                old(self)@,
                FileCommand::PrepareDrag { offer, entries },
                clock,
                *dice,
                final(self)@,
                r,
            ),
    {
        let ghost before = self@;
        let (manifest, peer, generation) = match self.available(offer, clock) {
            Ok(registered) => {
                if !registered.record.recipient.same(&self.id) {
                    return Err(FileError::NotReceived);
                }
                match select(&registered.record.manifest, &entries) {
                    Ok(manifest) => (
                        manifest,
                        registered.record.owner.clone(),
                        registered.generation,
                    ),
                    Err(e) => {
                        return Err(e);
                    },
                }
            },
            Err(e) => {
                return Err(e);
            },
        };
        assert(is_selected(*before.offers[offer.0].record.manifest, entries@, *manifest));
        match self.drag_capacity(&peer) {
            Ok(_) => {},
            Err(e) => {
                return Err(e);
            },
        }
        let number: u128 = match &dice.id {
            Ok(number) => *number,
            Err(undrawn) => {
                return Err(undrawn.error());
            },
        };
        let drag = NativeDragId(number);
        let message = FileMessage::Prepare {
            offer,
            generation: manifest.generation,
            drag,
            roots: entries.clone(),
        };
        match self.send(&peer, message) {
            Ok(_) => {},
            Err(e) => {
                return Err(e);
            },
        }
        let epoch: u64 = self.epoch(&peer);
        self.drags.insert(
            drag.0,
            Drag {
                epoch,
                offer,
                roots: entries.clone(),
                dropped: false,
                prepared: false,
                transfer: None,
                peer,
                generation,
                expires: clock.unix_ms + OFFER_LIFETIME_MS,
                source: None,
                manifest: Some(manifest.clone()),
            },
        );
        assert((self@, Ok::<FileReply, FileError>(FileReply::DragPrepared(drag)))
            == before.preparing(offer, entries, manifest, clock, *dice));
        Ok(FileReply::DragPrepared(drag))
    }

    fn drop_drag(&mut self, drag: NativeDragId, clock: Clock) -> (r: Result<FileReply, FileError>)
        requires
            old(self).wf(),
        ensures
            final(self).wf(),
            match old(self)@.drop_error(drag, clock) {
                Some(e) => final(self)@ == old(self)@ && r == Err::<FileReply, FileError>(e),
                None => final(self)@ == old(self)@.dropping(drag) && r == Ok::<
                    FileReply,
                    FileError,
                >(FileReply::Done),
            },
    {
        let (peer, generation, expires) = match self.drags.get(drag.0) {
            Some(lease) => (lease.peer.clone(), lease.generation, lease.expires),
            None => {
                return Err(FileError::NoSuchDrag);
            },
        };
        if expires <= clock.unix_ms {
            return Err(FileError::DragAuthorization);
        }
        match self.authorize(&peer) {
            Ok(current) => {
                if current != generation {
                    return Err(FileError::DragAuthorization);
                }
            },
            Err(e) => {
                return Err(e);
            },
        }
        match self.send(&peer, FileMessage::Dropped { drag }) {
            Ok(_) => {},
            Err(e) => {
                return Err(e);
            },
        }
        if let Some(lease) = self.drags.get_mut(drag.0) {
            lease.dropped = true;
        }
        Ok(FileReply::Done)
    }

    /// Carries out a command that needs no worker.
    pub fn action(&mut self, command: FileCommand, clock: Clock, dice: &Dice) -> (r: Result<
        FileReply,
        FileError,
    >)
        requires
            old(self).wf(),
            clock.sane(),
        ensures
            final(self).wf(),
            acts(old(self)@, command, clock, *dice, final(self)@, r),
    {
        match command {
            FileCommand::CancelDrags => {
                self.cancel_pending_drags(None);
                Ok(FileReply::Done)
            },
            FileCommand::CancelPeerDrags { peer } => {
                self.cancel_pending_drags(Some(&peer));
                Ok(FileReply::Done)
            },
            FileCommand::ClearClipboard => {
                self.clear_clipboard_selection();
                Ok(FileReply::Done)
            },
            FileCommand::Receive { offer, destination } => self.begin_receive(
                offer,
                destination,
                None,
                Arc::new(Vec::new()),
                clock,
                dice,
            ),
            FileCommand::Retry { transfer } => {
                let (offer, destination, roots) = match self.transfers.get(transfer.0) {
                    None => {
                        return Err(FileError::UnknownTransfer);
                    },
                    Some(d) => {
                        let stopped: bool = match d.record.state {
                            TransferState::Failed | TransferState::Cancelled => true,
                            _ => false,
                        };
                        if !stopped || d.running {
                            return Err(FileError::NotRetryable);
                        }
                        match &d.destination {
                            Some(destination) => (
                                d.record.offer,
                                destination.clone(),
                                d.manifest.roots(),
                            ),
                            None => {
                                return Err(FileError::RetryAtReceiver);
                            },
                        }
                    },
                };
                self.begin_receive(offer, destination, None, Arc::new(roots), clock, dice)
            },
            FileCommand::Revoke { offer } => {
                let peer = match self.offers.get(offer.0) {
                    Some(registered) => self.other_side(&registered.record),
                    None => {
                        return Err(FileError::UnknownOffer);
                    },
                };
                let _ = self.send(&peer, FileMessage::Revoke { offer, unaccepted_only: false });
                self.revoke(offer, false);
                Ok(FileReply::Done)
            },
            FileCommand::Cancel { transfer } => {
                let peer = match self.transfers.get(transfer.0) {
                    Some(d) => d.record.peer.clone(),
                    None => {
                        return Err(FileError::UnknownTransfer);
                    },
                };
                self.cancel(transfer, Fault::Known(FileError::CancelledByUser));
                let _ = self.send(&peer, FileMessage::Cancel { transfer });
                Ok(FileReply::Done)
            },
            FileCommand::ClipboardChanged { generation } => {
                self.change_clipboard(generation);
                Ok(FileReply::Done)
            },
            FileCommand::PrepareDrag { offer, entries } => self.prepare_drag(
                offer,
                entries,
                clock,
                dice,
            ),
            FileCommand::DropDrag { drag } => self.drop_drag(drag, clock),
            FileCommand::CommitDrag { drag, destination } => {
                let offer = match self.drags.get(drag.0) {
                    Some(lease) => {
                        if !lease.dropped || lease.expires <= clock.unix_ms {
                            return Err(FileError::DragEarly);
                        }
                        if let Some(transfer) = lease.transfer {
                            if self.clearing.contains(transfer.0) {
                                return Err(FileError::BeingCleared);
                            }
                            return Ok(FileReply::Receiving(transfer));
                        }
                        lease.offer
                    },
                    None => {
                        return Err(FileError::NoSuchDrag);
                    },
                };
                self.begin_receive(
                    offer,
                    destination,
                    Some(drag),
                    Arc::new(Vec::new()),
                    clock,
                    dice,
                )
            },
            FileCommand::CancelDrag { drag } => {
                self.cancel_drag(drag);
                Ok(FileReply::Done)
            },
            FileCommand::CaptureClipboard { .. } | FileCommand::ClearReceived { .. } => Err(
                FileError::NeedsCommandHandling,
            ),
            FileCommand::RouteClipboard { .. } => Err(FileError::RouteByEnumeration),
            FileCommand::Offer { .. } => Err(FileError::OfferByEnumeration),
            FileCommand::SetEnabled(_) => Err(FileError::PersistPolicy),
        }
    }
}

} // verus!
