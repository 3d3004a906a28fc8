//! What peers say about files.

use super::desk::{
    explain, explained, Clock, Delivery, Desk, Dice, Drag, Effect, RegisteredOffer, Service,
    CLOCK_SLACK_MS, DEADLINE_MS, OFFER_LIFETIME_MS,
};
use super::records::{
    EntryId, Fault, FileError, FileMessage, FileOfferId, FileReply, Manifest, NativeDragId, Offer,
    OfferRecord, OfferState, Token, TransferDirection, TransferId, TransferRecord, TransferState,
};
use super::selection::{choice_fault, is_selected, same_ids, select};
use crate::machine::MachineId;
use std::sync::Arc;
use vstd::prelude::*;

verus! {

/// What a message came to.
pub ghost struct Heard {
    pub desk: Desk,
    pub error: Option<FileError>,
}

pub open spec fn fine(desk: Desk) -> Heard {
    Heard { desk, error: None }
}

pub open spec fn faulty(desk: Desk, error: FileError) -> Heard {
    Heard { desk, error: Some(error) }
}

impl Desk {
    /// A peer offers files.
    pub open spec fn heard_offer(
        self,
        peer: Seq<char>,
        generation: u64,
        offer: Offer,
        clock: Clock,
    ) -> Heard {
        let ready = self.offers_retired();
        if !(offer.owner@ == peer && offer.recipient@ == self.id@) {
            faulty(self, FileError::OfferIdentity)
        } else if !(clock.unix_ms < offer.expires_unix_ms <= clock.unix_ms + OFFER_LIFETIME_MS
            + CLOCK_SLACK_MS) {
            faulty(self, FileError::OfferLifetime)
        } else if self.offers.contains_key(offer.id.0) {
            faulty(self, FileError::OfferReplayed)
        } else if ready.registry_error(peer) is Some {
            faulty(ready, ready.registry_error(peer)->0)
        } else {
            let latest = (clock.unix_ms + OFFER_LIFETIME_MS) as u64;
            fine(
                Desk {
                    offers: ready.offers.insert(
                        offer.id.0,
                        RegisteredOffer {
                            epoch: self.epoch(peer),
                            record: OfferRecord {
                                id: offer.id,
                                owner: offer.owner,
                                recipient: offer.recipient,
                                origin: offer.origin,
                                manifest: offer.manifest,
                                expires_unix_ms: if offer.expires_unix_ms < latest {
                                    offer.expires_unix_ms
                                } else {
                                    latest
                                },
                                state: OfferState::Available,
                            },
                            source: None,
                            generation,
                        },
                    ),
                    ..ready
                },
            )
        }
    }

    /// A peer withdraws an offer.
    pub open spec fn heard_revoke(
        self,
        peer: Seq<char>,
        offer: FileOfferId,
        unaccepted_only: bool,
    ) -> Heard {
        if !self.offers.contains_key(offer.0) {
            faulty(self, FileError::UnknownRevoked)
        } else {
            let record = self.offers[offer.0].record;
            if record.owner@ != peer && record.recipient@ != peer {
                faulty(self, FileError::RevokePeer)
            } else {
                fine(self.revoking(offer, unaccepted_only))
            }
        }
    }

    /// Why a peer's drag cannot be prepared.
    pub open spec fn prepare_refusal(
        self,
        peer: Seq<char>,
        offer: FileOfferId,
        version: u128,
        drag: NativeDragId,
        roots: Seq<EntryId>,
        clock: Clock,
    ) -> Option<FileError> {
        if self.drag_error(peer) is Some {
            self.drag_error(peer)
        } else if self.drags.contains_key(drag.0) {
            Some(FileError::DragReplayed)
        } else if self.offer_error(offer, clock) is Some {
            self.offer_error(offer, clock)
        } else {
            let o = self.offers[offer.0];
            if !(o.record.recipient@ == peer && o.record.owner@ == self.id@
                && o.record.manifest.generation == version) {
                Some(FileError::PrepareScope)
            } else if choice_fault(*o.record.manifest, roots) is Some {
                choice_fault(*o.record.manifest, roots)
            } else if o.source is None {
                Some(FileError::NoSource)
            } else {
                None
            }
        }
    }

    /// A peer's drag is prepared, and confirmed.
    pub open spec fn heard_prepare(
        self,
        peer: MachineId,
        generation: u64,
        offer: FileOfferId,
        drag: NativeDragId,
        roots: Arc<Vec<EntryId>>,
        manifest: Arc<Manifest>,
        clock: Clock,
    ) -> Heard {
        let prepared = Desk {
            drags: self.drags.insert(
                drag.0,
                Drag {
                    epoch: self.epoch(peer@),
                    offer,
                    roots,
                    dropped: false,
                    prepared: true,
                    transfer: None,
                    peer,
                    generation,
                    expires: (clock.unix_ms + OFFER_LIFETIME_MS) as u64,
                    source: self.offers[offer.0].source,
                    manifest: Some(manifest),
                },
            ),
            ..self
        };
        Heard {
            desk: prepared.posted(peer, FileMessage::Prepared { drag }),
            error: prepared.send_error(peer@),
        }
    }

    /// Why a message about a drag is refused; `other` says that it is another's drag.
    pub open spec fn drag_scope(
        self,
        peer: Seq<char>,
        generation: u64,
        drag: NativeDragId,
        other: FileError,
    ) -> Option<FileError> {
        if !self.drags.contains_key(drag.0) {
            Some(FileError::UnknownDrag)
        } else if self.drags[drag.0].peer@ != peer || self.drags[drag.0].generation
            != generation {
            Some(other)
        } else {
            None
        }
    }

    pub open spec fn heard_prepared(
        self,
        peer: Seq<char>,
        generation: u64,
        drag: NativeDragId,
    ) -> Heard {
        match self.drag_scope(peer, generation, drag, FileError::PreparePeer) {
            Some(e) => faulty(self, e),
            None => fine(
                Desk {
                    drags: self.drags.insert(
                        drag.0,
                        Drag { prepared: true, ..self.drags[drag.0] },
                    ),
                    ..self
                },
            ),
        }
    }

    /// A drop is announced, and confirmed.
    pub open spec fn heard_dropped(
        self,
        peer: MachineId,
        generation: u64,
        drag: NativeDragId,
    ) -> Heard {
        match self.drag_scope(peer@, generation, drag, FileError::DropPeer) {
            Some(e) => faulty(self, e),
            None => {
                let dropped = Desk {
                    drags: self.drags.insert(drag.0, Drag { dropped: true, ..self.drags[drag.0] }),
                    ..self
                };
                Heard {
                    desk: dropped.posted(peer, FileMessage::DropConfirmed { drag }),
                    error: dropped.send_error(peer@),
                }
            },
        }
    }

    /// A drop is confirmed: whoever waits for it is told.
    pub open spec fn heard_confirmed(
        self,
        peer: Seq<char>,
        generation: u64,
        drag: NativeDragId,
    ) -> Heard {
        if !self.drags.contains_key(drag.0) {
            faulty(self, FileError::UnknownDrop)
        } else {
            let d = self.drags[drag.0];
            if d.peer@ != peer || d.generation != generation || !d.dropped {
                faulty(self, FileError::DropNotConfirmed)
            } else {
                fine(self.drop_answered(drag, Ok(FileReply::Done)))
            }
        }
    }

    /// Whoever waits for a drop is told.
    pub open spec fn drop_answered(
        self,
        drag: NativeDragId,
        result: Result<FileReply, Fault>,
    ) -> Desk {
        if self.drop_replies.contains_key(drag.0) {
            Desk { drop_replies: self.drop_replies.remove(drag.0), ..self }.answered(
                Some(self.drop_replies[drag.0].waiter),
                result,
            )
        } else {
            self
        }
    }

    /// Why a commit is refused, once the history made room.
    pub open spec fn commit_refusal(
        self,
        peer: Seq<char>,
        generation: u64,
        offer: FileOfferId,
        version: u128,
        roots: Seq<EntryId>,
        drag: Option<NativeDragId>,
        clock: Clock,
    ) -> Option<FileError> {
        if self.capacity_error(peer) is Some {
            self.capacity_error(peer)
        } else {
            match drag {
                Some(drag) => if !self.drags.contains_key(drag.0) {
                    Some(FileError::UnknownLease)
                } else {
                    let d = self.drags[drag.0];
                    if !(d.peer@ == peer && d.generation == generation && d.offer == offer
                        && d.dropped && d.transfer is None && d.expires > clock.unix_ms
                        && d.roots@ == roots && d.manifest is Some && d.manifest->0.generation
                        == version) {
                        Some(FileError::NativeCommitScope)
                    } else if d.source is None {
                        Some(FileError::NotSourceLease)
                    } else {
                        None
                    }
                },
                None => if self.offer_error(offer, clock) is Some {
                    self.offer_error(offer, clock)
                } else {
                    let o = self.offers[offer.0];
                    if !(o.record.recipient@ == peer && o.record.owner@ == self.id@
                        && o.record.manifest.generation == version) {
                        Some(FileError::CommitScope)
                    } else if o.source is None {
                        Some(FileError::NotSourceSelection)
                    } else {
                        choice_fault(*o.record.manifest, roots)
                    }
                },
            }
        }
    }

    /// What a commit takes: the selection and its manifest.
    pub open spec fn is_committed(
        self,
        offer: FileOfferId,
        roots: Seq<EntryId>,
        drag: Option<NativeDragId>,
        source: u64,
        manifest: Arc<Manifest>,
    ) -> bool {
        match drag {
            Some(drag) => self.drags[drag.0].source == Some(source) && self.drags[drag.0].manifest
                == Some(manifest),
            None => self.offers[offer.0].source == Some(source) && is_selected(
                *self.offers[offer.0].record.manifest,
                roots,
                *manifest,
            ),
        }
    }

    /// A commit is granted: the transfer awaits its bulk connection.
    pub open spec fn granting(
        self,
        peer: MachineId,
        generation: u64,
        offer: FileOfferId,
        transfer: TransferId,
        drag: Option<NativeDragId>,
        source: u64,
        manifest: Arc<Manifest>,
        clock: Clock,
        dice: Dice,
    ) -> Heard {
        if dice.token is Err {
            faulty(self, dice.token->Err_0.why())
        } else if self.send_error(peer@) is Some {
            faulty(self, self.send_error(peer@)->0)
        } else {
            let token = dice.token->Ok_0;
            let sent = self.posted(peer, FileMessage::Grant { transfer, token });
            let begun = Desk {
                transfers: sent.transfers.insert(
                    transfer.0,
                    Delivery {
                        epoch: self.epoch(peer@),
                        record: TransferRecord {
                            id: transfer,
                            offer,
                            peer,
                            direction: TransferDirection::Send,
                            state: TransferState::Committed,
                            bytes: 0,
                            total_bytes: manifest.total_bytes,
                            paths: None,
                            error: None,
                        },
                        manifest,
                        destination: None,
                        generation,
                        cancelled: false,
                        progress: 0,
                        token: Some(token),
                        source: Some(source),
                        deadline: (clock.at + DEADLINE_MS) as u64,
                        running: false,
                        receiver_ready: false,
                    },
                ),
                ..sent
            };
            fine(
                match drag {
                    Some(drag) => begun.drag_bound(drag, transfer),
                    None => begun,
                },
            )
        }
    }

    /// Why a grant is refused.
    pub open spec fn grant_refusal(
        self,
        peer: Seq<char>,
        generation: u64,
        transfer: TransferId,
        token: Token,
        clock: Clock,
    ) -> Option<FileError> {
        if !self.transfers.contains_key(transfer.0) {
            Some(FileError::GrantUnsolicited)
        } else {
            let d = self.transfers[transfer.0];
            if !(d.record.peer@ == peer && d.generation == generation && d.record.direction
                is Receive && d.record.state is Committed && !d.running) {
                Some(FileError::GrantMismatch)
            } else if d.deadline <= clock.at || (token.high == 0 && token.low == 0) {
                Some(FileError::GrantExpired)
            } else {
                None
            }
        }
    }

    /// A grant starts a receive.
    pub open spec fn heard_grant(
        self,
        peer: Seq<char>,
        generation: u64,
        transfer: TransferId,
        token: Token,
        clock: Clock,
    ) -> Heard {
        match self.grant_refusal(peer, generation, transfer, token, clock) {
            Some(e) => faulty(self, e),
            None => {
                let d = self.transfers[transfer.0];
                let started = Desk {
                    transfers: self.transfers.insert(
                        transfer.0,
                        Delivery {
                            running: true,
                            record: TransferRecord { state: TransferState::Receiving, ..d.record },
                            ..d
                        },
                    ),
                    ..self
                };
                if d.destination is None {
                    faulty(started, FileError::NoDestination)
                } else {
                    match self.admitted(peer) {
                        None => faulty(started, FileError::PeerDisappeared),
                        Some((_, ip)) => fine(
                            Desk {
                                outbox: started.outbox.push(
                                    Effect::Receive { transfer, token, ip },
                                ),
                                ..started
                            },
                        ),
                    }
                }
            },
        }
    }

    pub open spec fn heard_cancel(
        self,
        peer: Seq<char>,
        generation: u64,
        transfer: TransferId,
    ) -> Heard {
        if !self.transfers.contains_key(transfer.0) {
            fine(self)
        } else if self.transfers[transfer.0].record.peer@ != peer
            || self.transfers[transfer.0].generation != generation {
            faulty(self, FileError::CancelScope)
        } else {
            fine(self.cancelling(transfer, Fault::Known(FileError::CancelledByPeer)))
        }
    }

    pub open spec fn heard_cancel_drag(
        self,
        peer: Seq<char>,
        generation: u64,
        drag: NativeDragId,
    ) -> Heard {
        if !self.drags.contains_key(drag.0) {
            fine(self)
        } else {
            let d = self.drags[drag.0];
            if d.peer@ != peer || d.generation != generation {
                faulty(self, FileError::CancelDragScope)
            } else {
                let stopped = match d.transfer {
                    Some(transfer) => self.cancelling(
                        transfer,
                        Fault::Known(FileError::DragCancelledByPeer),
                    ),
                    None => self,
                };
                fine(Desk { drags: stopped.drags.remove(drag.0), ..stopped })
            }
        }
    }

    /// The receiver says how a transfer ended.
    pub open spec fn heard_result(
        self,
        peer: Seq<char>,
        generation: u64,
        transfer: TransferId,
        error: Option<Fault>,
    ) -> Heard {
        if !self.transfers.contains_key(transfer.0) {
            faulty(self, FileError::ResultUnknown)
        } else {
            let d = self.transfers[transfer.0];
            if !(d.record.peer@ == peer && d.generation == generation && d.record.direction
                is Send) {
                faulty(self, FileError::ResultScope)
            } else if error is Some {
                fine(self.failing(transfer, error->0))
            } else if d.record.state.is_terminal() {
                fine(self)
            } else if d.running {
                fine(
                    Desk {
                        transfers: self.transfers.insert(
                            transfer.0,
                            Delivery { receiver_ready: true, ..d },
                        ),
                        ..self
                    },
                )
            } else if d.record.state is Verifying {
                fine(
                    Desk {
                        transfers: self.transfers.insert(
                            transfer.0,
                            Delivery {
                                record: TransferRecord { state: TransferState::Ready, ..d.record },
                                ..d
                            },
                        ),
                        ..self
                    },
                )
            } else {
                faulty(self, FileError::ResultEarly)
            }
        }
    }

    /// A transfer was refused.
    pub open spec fn heard_reject_transfer(
        self,
        peer: Seq<char>,
        generation: u64,
        transfer: Option<TransferId>,
        reason: Fault,
    ) -> Heard {
        match transfer {
            None => fine(self),
            Some(transfer) => if !self.transfers.contains_key(transfer.0) {
                faulty(self, FileError::RejectUnknown)
            } else if self.transfers[transfer.0].record.peer@ != peer
                || self.transfers[transfer.0].generation != generation {
                faulty(self, FileError::RejectScope)
            } else {
                fine(self.failing(transfer, reason))
            },
        }
    }

    /// A drag was refused.
    pub open spec fn heard_reject_drag(
        self,
        peer: Seq<char>,
        generation: u64,
        drag: Option<NativeDragId>,
        reason: Fault,
    ) -> Heard {
        match drag {
            None => fine(self),
            Some(drag) => if !self.drags.contains_key(drag.0) {
                faulty(self, FileError::RejectUnknownDrag)
            } else if self.drags[drag.0].peer@ != peer || self.drags[drag.0].generation
                != generation {
                faulty(self, FileError::RejectDragScope)
            } else {
                fine(
                    Desk { drags: self.drags.remove(drag.0), ..self }.drop_answered(
                        drag,
                        Err(reason),
                    ),
                )
            },
        }
    }
}

/// What comes of a peer's message, on a connection that may share files.
pub open spec fn hears(
    desk: Desk,
    peer: MachineId,
    generation: u64,
    message: FileMessage,
    clock: Clock,
    dice: Dice,
    heard: Heard,
) -> bool {
    match message {
        FileMessage::Offer(offer) => heard == desk.heard_offer(peer@, generation, offer, clock),
        FileMessage::Revoke { offer, unaccepted_only } => heard == desk.heard_revoke(
            peer@,
            offer,
            unaccepted_only,
        ),
        FileMessage::Prepare { offer, generation: version, drag, roots } => {
            let ready = desk.drags_retired();
            match ready.prepare_refusal(peer@, offer, version, drag, roots@, clock) {
                Some(e) => heard == faulty(ready, e),
                None => exists|manifest: Arc<Manifest>| #[trigger]
                    is_selected(*ready.offers[offer.0].record.manifest, roots@, *manifest) && heard
                        == ready.heard_prepare(
                        peer,
                        generation,
                        offer,
                        drag,
                        roots,
                        manifest,
                        clock,
                    ),
            }
        },
        FileMessage::Prepared { drag } => heard == desk.heard_prepared(peer@, generation, drag),
        FileMessage::Dropped { drag } => heard == desk.heard_dropped(peer, generation, drag),
        FileMessage::DropConfirmed { drag } => heard == desk.heard_confirmed(
            peer@,
            generation,
            drag,
        ),
        FileMessage::Commit { offer, generation: version, transfer, roots, drag } => {
            if desk.transfers.contains_key(transfer.0) {
                heard == faulty(desk, FileError::CommitConsumed)
            } else {
                let ready = desk.history_retired();
                match ready.commit_refusal(
                    peer@,
                    generation,
                    offer,
                    version,
                    roots@,
                    drag,
                    clock,
                ) {
                    Some(e) => heard == faulty(ready, e),
                    None => exists|source: u64, manifest: Arc<Manifest>| #[trigger]
                        ready.is_committed(offer, roots@, drag, source, manifest) && heard
                            == ready.granting(
                            peer,
                            generation,
                            offer,
                            transfer,
                            drag,
                            source,
                            manifest,
                            clock,
                            dice,
                        ),
                }
            }
        },
        FileMessage::Grant { transfer, token } => heard == desk.heard_grant(
            peer@,
            generation,
            transfer,
            token,
            clock,
        ),
        FileMessage::Cancel { transfer } => heard == desk.heard_cancel(
            peer@,
            generation,
            transfer,
        ),
        FileMessage::CancelDrag { drag } => heard == desk.heard_cancel_drag(
            peer@,
            generation,
            drag,
        ),
        FileMessage::Result { transfer, error } => heard == desk.heard_result(
            peer@,
            generation,
            transfer,
            error,
        ),
        FileMessage::Reject { transfer, drag, reason } => {
            let first = desk.heard_reject_transfer(peer@, generation, transfer, reason);
            heard == if first.error is Some {
                first
            } else {
                first.desk.heard_reject_drag(peer@, generation, drag, reason)
            }
        },
    }
}

/// What comes of a peer's message.
pub open spec fn messaged(
    desk: Desk,
    peer: MachineId,
    generation: u64,
    message: FileMessage,
    clock: Clock,
    dice: Dice,
    heard: Heard,
) -> bool {
    let ready = desk.synced();
    if ready.authorized(peer@) is Err {
        heard == faulty(ready, ready.authorized(peer@)->Err_0)
    } else if ready.authorized(peer@)->Ok_0 != generation {
        heard == faulty(ready, FileError::StaleFrame)
    } else {
        hears(ready, peer, generation, message, clock, dice, heard)
    }
}

/// The transfer and the drag whose refusal a peer is told.
pub open spec fn subject(message: FileMessage) -> (Option<TransferId>, Option<NativeDragId>) {
    match message {
        FileMessage::Commit { transfer, .. } => (Some(transfer), None),
        FileMessage::Prepare { drag, .. } => (None, Some(drag)),
        FileMessage::Dropped { drag } => (None, Some(drag)),
        _ => (None, None),
    }
}

/// A fault in a message is shown, and told to the peer where it waits for an answer.
pub open spec fn objected(
    heard: Heard,
    peer: MachineId,
    message: FileMessage,
    dice: Dice,
) -> Desk {
    match heard.error {
        None => heard.desk,
        Some(e) => {
            let reason = explained(e, dice.token);
            let (transfer, drag) = subject(message);
            let told = if transfer is Some || drag is Some {
                heard.desk.posted(peer, FileMessage::Reject { transfer, drag, reason })
            } else {
                heard.desk
            };
            Desk { error: Some(reason), ..told }
        },
    }
}

impl Service {
    fn hear_offer(&mut self, peer: &MachineId, generation: u64, offer: Offer, clock: Clock) -> (r:
        Result<(), FileError>)
        requires
            old(self).wf(),
            clock.sane(),
        ensures
            final(self).wf(),
            (Heard { desk: final(self)@, error: r.err() }) == old(self)@.heard_offer(
                peer@,
                generation,
                offer,
                clock,
            ),
    {
        if !offer.owner.same(peer) || !offer.recipient.same(&self.id) {
            return Err(FileError::OfferIdentity);
        }
        if offer.expires_unix_ms <= clock.unix_ms || offer.expires_unix_ms > clock.unix_ms
            + OFFER_LIFETIME_MS + CLOCK_SLACK_MS {
            return Err(FileError::OfferLifetime);
        }
        if self.offers.contains(offer.id.0) {
            return Err(FileError::OfferReplayed);
        }
        match self.offer_capacity(peer) {
            Ok(_) => {},
            Err(e) => {
                return Err(e);
            },
        }
        let latest: u64 = clock.unix_ms + OFFER_LIFETIME_MS;
        let epoch: u64 = self.epoch(peer);
        let record = OfferRecord {
            id: offer.id,
            owner: offer.owner,
            recipient: offer.recipient,
            origin: offer.origin,
            manifest: offer.manifest,
            expires_unix_ms: if offer.expires_unix_ms < latest {
                offer.expires_unix_ms
            } else {
                latest
            },
            state: OfferState::Available,
        };
        self.offers.insert(
            offer.id.0,
            RegisteredOffer { epoch, record, source: None, generation },
        );
        Ok(())
    }

    fn hear_prepare(
        &mut self,
        peer: &MachineId,
        generation: u64,
        offer: FileOfferId,
        version: u128,
        drag: NativeDragId,
        roots: Arc<Vec<EntryId>>,
        clock: Clock,
    ) -> (r: Result<(), FileError>)
        requires
            old(self).wf(),
            clock.sane(),
        ensures
            final(self).wf(),
            ({
                let heard = Heard { desk: final(self)@, error: r.err() };
                let ready = old(self)@.drags_retired();
                match ready.prepare_refusal(peer@, offer, version, drag, roots@, clock) {
                    Some(e) => heard == faulty(ready, e),
                    None => exists|manifest: Arc<Manifest>| #[trigger]
                        is_selected(*ready.offers[offer.0].record.manifest, roots@, *manifest)
                            && heard == ready.heard_prepare(
                            *peer,
                            generation,
                            offer,
                            drag,
                            roots,
                            manifest,
                            clock,
                        ),
                }
            }),
    {
        match self.drag_capacity(peer) {
            Ok(_) => {},
            Err(e) => {
                return Err(e);
            },
        }
        let ghost ready = self@;
        if self.drags.contains(drag.0) {
            return Err(FileError::DragReplayed);
        }
        let (manifest, source) = match self.available(offer, clock) {
            Ok(registered) => {
                if !registered.record.recipient.same(peer) || !registered.record.owner.same(&self.id)
                    || registered.record.manifest.generation != version {
                    return Err(FileError::PrepareScope);
                }
                let manifest = match select(&registered.record.manifest, &roots) {
                    Ok(manifest) => manifest,
                    Err(e) => {
                        return Err(e);
                    },
                };
                match registered.source {
                    Some(source) => (manifest, source),
                    None => {
                        return Err(FileError::NoSource);
                    },
                }
            },
            Err(e) => {
                return Err(e);
            },
        };
        assert(is_selected(*ready.offers[offer.0].record.manifest, roots@, *manifest));
        let epoch: u64 = self.epoch(peer);
        self.drags.insert(
            drag.0,
            Drag {
                epoch,
                offer,
                roots,
                dropped: false,
                prepared: true,
                transfer: None,
                peer: peer.clone(),
                generation,
                expires: clock.unix_ms + OFFER_LIFETIME_MS,
                source: Some(source),
                manifest: Some(manifest),
            },
        );
        let sent = self.send(peer, FileMessage::Prepared { drag });
        assert((Heard { desk: self@, error: sent.err() }) == ready.heard_prepare(
            *peer,
            generation,
            offer,
            drag,
            roots,
            manifest,
            clock,
        ));
        sent
    }

    fn hear_about_drag(
        &self,
        peer: &MachineId,
        generation: u64,
        drag: NativeDragId,
        other: FileError,
    ) -> (r: Result<(), FileError>)
        requires
            self.wf(),
        ensures
            r.err() == self@.drag_scope(peer@, generation, drag, other),
    {
        match self.drags.get(drag.0) {
            None => Err(FileError::UnknownDrag),
            Some(lease) => if !lease.peer.same(peer) || lease.generation != generation {
                Err(other)
            } else {
                Ok(())
            },
        }
    }

    fn answer_drop(&mut self, drag: NativeDragId, result: Result<FileReply, Fault>)
        requires
            old(self).wf(),
        ensures
            final(self).wf(),
            final(self)@ == old(self)@.drop_answered(drag, result),
    {
        if !self.drop_replies.contains(drag.0) {
            return ;
        }
        if let Some(reply) = self.drop_replies.remove(drag.0) {
            self.reply(Some(reply.waiter), result);
        }
    }

    fn hear_commit(
        &mut self,
        peer: &MachineId,
        generation: u64,
        offer: FileOfferId,
        version: u128,
        transfer: TransferId,
        roots: Arc<Vec<EntryId>>,
        drag: Option<NativeDragId>,
        clock: Clock,
        dice: &Dice,
    ) -> (r: Result<(), FileError>)
        requires
            old(self).wf(),
            clock.sane(),
        ensures
            final(self).wf(),
            hears(
                old(self)@,
                *peer,
                generation,
                FileMessage::Commit { offer, generation: version, transfer, roots, drag },
                clock,
                *dice,
                Heard { desk: final(self)@, error: r.err() },
            ),
    {
        if self.transfers.contains(transfer.0) {
            return Err(FileError::CommitConsumed);
        }
        match self.capacity(peer) {
            Ok(_) => {},
            Err(e) => {
                return Err(e);
            },
        }
        let ghost ready = self@;
        let (source, manifest) = match drag {
            Some(drag) => match self.drags.get(drag.0) {
                None => {
                    return Err(FileError::UnknownLease);
                },
                Some(lease) => {
                    let same: bool = match &lease.manifest {
                        Some(manifest) => manifest.generation == version,
                        None => false,
                    };
                    if !lease.peer.same(peer) || lease.generation != generation || lease.offer
                        != offer || !lease.dropped || lease.transfer.is_some() || lease.expires
                        <= clock.unix_ms || !same_ids(&lease.roots, &roots) || !same {
                        return Err(FileError::NativeCommitScope);
                    }
                    match (lease.source, &lease.manifest) {
                        (Some(source), Some(manifest)) => (source, manifest.clone()),
                        _ => {
                            return Err(FileError::NotSourceLease);
                        },
                    }
                },
            },
            None => match self.available(offer, clock) {
                Err(e) => {
                    return Err(e);
                },
                Ok(registered) => {
                    if !registered.record.recipient.same(peer) || !registered.record.owner.same(
                        &self.id,
                    ) || registered.record.manifest.generation != version {
                        return Err(FileError::CommitScope);
                    }
                    let Some(source) = registered.source else {
                        return Err(FileError::NotSourceSelection);
                    };
                    match select(&registered.record.manifest, &roots) {
                        Ok(manifest) => (source, manifest),
                        Err(e) => {
                            return Err(e);
                        },
                    }
                },
            },
        };
        assert(ready.is_committed(offer, roots@, drag, source, manifest));
        let token: Token = match &dice.token {
            Ok(token) => *token,
            Err(undrawn) => {
                return Err(undrawn.error());
            },
        };
        match self.send(peer, FileMessage::Grant { transfer, token }) {
            Ok(_) => {},
            Err(e) => {
                return Err(e);
            },
        }
        let epoch: u64 = self.epoch(peer);
        self.transfers.insert(
            transfer.0,
            Delivery {
                epoch,
                record: TransferRecord {
                    id: transfer,
                    offer,
                    peer: peer.clone(),
                    direction: TransferDirection::Send,
                    state: TransferState::Committed,
                    bytes: 0,
                    total_bytes: manifest.total_bytes,
                    paths: None,
                    error: None,
                },
                manifest: manifest.clone(),
                destination: None,
                generation,
                cancelled: false,
                progress: 0,
                token: Some(token),
                source: Some(source),
                deadline: clock.at + DEADLINE_MS,
                running: false,
                receiver_ready: false,
            },
        );
        if let Some(drag) = drag {
            self.bind_drag(drag, transfer);
        }
        assert(fine(self@) == ready.granting(
            *peer,
            generation,
            offer,
            transfer,
            drag,
            source,
            manifest,
            clock,
            *dice,
        ));
        Ok(())
    }

    /// Starts a receive that was granted.
    pub fn receive_grant(
        &mut self,
        peer: &MachineId,
        generation: u64,
        transfer: TransferId,
        token: Token,
        clock: Clock,
    ) -> (r: Result<(), FileError>)
        requires
            old(self).wf(),
        ensures
            final(self).wf(),
            (Heard { desk: final(self)@, error: r.err() }) == old(self)@.heard_grant(
                peer@,
                generation,
                transfer,
                token,
                clock,
            ),
    {
        let admission = self.admission(peer);
        let Some(delivery) = self.transfers.get_mut(transfer.0) else {
            return Err(FileError::GrantUnsolicited);
        };
        if !delivery.record.peer.same(peer) || delivery.generation != generation
            || delivery.record.direction != TransferDirection::Receive || delivery.record.state
            != TransferState::Committed || delivery.running {
            proof {
                assert(old(self)@.transfers.insert(transfer.0, old(self)@.transfers[transfer.0])
                    =~= old(self)@.transfers);
            }
            return Err(FileError::GrantMismatch);
        }
        if delivery.deadline <= clock.at || (token.high == 0 && token.low == 0) {
            proof {
                assert(old(self)@.transfers.insert(transfer.0, old(self)@.transfers[transfer.0])
                    =~= old(self)@.transfers);
            }
            return Err(FileError::GrantExpired);
        }
        delivery.running = true;
        delivery.record.state = TransferState::Receiving;
        if delivery.destination.is_none() {
            return Err(FileError::NoDestination);
        }
        match admission {
            None => Err(FileError::PeerDisappeared),
            Some((_, ip)) => {
                self.outbox.push(Effect::Receive { transfer, token, ip });
                Ok(())
            },
        }
    }

    fn hear_result(
        &mut self,
        peer: &MachineId,
        generation: u64,
        transfer: TransferId,
        error: Option<Fault>,
    ) -> (r: Result<(), FileError>)
        requires
            old(self).wf(),
        ensures
            final(self).wf(),
            (Heard { desk: final(self)@, error: r.err() }) == old(self)@.heard_result(
                peer@,
                generation,
                transfer,
                error,
            ),
    {
        let (terminal, running, verifying) = match self.transfers.get(transfer.0) {
            None => {
                return Err(FileError::ResultUnknown);
            },
            Some(d) => {
                if !d.record.peer.same(peer) || d.generation != generation || d.record.direction
                    != TransferDirection::Send {
                    return Err(FileError::ResultScope);
                }
                (
                    d.record.state.terminal(),
                    d.running,
                    d.record.state == TransferState::Verifying,
                )
            },
        };
        if let Some(error) = error {
            self.fail(transfer, error);
            return Ok(());
        }
        if terminal {
            return Ok(());
        }
        if !running && !verifying {
            return Err(FileError::ResultEarly);
        }
        if let Some(d) = self.transfers.get_mut(transfer.0) {
            if running {
                d.receiver_ready = true;
            } else {
                d.record.state = TransferState::Ready;
            }
        }
        Ok(())
    }

    fn hear_reject(
        &mut self,
        peer: &MachineId,
        generation: u64,
        transfer: Option<TransferId>,
        drag: Option<NativeDragId>,
        reason: Fault,
    ) -> (r: Result<(), FileError>)
        requires
            old(self).wf(),
        ensures
            final(self).wf(),
            ({
                let first = old(self)@.heard_reject_transfer(peer@, generation, transfer, reason);
                (Heard { desk: final(self)@, error: r.err() }) == if first.error is Some {
                    first
                } else {
                    first.desk.heard_reject_drag(peer@, generation, drag, reason)
                }
            }),
    {
        if let Some(transfer) = transfer {
            match self.transfers.get(transfer.0) {
                None => {
                    return Err(FileError::RejectUnknown);
                },
                Some(d) => {
                    if !d.record.peer.same(peer) || d.generation != generation {
                        return Err(FileError::RejectScope);
                    }
                },
            }
            self.fail(transfer, reason.clone());
        }
        if let Some(drag) = drag {
            match self.drags.get(drag.0) {
                None => {
                    return Err(FileError::RejectUnknownDrag);
                },
                Some(lease) => {
                    if !lease.peer.same(peer) || lease.generation != generation {
                        return Err(FileError::RejectDragScope);
                    }
                },
            }
            self.drags.remove(drag.0);
            self.answer_drop(drag, Err(reason));
        }
        Ok(())
    }

    fn hear_cancel_drag(&mut self, peer: &MachineId, generation: u64, drag: NativeDragId) -> (r:
        Result<(), FileError>)
        requires
            old(self).wf(),
        ensures
            final(self).wf(),
            (Heard { desk: final(self)@, error: r.err() }) == old(self)@.heard_cancel_drag(
                peer@,
                generation,
                drag,
            ),
    {
        let transfer: Option<TransferId> = match self.drags.get(drag.0) {
            None => {
                return Ok(());
            },
            Some(lease) => {
                if !lease.peer.same(peer) || lease.generation != generation {
                    return Err(FileError::CancelDragScope);
                }
                lease.transfer
            },
        };
        if let Some(transfer) = transfer {
            self.cancel(transfer, Fault::Known(FileError::DragCancelledByPeer));
        }
        self.drags.remove(drag.0);
        Ok(())
    }

    /// Takes a peer's message.
    pub fn message(
        &mut self,
        peer: &MachineId,
        generation: u64,
        message: FileMessage,
        clock: Clock,
        dice: &Dice,
    ) -> (r: Result<(), FileError>)
        requires
            old(self).wf(),
            clock.sane(),
        ensures
            final(self).wf(),
            messaged(
                old(self)@,
                *peer,
                generation,
                message,
                clock,
                *dice,
                Heard { desk: final(self)@, error: r.err() },
            ),
    {
        self.sync_clipboard();
        match self.authorize(peer) {
            Ok(current) => {
                if current != generation {
                    return Err(FileError::StaleFrame);
                }
            },
            Err(e) => {
                return Err(e);
            },
        }
        match message {
            FileMessage::Offer(offer) => self.hear_offer(peer, generation, offer, clock),
            FileMessage::Revoke { offer, unaccepted_only } => {
                match self.offers.get(offer.0) {
                    None => {
                        return Err(FileError::UnknownRevoked);
                    },
                    Some(o) => {
                        if !o.record.owner.same(peer) && !o.record.recipient.same(peer) {
                            return Err(FileError::RevokePeer);
                        }
                    },
                }
                self.revoke(offer, unaccepted_only);
                Ok(())
            },
            FileMessage::Prepare { offer, generation: version, drag, roots } => self.hear_prepare(
                peer,
                generation,
                offer,
                version,
                drag,
                roots,
                clock,
            ),
            FileMessage::Prepared { drag } => {
                match self.hear_about_drag(peer, generation, drag, FileError::PreparePeer) {
                    Ok(_) => {},
                    Err(e) => {
                        return Err(e);
                    },
                }
                if let Some(lease) = self.drags.get_mut(drag.0) {
                    lease.prepared = true;
                }
                Ok(())
            },
            FileMessage::Dropped { drag } => {
                match self.hear_about_drag(peer, generation, drag, FileError::DropPeer) {
                    Ok(_) => {},
                    Err(e) => {
                        return Err(e);
                    },
                }
                if let Some(lease) = self.drags.get_mut(drag.0) {
                    lease.dropped = true;
                }
                self.send(peer, FileMessage::DropConfirmed { drag })
            },
            FileMessage::DropConfirmed { drag } => {
                match self.drags.get(drag.0) {
                    None => {
                        return Err(FileError::UnknownDrop);
                    },
                    Some(lease) => {
                        if !lease.peer.same(peer) || lease.generation != generation
                            || !lease.dropped {
                            return Err(FileError::DropNotConfirmed);
                        }
                    },
                }
                self.answer_drop(drag, Ok(FileReply::Done));
                Ok(())
            },
            FileMessage::Commit { offer, generation: version, transfer, roots, drag } =>
                self.hear_commit(
                peer,
                generation,
                offer,
                version,
                transfer,
                roots,
                drag,
                clock,
                dice,
            ),
            FileMessage::Grant { transfer, token } => self.receive_grant(
                peer,
                generation,
                transfer,
                token,
                clock,
            ),
            FileMessage::Cancel { transfer } => {
                match self.transfers.get(transfer.0) {
                    None => {
                        return Ok(());
                    },
                    Some(d) => {
                        if !d.record.peer.same(peer) || d.generation != generation {
                            return Err(FileError::CancelScope);
                        }
                    },
                }
                self.cancel(transfer, Fault::Known(FileError::CancelledByPeer));
                Ok(())
            },
            FileMessage::CancelDrag { drag } => self.hear_cancel_drag(peer, generation, drag),
            FileMessage::Result { transfer, error } => self.hear_result(
                peer,
                generation,
                transfer,
                error,
            ),
            FileMessage::Reject { transfer, drag, reason } => self.hear_reject(
                peer,
                generation,
                transfer,
                drag,
                reason,
            ),
        }
    }

    /// Takes a peer's message, and tells it where that is refused.
    pub fn handle_message(
        &mut self,
        peer: &MachineId,
        generation: u64,
        message: FileMessage,
        clock: Clock,
        dice: &Dice,
    )
        requires
            old(self).wf(),
            clock.sane(),
        ensures
            final(self).wf(),
            exists|heard: Heard| #[trigger]
                messaged(old(self)@, *peer, generation, message, clock, *dice, heard)
                    && final(self)@ == objected(heard, *peer, message, *dice),
    {
        let (transfer, drag) = match &message {
            FileMessage::Commit { transfer, .. } => (Some(*transfer), None),
            FileMessage::Prepare { drag, .. } => (None, Some(*drag)),
            FileMessage::Dropped { drag } => (None, Some(*drag)),
            _ => (None, None),
        };
        let ghost said = message;
        let r = self.message(peer, generation, message, clock, dice);
        let ghost heard = Heard { desk: self@, error: r.err() };
        assert(messaged(old(self)@, *peer, generation, said, clock, *dice, heard));
        if let Err(e) = r {
            let reason = explain(e, &dice.token);
            if transfer.is_some() || drag.is_some() {
                let _ = self.send(
                    peer,
                    FileMessage::Reject { transfer, drag, reason: reason.clone() },
                );
            }
            self.error = Some(reason);
        }
        assert(self@ == objected(heard, *peer, said, *dice));
    }

    /// A bulk connection opens: on success the selection is sent over it.
    pub fn accept(&mut self, peer: &MachineId, transfer: TransferId, token: Token, clock: Clock) -> (r:
        Result<u64, FileError>)
        requires
            old(self).wf(),
        ensures
            final(self).wf(),
            ({
                let ready = old(self)@.synced();
                match ready.accept_error(peer@, transfer, token, clock) {
                    Some(e) => final(self)@ == ready && r == Err::<u64, FileError>(e),
                    None => {
                        let d = ready.transfers[transfer.0];
                        &&& final(self)@ == (Desk {
                            transfers: ready.transfers.insert(transfer.0, claimed(d)),
                            ..ready
                        })
                        &&& r == match d.source {
                            Some(source) => Ok::<u64, FileError>(source),
                            None => Err(FileError::BulkSource),
                        }
                    },
                }
            }),
    {
        self.sync_clipboard();
        let ghost ready = self@;
        let generation: u64 = match self.authorize(peer) {
            Ok(generation) => generation,
            Err(e) => {
                return Err(e);
            },
        };
        let Some(delivery) = self.transfers.get_mut(transfer.0) else {
            return Err(FileError::BulkUnknown);
        };
        match delivery.claim_bulk(peer, generation, token, clock.at) {
            Ok(_) => {},
            Err(e) => {
                proof {
                    assert(ready.transfers.insert(transfer.0, ready.transfers[transfer.0])
                        =~= ready.transfers);
                }
                return Err(e);
            },
        }
        match delivery.source {
            Some(source) => Ok(source),
            None => Err(FileError::BulkSource),
        }
    }
}

/// Why a bulk connection may not use a grant.
pub open spec fn bulk_error(
    d: Delivery,
    peer: Seq<char>,
    generation: u64,
    token: Token,
    at: u64,
) -> Option<FileError> {
    if d.cancelled {
        Some(FileError::BulkCancelled)
    } else if !(d.record.peer@ == peer && d.generation == generation && d.record.direction is Send
        && d.record.state is Committed && !d.running && d.deadline > at) {
        Some(FileError::BulkNotLive)
    } else if d.token is None {
        Some(FileError::BulkConsumed)
    } else if d.token != Some(token) {
        Some(FileError::BulkToken)
    } else {
        None
    }
}

/// A grant that a bulk connection has used up.
pub open spec fn claimed(d: Delivery) -> Delivery {
    Delivery {
        token: None,
        running: true,
        record: TransferRecord { state: TransferState::Receiving, ..d.record },
        ..d
    }
}

impl Desk {
    pub open spec fn accept_error(
        self,
        peer: Seq<char>,
        transfer: TransferId,
        token: Token,
        clock: Clock,
    ) -> Option<FileError> {
        match self.authorized(peer) {
            Err(e) => Some(e),
            Ok(generation) => if !self.transfers.contains_key(transfer.0) {
                Some(FileError::BulkUnknown)
            } else {
                bulk_error(self.transfers[transfer.0], peer, generation, token, clock.at)
            },
        }
    }
}

impl Delivery {
    /// Uses a grant up for a bulk connection: right peer, right connection, right token, in
    /// time, and once.
    pub fn claim_bulk(&mut self, peer: &MachineId, generation: u64, token: Token, at: u64) -> (r:
        Result<(), FileError>)
        ensures
            match bulk_error(*old(self), peer@, generation, token, at) {
                Some(e) => *final(self) == *old(self) && r == Err::<(), FileError>(e),
                None => *final(self) == claimed(*old(self)) && r == Ok::<(), FileError>(()),
            },
    {
        if self.cancelled {
            return Err(FileError::BulkCancelled);
        }
        if !self.record.peer.same(peer) || self.generation != generation || self.record.direction
            != TransferDirection::Send || self.record.state != TransferState::Committed
            || self.running || self.deadline <= at {
            return Err(FileError::BulkNotLive);
        }
        let Some(expected) = self.token else {
            return Err(FileError::BulkConsumed);
        };
        if expected != token {
            return Err(FileError::BulkToken);
        }
        self.token = None;
        self.running = true;
        self.record.state = TransferState::Receiving;
        Ok(())
    }
}

/// A grant is used once: after it was, no connection can use it, whatever it presents.
pub proof fn a_grant_is_used_once(
    d: Delivery,
    peer: Seq<char>,
    generation: u64,
    token: Token,
    at: u64,
)
    ensures
        bulk_error(claimed(d), peer, generation, token, at) is Some,
{
}

} // verus!
