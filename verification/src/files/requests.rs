//! Requests: commands with someone who waits for the answer.

use super::commands::acts;
use super::desk::{
    explain, explained, refused, Clock, Desk, Dice, DropReply, Effect, Enumeration, RegisteredOffer, Service,
    Setting, AUTH_DEADLINE_MS, MAX_ENUMERATIONS,
};
use super::upkeep::lemma_sync_keeps;
use super::records::{
    Fault, FileCommand, FileError, FileMessage, FileOfferId, FileReply, LocalSelection,
    NativeDragId, OfferOrigin, OfferState, ReceivedFiles, ReceivedLease, TransferDirection,
    TransferId, TransferState,
};
use crate::id_map::{ids_of, lemma_pick_step, lists, picked};
use crate::machine::MachineId;
use std::sync::Arc;
use vstd::prelude::*;

verus! {

/// Offers that can be used.
pub open spec fn is_available() -> spec_fn(RegisteredOffer) -> bool {
    |o: RegisteredOffer| o.record.state is Available
}

/// A machine's own offer of a clipboard to a recipient.
pub open spec fn routes(id: Seq<char>, recipient: Seq<char>, generation: u64) -> spec_fn(
    RegisteredOffer,
) -> bool {
    |o: RegisteredOffer|
        o.record.owner@ == id && o.record.recipient@ == recipient && o.record.origin
            == (OfferOrigin::Clipboard { generation })
}

/// The first offer that routes a clipboard and can be used.
pub open spec fn routed(
    desk: Desk,
    ids: Seq<u128>,
    recipient: Seq<char>,
    generation: u64,
    clock: Clock,
) -> Option<FileOfferId>
    decreases ids.len(),
{
    if ids.len() == 0 {
        None
    } else if routed(desk, ids.drop_last(), recipient, generation, clock) is Some {
        routed(desk, ids.drop_last(), recipient, generation, clock)
    } else if routes(desk.id@, recipient, generation)(desk.offers[ids.last()]) && desk.offer_error(
        FileOfferId(ids.last()),
        clock,
    ) is None {
        Some(FileOfferId(ids.last()))
    } else {
        None
    }
}

impl Desk {
    /// Available offers are withdrawn at their other sides.
    pub open spec fn announcing_end(self, offers: Seq<u128>) -> Desk
        decreases offers.len(),
    {
        if offers.len() == 0 {
            self
        } else {
            let id = offers.last();
            self.announcing_end(offers.drop_last()).posted(
                self.other_side(self.offers[id].record),
                FileMessage::Revoke { offer: FileOfferId(id), unaccepted_only: false },
            )
        }
    }

    /// Sharing is switched; switching it off takes effect before it is written.
    pub open spec fn switching(self, enabled: bool, waiter: Option<u64>) -> Desk {
        if self.setting is Some {
            self.answered(waiter, refused(FileError::SettingPending))
        } else {
            let pending = Desk { setting: Some(Setting { enabled, waiter }), ..self };
            let switched = if enabled {
                pending
            } else {
                let cut = Desk {
                    clipboard: super::mailbox::Mailbox {
                        epoch: (self.clipboard.epoch + 1) as u64,
                        update: None,
                        ..self.clipboard
                    },
                    ..pending
                };
                let told = cut.announcing_end(
                    picked(ids_of(self.offers), self.offers, is_available()),
                );
                Desk { enabled: false, ..told }.enforced()
            };
            Desk { outbox: switched.outbox.push(Effect::SaveEnabled { enabled }), ..switched }
        }
    }

    /// Why a selection cannot be offered, once the registry made room.
    pub open spec fn offer_refusal(
        self,
        selection: LocalSelection,
        recipient: Seq<char>,
        origin: OfferOrigin,
    ) -> Option<FileError> {
        let ready = self.offers_retired();
        if selection.fault() is Some {
            selection.fault()
        } else if self.authorized(recipient) is Err {
            Some(self.authorized(recipient)->Err_0)
        } else if ready.registry_error(recipient) is Some {
            ready.registry_error(recipient)
        } else if ready.enumerations.len() >= MAX_ENUMERATIONS {
            Some(FileError::EnumerationLimit)
        } else {
            match origin {
                OfferOrigin::Selection => None,
                OfferOrigin::Clipboard { generation } => if !self.policy.clipboard_enabled {
                    Some(FileError::ClipboardDisabled)
                } else if self.clipboard_generation is Some && self.clipboard_generation != Some(
                    generation,
                ) {
                    Some(FileError::SelectionStale)
                } else {
                    None
                },
            }
        }
    }

    /// A selection is walked, to be offered; or the refusal is answered.
    pub open spec fn offering(
        self,
        selection: Arc<LocalSelection>,
        recipient: MachineId,
        origin: OfferOrigin,
        waiter: Option<u64>,
    ) -> Desk {
        let tried = if selection.fault() is Some || self.authorized(recipient@) is Err {
            self
        } else {
            self.offers_retired()
        };
        match self.offer_refusal(*selection, recipient@, origin) {
            Some(e) => tried.answered(waiter, refused(e)),
            None => {
                let id = (self.enumeration_id + 1) as u64;
                Desk {
                    clipboard_generation: match origin {
                        OfferOrigin::Clipboard { generation } => Some(generation),
                        OfferOrigin::Selection => tried.clipboard_generation,
                    },
                    enumeration_id: id,
                    enumerations: tried.enumerations.insert(
                        id as u128,
                        Enumeration {
                            recipient,
                            generation: self.authorized(recipient@)->Ok_0,
                            epoch: self.epoch(recipient@),
                            origin,
                            cancelled: false,
                            waiter,
                            hung_up: false,
                        },
                    ),
                    outbox: tried.outbox.push(Effect::Enumerate { id, selection }),
                    ..tried
                }
            },
        }
    }

    /// The clipboard is offered to a recipient, unless it is already.
    pub open spec fn routing(
        self,
        recipient: MachineId,
        generation: u64,
        waiter: Option<u64>,
        clock: Clock,
    ) -> Desk {
        if self.clipboard_generation != Some(generation) || self.clipboard_selection is None {
            self.answered(waiter, refused(FileError::SelectionReplaced))
        } else {
            match routed(self, ids_of(self.offers), recipient@, generation, clock) {
                Some(id) => self.answered(waiter, Ok(FileReply::Offered(id))),
                None => self.offering(
                    self.clipboard_selection->0,
                    recipient,
                    OfferOrigin::Clipboard { generation },
                    waiter,
                ),
            }
        }
    }

    /// A selection is put on the file clipboard.
    pub open spec fn capturing(
        self,
        selection: Arc<LocalSelection>,
        generation: u64,
        waiter: Option<u64>,
    ) -> Desk {
        match selection.fault() {
            Some(e) => self.answered(waiter, refused(e)),
            None => Desk {
                clipboard_selection: Some(selection),
                ..self.clipboard_changed(generation)
            }.answered(waiter, Ok(FileReply::Done)),
        }
    }
}

/// A command was carried out and answered; an announced drop is answered once confirmed.
pub open spec fn concluded(
    after: Desk,
    command: FileCommand,
    result: Result<FileReply, FileError>,
    waiter: Option<u64>,
    clock: Clock,
    dice: Dice,
) -> Desk {
    if command is DropDrag && waiter is Some && result is Ok {
        let drag = command->DropDrag_drag;
        Desk {
            drop_replies: after.drop_replies.insert(
                drag.0,
                DropReply { deadline: (clock.at + AUTH_DEADLINE_MS) as u64, waiter: waiter->0 },
            ),
            ..after
        }
    } else {
        after.answered(
            waiter,
            match result {
                Ok(reply) => Ok(reply),
                Err(e) => Err(explained(e, dice.id)),
            },
        )
    }
}

/// What comes of a request.
pub open spec fn requested(
    desk: Desk,
    command: FileCommand,
    waiter: Option<u64>,
    clock: Clock,
    dice: Dice,
    after: Desk,
) -> bool {
    let ready = desk.synced().drags_retired();
    match command {
        FileCommand::ClearReceived { transfer } => after == ready.clearing_received(
            transfer,
            waiter,
        ),
        FileCommand::CaptureClipboard { selection, generation } => after == ready.capturing(
            selection,
            generation,
            waiter,
        ),
        FileCommand::SetEnabled(enabled) => after == ready.switching(enabled, waiter),
        FileCommand::RouteClipboard { recipient, generation } => after == ready.routing(
            recipient,
            generation,
            waiter,
            clock,
        ),
        FileCommand::Offer { selection, recipient, origin } => after == ready.offering(
            selection,
            recipient,
            origin,
            waiter,
        ),
        _ => if command is DropDrag && ready.drop_replies.contains_key(
            command->DropDrag_drag.0,
        ) {
            after == ready.answered(waiter, refused(FileError::DropPending))
        } else {
            exists|mid: Desk, result: Result<FileReply, FileError>| #[trigger]
                acts(ready, command, clock, dice, mid, result) && after == concluded(
                    mid,
                    command,
                    result,
                    waiter,
                    clock,
                    dice,
                )
        },
    }
}

/// Why received files cannot be retained.
pub open spec fn retain_error(desk: Desk, id: TransferId) -> Option<FileError> {
    if !desk.transfers.contains_key(id.0) {
        Some(FileError::UnknownTransfer)
    } else {
        let d = desk.transfers[id.0];
        if d.record.direction is Receive && d.record.state is Ready && !d.running
            && !desk.clearing.contains_key(id.0) {
            None
        } else {
            Some(FileError::NotRetainable)
        }
    }
}

/// Leases on received files.
pub open spec fn leases(desk: Desk, id: TransferId) -> u64 {
    if desk.pins.contains_key(id.0) {
        desk.pins[id.0]
    } else {
        0
    }
}

impl Service {
    fn announce_end(&mut self)
        requires
            old(self).wf(),
        ensures
            final(self).wf(),
            final(self)@ == old(self)@.announcing_end(
                picked(ids_of(old(self)@.offers), old(self)@.offers, is_available()),
            ),
    {
        let ids = self.offers.all_ids();
        let ghost before = self@;
        let ghost all = before.offers;
        assert(ids@.take(0) =~= Seq::empty());
        for i in 0..ids.len()
            invariant
                self.wf(),
                all == before.offers,
                self@.offers == all,
                self@.id == before.id,
                lists(ids@, all),
                self@ == before.announcing_end(picked(ids@.take(i as int), all, is_available())),
        {
            proof {
                lemma_pick_step(all, ids@, i as int, is_available());
                assert(ids@.contains(ids@[i as int]));
                let now = picked(ids@.take(i as int), all, is_available());
                assert(now.push(ids@[i as int]).drop_last() =~= now);
            }
            let peer: Option<MachineId> = match self.offers.get(ids[i]) {
                Some(o) => if o.record.state == OfferState::Available {
                    Some(self.other_side(&o.record))
                } else {
                    None
                },
                None => None,
            };
            if let Some(peer) = peer {
                let offer = FileOfferId(ids[i]);
                let _ = self.send(&peer, FileMessage::Revoke { offer, unaccepted_only: false });
            }
        }
        assert(ids@.take(ids@.len() as int) =~= ids@);
    }

    fn switch(&mut self, enabled: bool, waiter: Option<u64>)
        requires
            old(self).wf(),
            old(self)@.clipboard.epoch < u64::MAX,
        ensures
            final(self).wf(),
            final(self)@ == old(self)@.switching(enabled, waiter),
    {
        if self.setting.is_some() {
            self.reply(waiter, Err(Fault::Known(FileError::SettingPending)));
            return ;
        }
        self.setting = Some(Setting { enabled, waiter });
        if !enabled {
            self.clipboard.revoke();
            self.announce_end();
            self.enabled = false;
            self.enforce();
        }
        self.outbox.push(Effect::SaveEnabled { enabled });
    }

    fn refuse_offer(
        &mut self,
        selection: &LocalSelection,
        recipient: &MachineId,
        origin: OfferOrigin,
    ) -> (r: Result<u64, FileError>)
        requires
            old(self).wf(),
        ensures
            final(self).wf(),
            final(self)@ == if selection.fault() is Some || old(self)@.authorized(recipient@) is Err {
                old(self)@
            } else {
                old(self)@.offers_retired()
            },
            match r {
                Ok(generation) => old(self)@.offer_refusal(*selection, recipient@, origin) is None
                    && old(self)@.authorized(recipient@) == Ok::<u64, FileError>(generation),
                Err(e) => old(self)@.offer_refusal(*selection, recipient@, origin) == Some(e),
            },
    {
        if let Err(e) = selection.validate() {
            return Err(e);
        }
        let generation: u64 = match self.authorize(recipient) {
            Ok(generation) => generation,
            Err(e) => {
                return Err(e);
            },
        };
        match self.offer_capacity(recipient) {
            Ok(_) => {},
            Err(e) => {
                return Err(e);
            },
        }
        if self.enumerations.len() >= MAX_ENUMERATIONS {
            return Err(FileError::EnumerationLimit);
        }
        if let OfferOrigin::Clipboard { generation: wanted } = origin {
            if !self.policy.clipboard_enabled {
                return Err(FileError::ClipboardDisabled);
            }
            if let Some(current) = self.clipboard_generation {
                if current != wanted {
                    return Err(FileError::SelectionStale);
                }
            }
        }
        Ok(generation)
    }

    fn offer(
        &mut self,
        selection: Arc<LocalSelection>,
        recipient: MachineId,
        origin: OfferOrigin,
        waiter: Option<u64>,
    )
        requires
            old(self).wf(),
            old(self)@.enumeration_id < u64::MAX,
        ensures
            final(self).wf(),
            final(self)@ == old(self)@.offering(selection, recipient, origin, waiter),
    {
        let generation: u64 = match self.refuse_offer(&selection, &recipient, origin) {
            Ok(generation) => generation,
            Err(e) => {
                self.reply(waiter, Err(Fault::Known(e)));
                return ;
            },
        };
        if let OfferOrigin::Clipboard { generation: wanted } = origin {
            self.clipboard_generation = Some(wanted);
        }
        self.enumeration_id = self.enumeration_id + 1;
        let id: u64 = self.enumeration_id;
        let epoch: u64 = self.epoch(&recipient);
        self.enumerations.insert(
            id as u128,
            Enumeration {
                epoch,
                recipient,
                generation,
                origin,
                cancelled: false,
                waiter,
                hung_up: false,
            },
        );
        self.outbox.push(Effect::Enumerate { id, selection });
    }

    fn find_route(&self, recipient: &MachineId, generation: u64, clock: Clock) -> (r: Option<
        FileOfferId,
    >)
        requires
            self.wf(),
        ensures
            r == routed(self@, ids_of(self@.offers), recipient@, generation, clock),
    {
        let ids = self.offers.all_ids();
        let ghost all = ids@;
        assert(all.take(0) =~= Seq::empty());
        for i in 0..ids.len()
            invariant
                self.wf(),
                all == ids@,
                lists(all, self@.offers),
                routed(self@, all.take(i as int), recipient@, generation, clock) is None,
                all == ids_of(self@.offers),
        {
            assert(all.take(i + 1).drop_last() =~= all.take(i as int));
            assert(all.contains(all[i as int]));
            let fits: bool = match self.offers.get(ids[i]) {
                Some(o) => {
                    let same: bool = match o.record.origin {
                        OfferOrigin::Clipboard { generation: other } => other == generation,
                        OfferOrigin::Selection => false,
                    };
                    same && o.record.owner.same(&self.id) && o.record.recipient.same(recipient)
                },
                None => false,
            };
            if fits && self.available(FileOfferId(ids[i]), clock).is_ok() {
                proof {
                    lemma_routed(self@, all, i + 1, recipient@, generation, clock);
                }
                return Some(FileOfferId(ids[i]));
            }
        }
        assert(all.take(all.len() as int) =~= all);
        None
    }

    fn route(&mut self, recipient: MachineId, generation: u64, waiter: Option<u64>, clock: Clock)
        requires
            old(self).wf(),
            old(self)@.enumeration_id < u64::MAX,
        ensures
            final(self).wf(),
            final(self)@ == old(self)@.routing(recipient, generation, waiter, clock),
    {
        let current: bool = match self.clipboard_generation {
            Some(current) => current == generation,
            None => false,
        };
        let selection: Option<Arc<LocalSelection>> = match &self.clipboard_selection {
            Some(selection) => Some(selection.clone()),
            None => None,
        };
        match selection {
            Some(selection) if current => {
                match self.find_route(&recipient, generation, clock) {
                    Some(id) => {
                        self.reply(waiter, Ok(FileReply::Offered(id)));
                    },
                    None => {
                        self.offer(
                            selection,
                            recipient,
                            OfferOrigin::Clipboard { generation },
                            waiter,
                        );
                    },
                }
            },
            _ => {
                self.reply(waiter, Err(Fault::Known(FileError::SelectionReplaced)));
            },
        }
    }

    fn capture(&mut self, selection: Arc<LocalSelection>, generation: u64, waiter: Option<u64>)
        requires
            old(self).wf(),
        ensures
            final(self).wf(),
            final(self)@ == old(self)@.capturing(selection, generation, waiter),
    {
        if let Err(e) = selection.validate() {
            self.reply(waiter, Err(Fault::Known(e)));
            return ;
        }
        self.change_clipboard(generation);
        self.clipboard_selection = Some(selection);
        self.reply(waiter, Ok(FileReply::Done));
    }

    /// Carries out a request.
    pub fn command(&mut self, command: FileCommand, waiter: Option<u64>, clock: Clock, dice: &Dice)
        requires
            old(self).wf(),
            clock.sane(),
            old(self)@.clipboard.epoch < u64::MAX,
            old(self)@.enumeration_id < u64::MAX,
        ensures
            final(self).wf(),
            requested(old(self)@, command, waiter, clock, *dice, final(self)@),
    {
        proof {
            lemma_sync_keeps(self@);
        }
        self.sync_clipboard();
        self.retire_drags();
        let ghost ready = self@;
        match command {
            FileCommand::ClearReceived { transfer } => {
                self.clear_received(transfer, waiter);
            },
            FileCommand::CaptureClipboard { selection, generation } => {
                self.capture(selection, generation, waiter);
            },
            FileCommand::SetEnabled(enabled) => {
                self.switch(enabled, waiter);
            },
            FileCommand::RouteClipboard { recipient, generation } => {
                self.route(recipient, generation, waiter, clock);
            },
            FileCommand::Offer { selection, recipient, origin } => {
                self.offer(selection, recipient, origin, waiter);
            },
            command => {
                let dropped: Option<NativeDragId> = match &command {
                    FileCommand::DropDrag { drag } => Some(*drag),
                    _ => None,
                };
                if let Some(drag) = dropped {
                    if self.drop_replies.contains(drag.0) {
                        self.reply(waiter, Err(Fault::Known(FileError::DropPending)));
                        return ;
                    }
                }
                let ghost asked = command;
                let result = self.action(command, clock, dice);
                let ghost mid = self@;
                assert(acts(ready, asked, clock, *dice, mid, result));
                match (dropped, waiter, result) {
                    (Some(drag), Some(waiter), Ok(_)) => {
                        self.drop_replies.insert(
                            drag.0,
                            DropReply { deadline: clock.at + AUTH_DEADLINE_MS, waiter },
                        );
                    },
                    (_, waiter, Ok(reply)) => {
                        self.reply(waiter, Ok(reply));
                    },
                    (_, waiter, Err(e)) => {
                        self.reply(waiter, Err(explain(e, &dice.id)));
                    },
                }
                assert(self@ == concluded(mid, asked, result, waiter, clock, *dice));
            },
        }
    }

    /// Retains received files: they stay in place until the lease is released.
    pub fn retain_received(&mut self, id: TransferId) -> (r: Result<ReceivedLease, FileError>)
        requires
            old(self).wf(),
            leases(old(self)@.synced(), id) < u64::MAX,
        ensures
            final(self).wf(),
            ({
                let ready = old(self)@.synced();
                match retain_error(ready, id) {
                    Some(e) => {
                        &&& final(self)@ == ready
                        &&& r matches Err(error) && error == e
                    },
                    None => {
                        &&& final(self)@ == (Desk {
                            pins: ready.pins.insert(id.0, (leases(ready, id) + 1) as u64),
                            ..ready
                        })
                        &&& r matches Ok(lease) && lease == (ReceivedLease {
                            files: ReceivedFiles {
                                transfer: id,
                                paths: ready.transfers[id.0].record.paths,
                            },
                            manifest: ready.transfers[id.0].manifest,
                        })
                    },
                }
            }),
    {
        self.sync_clipboard();
        let lease: ReceivedLease = match self.transfers.get(id.0) {
            None => {
                return Err(FileError::UnknownTransfer);
            },
            Some(d) => {
                if d.record.direction != TransferDirection::Receive || d.record.state
                    != TransferState::Ready || d.running || self.clearing.contains(id.0) {
                    return Err(FileError::NotRetainable);
                }
                ReceivedLease {
                    files: ReceivedFiles {
                        transfer: id,
                        paths: match &d.record.paths {
                            Some(paths) => Some(paths.clone()),
                            None => None,
                        },
                    },
                    manifest: d.manifest.clone(),
                }
            },
        };
        let held: u64 = match self.pins.get(id.0) {
            Some(held) => *held,
            None => 0,
        };
        self.pins.insert(id.0, held + 1);
        Ok(lease)
    }

    /// A lease on received files ends.
    pub fn release_received(&mut self, id: TransferId)
        requires
            old(self).wf(),
        ensures
            final(self).wf(),
            final(self)@ == (Desk {
                pins: if old(self)@.pins.contains_key(id.0) && old(self)@.pins[id.0] > 0 {
                    old(self)@.pins.insert(id.0, (old(self)@.pins[id.0] - 1) as u64)
                } else {
                    old(self)@.pins
                },
                ..old(self)@
            }),
    {
        let held: u64 = match self.pins.get(id.0) {
            Some(held) => *held,
            None => 0,
        };
        if held > 0 {
            self.pins.insert(id.0, held - 1);
        }
    }
}

proof fn lemma_routed(
    desk: Desk,
    ids: Seq<u128>,
    n: int,
    recipient: Seq<char>,
    generation: u64,
    clock: Clock,
)
    requires
        0 <= n <= ids.len(),
        routed(desk, ids.take(n), recipient, generation, clock) is Some,
    ensures
        routed(desk, ids, recipient, generation, clock) == routed(
            desk,
            ids.take(n),
            recipient,
            generation,
            clock,
        ),
    decreases ids.len() - n,
{
    if n < ids.len() {
        assert(ids.take(n + 1).drop_last() =~= ids.take(n));
        lemma_routed(desk, ids, n + 1, recipient, generation, clock);
    } else {
        assert(ids.take(n) =~= ids);
    }
}

} // verus!
