//! What ends when sharing is restricted, time runs out, or the service stops.

use super::desk::{
    cancelled_delivery, cancel_delivery, fail_delivery, failed_delivery, refused, Clock, Delivery,
    Desk, Drag, DropReply, Effect, Enumeration, RegisteredOffer, Service,
};
use super::records::{
    Fault, FileError, FileMessage, FileOfferId, NativeDragId, OfferOrigin, OfferRecord, OfferState,
};
use crate::id_map::{
    changed, ids_of, kept, lemma_change_all, lemma_change_step, lemma_pick_step, lemma_prune_all,
    lemma_prune_step, lists, mapped, picked, pruned,
};
use vstd::prelude::*;

verus! {

/// A transfer fails where what was agreed no longer stands.
pub open spec fn lapsed_delivery(desk: Desk) -> spec_fn(Delivery) -> Delivery {
    |d: Delivery|
        if desk.stands(d.record.peer@, d.generation, d.epoch) {
            d
        } else {
            failed_delivery(d, Fault::Known(FileError::AuthorizationRevoked))
        }
}

/// An offer that no longer stands.
pub open spec fn lapsed_offer(desk: Desk) -> spec_fn(RegisteredOffer) -> bool {
    |o: RegisteredOffer|
        {
            ||| !desk.stands(desk.other_side(o.record)@, o.generation, o.epoch)
            ||| !desk.policy.clipboard_enabled && o.record.origin is Clipboard
        }
}

/// A walk stops where its recipient no longer may share, or nobody waits for it.
pub open spec fn lapsed_walk(desk: Desk) -> spec_fn(Enumeration) -> Enumeration {
    |e: Enumeration|
        if !desk.stands(e.recipient@, e.generation, e.epoch) || (e.waiter is Some && e.hung_up) {
            Enumeration { cancelled: true, ..e }
        } else {
            e
        }
}

pub open spec fn standing_drag(desk: Desk) -> spec_fn(Drag) -> bool {
    |d: Drag| desk.stands(d.peer@, d.generation, d.epoch)
}

/// An offer after its time.
pub open spec fn expired_offer(now: u64) -> spec_fn(RegisteredOffer) -> RegisteredOffer {
    |o: RegisteredOffer|
        if o.record.state is Available && o.record.expires_unix_ms <= now {
            RegisteredOffer {
                record: OfferRecord { state: OfferState::Expired, ..o.record },
                source: None,
                ..o
            }
        } else {
            o
        }
}

/// A transfer after its deadline.
pub open spec fn overdue_delivery(at: u64) -> spec_fn(Delivery) -> Delivery {
    |d: Delivery|
        if !d.running && !d.record.state.is_terminal() && d.deadline <= at {
            failed_delivery(d, Fault::Known(FileError::DeadlineExceeded))
        } else {
            d
        }
}

impl Desk {
    /// Offers are withdrawn one by one.
    pub open spec fn revoking_all(self, offers: Seq<u128>) -> Desk
        decreases offers.len(),
    {
        if offers.len() == 0 {
            self
        } else {
            self.revoking_all(offers.drop_last()).revoking(FileOfferId(offers.last()), false)
        }
    }

    /// Everything that the policy no longer allows ends.
    pub open spec fn enforced(self) -> Desk {
        let off = !self.enabled || !self.policy.enabled || !self.policy.clipboard_enabled;
        let failed = Desk {
            transfers: mapped(self.transfers, lapsed_delivery(self)),
            clipboard_selection: if off {
                None
            } else {
                self.clipboard_selection
            },
            clipboard_generation: if off {
                None
            } else {
                self.clipboard_generation
            },
            ..self
        };
        let revoked = failed.revoking_all(
            picked(ids_of(self.offers), self.offers, lapsed_offer(self)),
        );
        Desk {
            enumerations: mapped(revoked.enumerations, lapsed_walk(self)),
            drags: kept(revoked.drags, standing_drag(self)),
            ..revoked
        }
    }

    /// A drag ends, with its transfer.
    pub open spec fn drag_cancelled(self, drag: NativeDragId) -> Desk {
        if self.drags.contains_key(drag.0) {
            let d = self.drags[drag.0];
            let removed = Desk { drags: self.drags.remove(drag.0), ..self };
            let stopped = match d.transfer {
                Some(transfer) => removed.cancelling(
                    transfer,
                    Fault::Known(FileError::DragCancelled),
                ),
                None => removed,
            };
            stopped.posted(d.peer, FileMessage::CancelDrag { drag })
        } else {
            self
        }
    }

    /// Drags whose drop was not confirmed end, and who waits is told.
    pub open spec fn drops_expired(self, drags: Seq<u128>) -> Desk
        decreases drags.len(),
    {
        if drags.len() == 0 {
            self
        } else {
            let id = drags.last();
            let before = self.drops_expired(drags.drop_last()).drag_cancelled(NativeDragId(id));
            if before.drop_replies.contains_key(id) {
                Desk { drop_replies: before.drop_replies.remove(id), ..before }.answered(
                    Some(before.drop_replies[id].waiter),
                    refused(FileError::DropExpired),
                )
            } else {
                before
            }
        }
    }

    /// Drops that were not confirmed in time, or whose drag is gone.
    pub open spec fn unconfirmed(self, at: u64) -> Seq<u128>  {
        unconfirmed_in(ids_of(self.drop_replies), self, at)
    }

    /// The regular upkeep.
    pub open spec fn maintained(self, clock: Clock) -> Desk {
        let retired = self.enforced().drags_retired().history_retired();
        let expired = Desk {
            offers: mapped(retired.offers, expired_offer(clock.unix_ms)),
            drags: kept(retired.drags, |d: Drag| d.expires > clock.unix_ms),
            ..retired
        };
        let dropped = expired.drops_expired(expired.unconfirmed(clock.at));
        Desk { transfers: mapped(dropped.transfers, overdue_delivery(clock.at)), ..dropped }
    }

    /// Everything stops, for a reason.
    pub open spec fn all_cancelled(self, fault: Fault) -> Desk {
        Desk {
            enumerations: mapped(
                self.enumerations,
                |e: Enumeration| Enumeration { cancelled: true, ..e },
            ),
            transfers: mapped(self.transfers, |d: Delivery| cancelled_delivery(d, fault)),
            drags: Map::empty(),
            drop_replies: Map::empty(),
            outbox: self.outbox + drop_answers(
                ids_of(self.drop_replies),
                self.drop_replies,
                fault,
            ),
            ..self
        }
    }
}

pub open spec fn unconfirmed_in(ids: Seq<u128>, desk: Desk, at: u64) -> Seq<u128>
    decreases ids.len(),
{
    if ids.len() == 0 {
        Seq::empty()
    } else {
        let before = unconfirmed_in(ids.drop_last(), desk, at);
        if desk.drop_replies[ids.last()].deadline <= at || !desk.drags.contains_key(ids.last()) {
            before.push(ids.last())
        } else {
            before
        }
    }
}

/// Whoever waits for a drop is told why there is none.
pub open spec fn drop_answers(
    ids: Seq<u128>,
    replies: Map<u128, DropReply>,
    fault: Fault,
) -> Seq<Effect> {
    Seq::new(
        ids.len(),
        |i: int| Effect::Reply { waiter: replies[ids[i]].waiter, result: Err(fault) },
    )
}

impl Service {
    fn fail_lapsed(&mut self)
        requires
            old(self).wf(),
        ensures
            final(self).wf(),
            final(self)@ == (Desk {
                transfers: mapped(old(self)@.transfers, lapsed_delivery(old(self)@)),
                ..old(self)@
            }),
    {
        let ghost before = self@;
        let ids = self.transfers.all_ids();
        let ghost change = lapsed_delivery(before);
        for i in 0..ids.len()
            invariant
                self.wf(),
                lists(ids@, before.transfers),
                change == lapsed_delivery(before),
                self@ == (Desk {
                    transfers: changed(before.transfers, ids@.take(i as int), change),
                    ..before
                }),
        {
            proof {
                lemma_change_step(before.transfers, ids@, i as int, change);
            }
            let ghost earlier = self@.transfers;
            let stands: bool = match self.transfers.get(ids[i]) {
                Some(d) => self.stands(&d.record.peer, d.generation, d.epoch),
                None => true,
            };
            if !stands {
                if let Some(d) = self.transfers.get_mut(ids[i]) {
                    fail_delivery(d, Fault::Known(FileError::AuthorizationRevoked));
                }
            }
            assert(self@.transfers =~= earlier.insert(
                ids@[i as int],
                change(before.transfers[ids@[i as int]]),
            ));
        }
        proof {
            lemma_change_all(before.transfers, ids@, change);
        }
    }

    fn revoke_all(&mut self, offers: &Vec<u128>)
        requires
            old(self).wf(),
        ensures
            final(self).wf(),
            final(self)@ == old(self)@.revoking_all(offers@),
    {
        let ghost before = self@;
        let ghost all = offers@;
        assert(all.take(0) =~= Seq::empty());
        for i in 0..offers.len()
            invariant
                self.wf(),
                all == offers@,
                self@ == before.revoking_all(all.take(i as int)),
        {
            assert(all.take(i + 1).drop_last() =~= all.take(i as int));
            self.revoke(FileOfferId(offers[i]), false);
        }
        assert(all.take(all.len() as int) =~= all);
    }

    fn lapsed_offers(&self) -> (r: Vec<u128>)
        requires
            self.wf(),
        ensures
            r@ == picked(ids_of(self@.offers), self@.offers, lapsed_offer(self@)),
    {
        let ids = self.offers.all_ids();
        let ghost all = self@.offers;
        let ghost keep = lapsed_offer(self@);
        let mut out: Vec<u128> = Vec::new();
        assert(ids@.take(0) =~= Seq::empty());
        for i in 0..ids.len()
            invariant
                self.wf(),
                all == self@.offers,
                lists(ids@, all),
                keep == lapsed_offer(self@),
                out@ == picked(ids@.take(i as int), all, keep),
        {
            proof {
                lemma_pick_step(all, ids@, i as int, keep);
                assert(ids@.contains(ids@[i as int]));
            }
            if let Some(o) = self.offers.get(ids[i]) {
                let peer = self.other_side(&o.record);
                let clipboard: bool = match o.record.origin {
                    OfferOrigin::Clipboard { .. } => true,
                    OfferOrigin::Selection => false,
                };
                if !self.stands(&peer, o.generation, o.epoch) || (!self.policy.clipboard_enabled
                    && clipboard) {
                    out.push(ids[i]);
                }
            }
        }
        assert(ids@.take(ids@.len() as int) =~= ids@);
        out
    }

    fn stop_lapsed_walks(&mut self, Ghost(rule): Ghost<Desk>)
        requires
            old(self).wf(),
            rule.policy == old(self)@.policy,
            rule.enabled == old(self)@.enabled,
            rule.wires == old(self)@.wires,
        ensures
            final(self).wf(),
            final(self)@ == (Desk {
                enumerations: mapped(old(self)@.enumerations, lapsed_walk(rule)),
                ..old(self)@
            }),
    {
        let ghost before = self@;
        let ids = self.enumerations.all_ids();
        let ghost change = lapsed_walk(rule);
        for i in 0..ids.len()
            invariant
                self.wf(),
                rule.policy == before.policy,
                rule.enabled == before.enabled,
                rule.wires == before.wires,
                lists(ids@, before.enumerations),
                change == lapsed_walk(rule),
                self@ == (Desk {
                    enumerations: changed(before.enumerations, ids@.take(i as int), change),
                    ..before
                }),
        {
            proof {
                lemma_change_step(before.enumerations, ids@, i as int, change);
            }
            let ghost earlier = self@.enumerations;
            let goes_on: bool = match self.enumerations.get(ids[i]) {
                Some(e) => self.stands(&e.recipient, e.generation, e.epoch) && !(
                e.waiter.is_some() && e.hung_up),
                None => true,
            };
            if !goes_on {
                if let Some(e) = self.enumerations.get_mut(ids[i]) {
                    e.cancelled = true;
                }
            }
            assert(self@.enumerations =~= earlier.insert(
                ids@[i as int],
                change(before.enumerations[ids@[i as int]]),
            ));
        }
        proof {
            lemma_change_all(before.enumerations, ids@, change);
        }
    }

    fn drop_lapsed_drags(&mut self, Ghost(rule): Ghost<Desk>)
        requires
            old(self).wf(),
            rule.policy == old(self)@.policy,
            rule.enabled == old(self)@.enabled,
            rule.wires == old(self)@.wires,
        ensures
            final(self).wf(),
            final(self)@ == (Desk {
                drags: kept(old(self)@.drags, standing_drag(rule)),
                ..old(self)@
            }),
    {
        let ghost before = self@;
        let ids = self.drags.all_ids();
        let ghost keep = standing_drag(rule);
        let ghost drop = |d: Drag| !keep(d);
        for i in 0..ids.len()
            invariant
                self.wf(),
                rule.policy == before.policy,
                rule.enabled == before.enabled,
                rule.wires == before.wires,
                lists(ids@, before.drags),
                keep == standing_drag(rule),
                drop == (|d: Drag| !keep(d)),
                self@ == (Desk {
                    drags: pruned(before.drags, ids@.take(i as int), drop),
                    ..before
                }),
        {
            proof {
                lemma_prune_step(before.drags, ids@, i as int, drop);
            }
            let stands: bool = match self.drags.get(ids[i]) {
                Some(d) => self.stands(&d.peer, d.generation, d.epoch),
                None => true,
            };
            if !stands {
                self.drags.remove(ids[i]);
            }
        }
        proof {
            lemma_prune_all(before.drags, ids@, keep);
        }
    }

    /// Ends everything that the policy no longer allows.
    pub fn enforce(&mut self)
        requires
            old(self).wf(),
        ensures
            final(self).wf(),
            final(self)@ == old(self)@.enforced(),
    {
        let ghost before = self@;
        let lapsed = self.lapsed_offers();
        self.fail_lapsed();
        if !self.enabled || !self.policy.enabled || !self.policy.clipboard_enabled {
            self.clipboard_selection = None;
            self.clipboard_generation = None;
        }
        proof {
            lemma_revoking_keeps(self@, lapsed@);
        }
        self.revoke_all(&lapsed);
        self.stop_lapsed_walks(Ghost(before));
        self.drop_lapsed_drags(Ghost(before));
    }

    /// Ends a drag.
    pub fn cancel_drag(&mut self, drag: NativeDragId)
        requires
            old(self).wf(),
        ensures
            final(self).wf(),
            final(self)@ == old(self)@.drag_cancelled(drag),
    {
        assert(!self@.drags.contains_key(drag.0) ==> self@.drags.remove(drag.0) =~= self@.drags);
        if let Some(lease) = self.drags.remove(drag.0) {
            if let Some(transfer) = lease.transfer {
                self.cancel(transfer, Fault::Known(FileError::DragCancelled));
            }
            let _ = self.send(&lease.peer, FileMessage::CancelDrag { drag });
        }
    }

    fn expire_drops(&mut self, drags: &Vec<u128>)
        requires
            old(self).wf(),
        ensures
            final(self).wf(),
            final(self)@ == old(self)@.drops_expired(drags@),
    {
        let ghost before = self@;
        let ghost all = drags@;
        assert(all.take(0) =~= Seq::empty());
        for i in 0..drags.len()
            invariant
                self.wf(),
                all == drags@,
                self@ == before.drops_expired(all.take(i as int)),
        {
            assert(all.take(i + 1).drop_last() =~= all.take(i as int));
            self.cancel_drag(NativeDragId(drags[i]));
            let ghost replies = self@.drop_replies;
            assert(!replies.contains_key(all[i as int]) ==> replies.remove(all[i as int])
                =~= replies);
            if let Some(reply) = self.drop_replies.remove(drags[i]) {
                self.reply(Some(reply.waiter), Err(Fault::Known(FileError::DropExpired)));
            }
        }
        assert(all.take(all.len() as int) =~= all);
    }

    fn unconfirmed(&self, at: u64) -> (r: Vec<u128>)
        requires
            self.wf(),
        ensures
            r@ == self@.unconfirmed(at),
    {
        let ids = self.drop_replies.all_ids();
        let mut out: Vec<u128> = Vec::new();
        assert(ids@.take(0) =~= Seq::empty());
        for i in 0..ids.len()
            invariant
                self.wf(),
                lists(ids@, self@.drop_replies),
                out@ == unconfirmed_in(ids@.take(i as int), self@, at),
        {
            assert(ids@.take(i + 1).drop_last() =~= ids@.take(i as int));
            assert(ids@.contains(ids@[i as int]));
            let late: bool = match self.drop_replies.get(ids[i]) {
                Some(reply) => reply.deadline <= at,
                None => false,
            };
            if late || !self.drags.contains(ids[i]) {
                out.push(ids[i]);
            }
        }
        assert(ids@.take(ids@.len() as int) =~= ids@);
        out
    }

    fn expire_offers(&mut self, now: u64)
        requires
            old(self).wf(),
        ensures
            final(self).wf(),
            final(self)@ == (Desk {
                offers: mapped(old(self)@.offers, expired_offer(now)),
                ..old(self)@
            }),
    {
        let ghost before = self@;
        let ids = self.offers.all_ids();
        let ghost change = expired_offer(now);
        for i in 0..ids.len()
            invariant
                self.wf(),
                lists(ids@, before.offers),
                change == expired_offer(now),
                self@ == (Desk {
                    offers: changed(before.offers, ids@.take(i as int), change),
                    ..before
                }),
        {
            proof {
                lemma_change_step(before.offers, ids@, i as int, change);
            }
            let ghost earlier = self@.offers;
            if let Some(o) = self.offers.get_mut(ids[i]) {
                if o.record.state == OfferState::Available && o.record.expires_unix_ms <= now {
                    o.record.state = OfferState::Expired;
                    o.source = None;
                }
            }
            assert(self@.offers =~= earlier.insert(
                ids@[i as int],
                change(before.offers[ids@[i as int]]),
            ));
        }
        proof {
            lemma_change_all(before.offers, ids@, change);
        }
    }

    fn expire_drags(&mut self, now: u64)
        requires
            old(self).wf(),
        ensures
            final(self).wf(),
            final(self)@ == (Desk {
                drags: kept(old(self)@.drags, |d: Drag| d.expires > now),
                ..old(self)@
            }),
    {
        let ghost before = self@;
        let ids = self.drags.all_ids();
        let ghost keep = |d: Drag| d.expires > now;
        let ghost drop = |d: Drag| !keep(d);
        for i in 0..ids.len()
            invariant
                self.wf(),
                lists(ids@, before.drags),
                keep == (|d: Drag| d.expires > now),
                drop == (|d: Drag| !keep(d)),
                self@ == (Desk {
                    drags: pruned(before.drags, ids@.take(i as int), drop),
                    ..before
                }),
        {
            proof {
                lemma_prune_step(before.drags, ids@, i as int, drop);
            }
            let over: bool = match self.drags.get(ids[i]) {
                Some(d) => d.expires <= now,
                None => false,
            };
            if over {
                self.drags.remove(ids[i]);
            }
        }
        proof {
            lemma_prune_all(before.drags, ids@, keep);
        }
    }

    fn fail_overdue(&mut self, at: u64)
        requires
            old(self).wf(),
        ensures
            final(self).wf(),
            final(self)@ == (Desk {
                transfers: mapped(old(self)@.transfers, overdue_delivery(at)),
                ..old(self)@
            }),
    {
        let ghost before = self@;
        let ids = self.transfers.all_ids();
        let ghost change = overdue_delivery(at);
        for i in 0..ids.len()
            invariant
                self.wf(),
                lists(ids@, before.transfers),
                change == overdue_delivery(at),
                self@ == (Desk {
                    transfers: changed(before.transfers, ids@.take(i as int), change),
                    ..before
                }),
        {
            proof {
                lemma_change_step(before.transfers, ids@, i as int, change);
            }
            let ghost earlier = self@.transfers;
            if let Some(d) = self.transfers.get_mut(ids[i]) {
                if !d.running && !d.record.state.terminal() && d.deadline <= at {
                    fail_delivery(d, Fault::Known(FileError::DeadlineExceeded));
                }
            }
            assert(self@.transfers =~= earlier.insert(
                ids@[i as int],
                change(before.transfers[ids@[i as int]]),
            ));
        }
        proof {
            lemma_change_all(before.transfers, ids@, change);
        }
    }

    /// The regular upkeep.
    pub fn maintain(&mut self, clock: Clock)
        requires
            old(self).wf(),
        ensures
            final(self).wf(),
            final(self)@ == old(self)@.maintained(clock),
    {
        self.enforce();
        self.retire_drags();
        self.retire_history();
        self.expire_offers(clock.unix_ms);
        self.expire_drags(clock.unix_ms);
        let drags = self.unconfirmed(clock.at);
        self.expire_drops(&drags);
        self.fail_overdue(clock.at);
    }

    fn stop_walks(&mut self)
        requires
            old(self).wf(),
        ensures
            final(self).wf(),
            final(self)@ == (Desk {
                enumerations: mapped(
                    old(self)@.enumerations,
                    |e: Enumeration| Enumeration { cancelled: true, ..e },
                ),
                ..old(self)@
            }),
    {
        let ghost before = self@;
        let ids = self.enumerations.all_ids();
        let ghost change = |e: Enumeration| Enumeration { cancelled: true, ..e };
        for i in 0..ids.len()
            invariant
                self.wf(),
                lists(ids@, before.enumerations),
                change == (|e: Enumeration| Enumeration { cancelled: true, ..e }),
                self@ == (Desk {
                    enumerations: changed(before.enumerations, ids@.take(i as int), change),
                    ..before
                }),
        {
            proof {
                lemma_change_step(before.enumerations, ids@, i as int, change);
            }
            let ghost earlier = self@.enumerations;
            if let Some(e) = self.enumerations.get_mut(ids[i]) {
                e.cancelled = true;
            }
            assert(self@.enumerations =~= earlier.insert(
                ids@[i as int],
                change(before.enumerations[ids@[i as int]]),
            ));
        }
        proof {
            lemma_change_all(before.enumerations, ids@, change);
        }
    }

    fn stop_transfers(&mut self, fault: &Fault)
        requires
            old(self).wf(),
        ensures
            final(self).wf(),
            final(self)@ == (Desk {
                transfers: mapped(
                    old(self)@.transfers,
                    |d: Delivery| cancelled_delivery(d, *fault),
                ),
                ..old(self)@
            }),
    {
        let ghost before = self@;
        let ids = self.transfers.all_ids();
        let ghost change = |d: Delivery| cancelled_delivery(d, *fault);
        for i in 0..ids.len()
            invariant
                self.wf(),
                lists(ids@, before.transfers),
                change == (|d: Delivery| cancelled_delivery(d, *fault)),
                self@ == (Desk {
                    transfers: changed(before.transfers, ids@.take(i as int), change),
                    ..before
                }),
        {
            proof {
                lemma_change_step(before.transfers, ids@, i as int, change);
            }
            let ghost earlier = self@.transfers;
            if let Some(d) = self.transfers.get_mut(ids[i]) {
                cancel_delivery(d, fault.clone());
            }
            assert(self@.transfers =~= earlier.insert(
                ids@[i as int],
                change(before.transfers[ids@[i as int]]),
            ));
        }
        proof {
            lemma_change_all(before.transfers, ids@, change);
        }
    }

    /// Stops everything.
    pub fn cancel_all(&mut self, fault: Fault)
        requires
            old(self).wf(),
        ensures
            final(self).wf(),
            final(self)@ == old(self)@.all_cancelled(fault),
    {
        self.stop_walks();
        self.stop_transfers(&fault);
        self.drags.clear();
        let ids = self.drop_replies.all_ids();
        let ghost before = self@;
        let ghost answers = drop_answers(ids@, before.drop_replies, fault);
        for i in 0..ids.len()
            invariant
                self.wf(),
                lists(ids@, before.drop_replies),
                answers == drop_answers(ids@, before.drop_replies, fault),
                self@ == (Desk { outbox: before.outbox + answers.take(i as int), ..before }),
        {
            assert(ids@.contains(ids@[i as int]));
            if let Some(reply) = self.drop_replies.get(ids[i]) {
                let waiter: u64 = reply.waiter;
                self.outbox.push(Effect::Reply { waiter, result: Err(fault.clone()) });
            }
            assert(self@.outbox =~= before.outbox + answers.take(i + 1));
        }
        assert(answers.take(answers.len() as int) =~= answers);
        self.drop_replies.clear();
    }
}

proof fn lemma_revoking_keeps(desk: Desk, offers: Seq<u128>)
    ensures
        desk.revoking_all(offers).policy == desk.policy,
        desk.revoking_all(offers).enabled == desk.enabled,
        desk.revoking_all(offers).wires == desk.wires,
    decreases offers.len(),
{
    if offers.len() > 0 {
        lemma_revoking_keeps(desk, offers.drop_last());
    }
}

} // verus!
