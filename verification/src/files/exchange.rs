//! What machines bring about at each other when they share files.

use super::completion::{received_delivery, sent_delivery, ReceiveOutcome, Walked};
use super::desk::{cancelled_delivery, failed_delivery, Clock, Delivery, Desk, Dice, Effect};
use super::enforcement::{expired_offer, lapsed_delivery, lapsed_offer, overdue_delivery};
use super::records::{
    Fault, FileError, FileMessage, FileOfferId, FileReply, NativeDragId, Offer, OfferState,
    TransferId, TransferState,
};
use super::desk::RegisteredOffer;
use crate::machine::MachineId;
use vstd::prelude::*;

verus! {

/// A selection that was walked is offered to the machine that it is meant for, and to no
/// other: that machine is sent one offer with the manifest of the walk, which this machine
/// keeps open for ten minutes together with the selection it is taken from; who asked for it
/// is told its number. It is offered wherever the walk was not told to stop, the machine may
/// still share on the connection that it began with, and can be told.
pub proof fn a_walked_selection_is_offered(
    desk: Desk,
    id: u64,
    walk: Walked,
    clock: Clock,
    dice: Dice,
    after: Desk,
)
    requires
        desk.enumerations.contains_key(id as u128),
        !desk.enumerations[id as u128].cancelled,
        desk.authorized(desk.enumerations[id as u128].recipient@) == Ok::<u64, FileError>(
            desk.enumerations[id as u128].generation,
        ),
        desk.epoch(desk.enumerations[id as u128].recipient@)
            == desk.enumerations[id as u128].epoch,
        desk.send_error(desk.enumerations[id as u128].recipient@) is None,
        dice.id is Ok,
        clock.unix_ms <= u64::MAX - 600_000,
        after == desk.walked(id, Ok(walk), clock, dice),
    ensures
        ({
            let e = desk.enumerations[id as u128];
            let number = dice.id->Ok_0;
            &&& after.outbox[desk.outbox.len() as int] matches Effect::Send {
                peer,
                message: FileMessage::Offer(offer),
            } && peer == e.recipient && offer.id == FileOfferId(number) && offer.owner == desk.id
                && offer.recipient == e.recipient && offer.origin == e.origin && offer.manifest
                == walk.manifest && offer.expires_unix_ms == clock.unix_ms + 600_000
            &&& after.offers.contains_key(number)
            &&& after.offers[number].record.state == OfferState::Available
            &&& after.offers[number].record.owner == desk.id
            &&& after.offers[number].record.recipient == e.recipient
            &&& after.offers[number].record.manifest == walk.manifest
            &&& after.offers[number].record.expires_unix_ms == clock.unix_ms + 600_000
            &&& after.offers[number].source == Some(walk.source)
            &&& e.waiter matches Some(waiter) ==> after.outbox.last() == (Effect::Reply {
                waiter,
                result: Ok(FileReply::Offered(FileOfferId(number))),
            })
            &&& !after.enumerations.contains_key(id as u128)
        }),
{
    let e = desk.enumerations[id as u128];
    let done = Desk { enumerations: desk.enumerations.remove(id as u128), ..desk };
    assert(done.authorized(e.recipient@) == desk.authorized(e.recipient@));
    assert(done.send_error(e.recipient@) == desk.send_error(e.recipient@));
}

/// An offer is taken as it was made: from its owner, for this machine, new and within its
/// lifetime, it stands here with the manifest that was sent, and for no longer than ten
/// minutes by this machine's clock. Any other offer is refused, and no offer is added.
pub proof fn an_offer_is_taken_as_it_was_made(
    desk: Desk,
    peer: Seq<char>,
    generation: u64,
    offer: Offer,
    clock: Clock,
)
    requires
        clock.unix_ms <= u64::MAX - 900_000,
    ensures
        ({
            let heard = desk.heard_offer(peer, generation, offer, clock);
            let sound = offer.owner@ == peer && offer.recipient@ == desk.id@
                && !desk.offers.contains_key(offer.id.0) && clock.unix_ms < offer.expires_unix_ms
                <= clock.unix_ms + 900_000;
            &&& !sound ==> heard.error is Some && heard.desk == desk
            &&& sound && desk.offers_retired().registry_error(peer) is None
                ==> heard.error is None
            &&& heard.error is None ==> {
                &&& heard.desk.offers.contains_key(offer.id.0)
                &&& heard.desk.offers[offer.id.0].record.id == offer.id
                &&& heard.desk.offers[offer.id.0].record.owner == offer.owner
                &&& heard.desk.offers[offer.id.0].record.recipient == offer.recipient
                &&& heard.desk.offers[offer.id.0].record.origin == offer.origin
                &&& heard.desk.offers[offer.id.0].record.manifest == offer.manifest
                &&& heard.desk.offers[offer.id.0].record.state is Available
                &&& heard.desk.offers[offer.id.0].record.expires_unix_ms <= offer.expires_unix_ms
                &&& heard.desk.offers[offer.id.0].record.expires_unix_ms <= clock.unix_ms + 600_000
                &&& heard.desk.offers[offer.id.0].record.expires_unix_ms > clock.unix_ms
                &&& heard.desk.offers[offer.id.0].generation == generation
                &&& heard.desk.offers[offer.id.0].source is None
            }
            &&& heard.error is Some ==> forall|other: u128| #[trigger]
                heard.desk.offers.contains_key(other) ==> desk.offers.contains_key(other)
                    && heard.desk.offers[other] == desk.offers[other]
        }),
{
}

/// A transfer that is told to stop stops: one that is over stays as it is, one that waits is
/// cancelled at once, and one that runs is marked for its worker to see. It can open no bulk
/// connection any more, and where it goes and what it holds are not touched.
pub proof fn a_stopped_transfer_stops(d: Delivery, fault: Fault)
    ensures
        ({
            let after = cancelled_delivery(d, fault);
            let over = d.record.state is Ready || d.record.state is Cancelled
                || d.record.state is Failed;
            &&& over ==> after == d
            &&& !over ==> {
                &&& after.cancelled
                &&& after.token is None
                &&& after.source is None
                &&& after.record.error == Some(fault)
                &&& !d.running ==> after.record.state == TransferState::Cancelled
                &&& d.running ==> after.record.state == d.record.state
            }
            &&& after.running == d.running
            &&& after.destination == d.destination
            &&& after.manifest == d.manifest
            &&& after.record.id == d.record.id
            &&& after.record.paths == d.record.paths
            &&& after.record.total_bytes == d.record.total_bytes
        }),
        ({
            let after = failed_delivery(d, fault);
            let over = d.record.state is Ready || d.record.state is Cancelled
                || d.record.state is Failed;
            &&& over ==> after == d
            &&& !over ==> after.cancelled && after.token is None && after.record.error == Some(
                fault,
            )
            &&& !over && !d.running ==> after.record.state == TransferState::Failed
            &&& !over && d.running ==> after.record.state == d.record.state
            &&& after.destination == d.destination
            &&& after.manifest == d.manifest
        }),
{
}

/// A peer cancels its own transfer and no other: the one that it names, of its own connection,
/// is told to stop; every other transfer is as it was, and what is not its own is refused.
pub proof fn a_peer_cancels_only_its_own(
    desk: Desk,
    peer: Seq<char>,
    generation: u64,
    transfer: TransferId,
    other: u128,
)
    requires
        desk.transfers.contains_key(transfer.0),
    ensures
        ({
            let heard = desk.heard_cancel(peer, generation, transfer);
            let own = desk.transfers[transfer.0].record.peer@ == peer
                && desk.transfers[transfer.0].generation == generation;
            &&& !own ==> heard.error is Some && heard.desk == desk
            &&& own ==> {
                &&& heard.error is None
                &&& !(desk.transfers[transfer.0].record.state is Ready) ==> (
                heard.desk.transfers[transfer.0].cancelled
                    || heard.desk.transfers[transfer.0].record.state is Cancelled
                    || heard.desk.transfers[transfer.0].record.state is Failed)
                &&& other != transfer.0 ==> heard.desk.transfers.contains_key(other)
                    == desk.transfers.contains_key(other) && heard.desk.transfers[other]
                    == desk.transfers[other]
                &&& heard.desk.offers == desk.offers
            }
        }),
{
}

/// A transfer that was sent is done once both ends say so, whichever says so first: when its
/// worker has sent everything and the receiver has told that it has everything. Until then it
/// is not.
pub proof fn a_sent_transfer_is_done_once_both_say_so(
    desk: Desk,
    peer: Seq<char>,
    generation: u64,
    transfer: TransferId,
    clock: Clock,
)
    requires
        desk.transfers.contains_key(transfer.0),
        ({
            let d = desk.transfers[transfer.0];
            &&& d.record.peer@ == peer
            &&& d.generation == generation
            &&& d.record.direction is Send
            &&& d.record.state is Receiving
            &&& d.running
            &&& !d.cancelled
            &&& !d.receiver_ready
        }),
    ensures
        ({
            let sent = desk.sent(transfer, Ok(()), clock);
            let told = desk.heard_result(peer, generation, transfer, None);
            let first = sent.heard_result(peer, generation, transfer, None);
            let second = told.desk.sent(transfer, Ok(()), clock);
            &&& sent.transfers[transfer.0].record.state == TransferState::Verifying
            &&& !sent.transfers[transfer.0].running
            &&& told.error is None
            &&& told.desk.transfers[transfer.0].record.state == TransferState::Receiving
            &&& first.error is None
            &&& first.desk.transfers[transfer.0].record.state == TransferState::Ready
            &&& second.transfers[transfer.0].record.state == TransferState::Ready
            &&& first.desk.transfers[transfer.0].record.bytes
                == desk.transfers[transfer.0].progress
            &&& second.transfers[transfer.0].record.bytes == desk.transfers[transfer.0].progress
        }),
{
}

/// A worker's failure fails its transfer, unless it had been told to stop: then it was
/// cancelled. Either way it no longer runs.
pub proof fn a_failed_worker_fails_its_transfer(d: Delivery, fault: Fault, at: u64)
    requires
        d.record.state is Receiving,
    ensures
        !sent_delivery(d, Err(fault), at).running,
        d.cancelled ==> sent_delivery(d, Err(fault), at).record.state == TransferState::Cancelled,
        !d.cancelled ==> sent_delivery(d, Err(fault), at).record.state == TransferState::Failed
            && sent_delivery(d, Err(fault), at).record.error == Some(fault),
        !received_delivery(d, Err(fault)).running,
        d.cancelled ==> received_delivery(d, Err(fault)).record.state == TransferState::Cancelled,
        !d.cancelled ==> received_delivery(d, Err(fault)).record.state == TransferState::Failed,
        received_delivery(d, Err(fault)).record.error == Some(fault),
        received_delivery(d, Err(fault)).record.bytes == d.progress,
{
}

/// A receive that is over has the record that its worker made, keeps its destination, and its
/// sender is told how it went: without an error where there was none, with it where there was
/// one. No other transfer is touched.
pub proof fn a_receive_that_is_over_is_reported(
    desk: Desk,
    transfer: TransferId,
    outcome: ReceiveOutcome,
    other: u128,
)
    requires
        desk.transfers.contains_key(transfer.0),
    ensures
        ({
            let after = desk.received(transfer, Ok(outcome));
            &&& after.transfers[transfer.0].record == outcome.record
            &&& after.transfers[transfer.0].destination == desk.transfers[transfer.0].destination
            &&& after.transfers[transfer.0].manifest == desk.transfers[transfer.0].manifest
            &&& !after.transfers[transfer.0].running
            &&& outcome.cleanup_failed ==> after.cleanup_failures.contains_key(transfer.0)
            &&& desk.send_error(outcome.record.peer@) is None ==> after.outbox
                == desk.outbox.push(
                Effect::Send {
                    peer: outcome.record.peer,
                    message: FileMessage::Result { transfer, error: outcome.record.error },
                },
            )
            &&& other != transfer.0 ==> after.transfers.contains_key(other)
                == desk.transfers.contains_key(other) && after.transfers[other]
                == desk.transfers[other]
        }),
{
    let d = received_delivery(desk.transfers[transfer.0], Ok(outcome));
    let noted = Desk {
        transfers: desk.transfers.insert(transfer.0, d),
        cleanup_failures: if outcome.cleanup_failed {
            desk.cleanup_failures.insert(transfer.0, ())
        } else {
            desk.cleanup_failures
        },
        ..desk
    };
    assert(noted.send_error(outcome.record.peer@) == desk.send_error(outcome.record.peer@));
}

/// An offer is open until its time and no longer, and what it was to be taken from is then
/// let go of.
pub proof fn an_offer_closes_in_time(offer: RegisteredOffer, now: u64)
    ensures
        ({
            let after = expired_offer(now)(offer);
            &&& offer.record.state is Available && offer.record.expires_unix_ms <= now
                ==> after.record.state == OfferState::Expired && after.source is None
            &&& !(offer.record.state is Available && offer.record.expires_unix_ms <= now)
                ==> after == offer
            &&& after.record.state is Available ==> after.record.expires_unix_ms > now
            &&& after.record.manifest == offer.record.manifest
        }),
{
}

/// A transfer that waits past its deadline fails; one that runs, or is over, or has time left,
/// does not.
pub proof fn a_transfer_does_not_wait_forever(d: Delivery, at: u64)
    ensures
        ({
            let after = overdue_delivery(at)(d);
            let over = d.record.state is Ready || d.record.state is Cancelled
                || d.record.state is Failed;
            &&& !d.running && !over && d.deadline <= at ==> after.record.state
                == TransferState::Failed && after.token is None && after.cancelled
            &&& d.running || over || d.deadline > at ==> after == d
            &&& after.destination == d.destination
        }),
{
}

/// What was agreed with a peer ends once that peer is shut out or its connection is another
/// one, and only then.
pub proof fn what_no_longer_stands_ends(desk: Desk, d: Delivery, offer: RegisteredOffer)
    ensures
        ({
            let stands = desk.authorized(d.record.peer@) == Ok::<u64, FileError>(d.generation)
                && desk.epoch(d.record.peer@) == d.epoch;
            &&& stands ==> lapsed_delivery(desk)(d) == d
            &&& !stands && !d.running && !(d.record.state is Ready) && !(
            d.record.state is Cancelled) ==> lapsed_delivery(desk)(d).record.state
                == TransferState::Failed
            &&& !stands && d.running && !d.record.state.is_terminal() ==> lapsed_delivery(desk)(
                d,
            ).cancelled
        }),
        ({
            let peer = if offer.record.owner@ == desk.id@ {
                offer.record.recipient@
            } else {
                offer.record.owner@
            };
            let stands = desk.authorized(peer) == Ok::<u64, FileError>(offer.generation)
                && desk.epoch(peer) == offer.epoch;
            &&& !stands ==> lapsed_offer(desk)(offer)
            &&& stands && (desk.policy.clipboard_enabled || !(offer.record.origin is Clipboard))
                ==> !lapsed_offer(desk)(offer)
        }),
{
}

/// Nobody may share while sharing is off, here or by policy, nor a peer that was not
/// admitted, nor one that was admitted on a connection that is no longer the current one.
pub proof fn only_admitted_peers_share(desk: Desk, peer: Seq<char>)
    ensures
        !desk.enabled ==> desk.authorized(peer) is Err,
        !desk.policy.enabled ==> desk.authorized(peer) is Err,
        desk.admitted(peer) is None ==> desk.authorized(peer) is Err,
        desk.authorized(peer) matches Ok(generation) ==> {
            &&& desk.admitted(peer) matches Some((on, _)) && on == generation
            &&& desk.connected(peer, generation)
        },
        desk.enabled && desk.policy.enabled && (desk.admitted(peer) matches Some((on, _))
            && desk.connected(peer, on)) ==> desk.authorized(peer) is Ok,
{
}

/// A drop is confirmed to the peer that announced it, and only of its own drag.
pub proof fn a_drop_is_confirmed(
    desk: Desk,
    peer: MachineId,
    generation: u64,
    drag: NativeDragId,
)
    ensures
        ({
            let heard = desk.heard_dropped(peer, generation, drag);
            let own = desk.drags.contains_key(drag.0) && desk.drags[drag.0].peer@ == peer@
                && desk.drags[drag.0].generation == generation;
            &&& !own ==> heard.error is Some && heard.desk == desk
            &&& own ==> heard.desk.drags.contains_key(drag.0) && heard.desk.drags[drag.0].dropped
                && heard.desk.drags[drag.0].manifest == desk.drags[drag.0].manifest
                && heard.desk.drags[drag.0].offer == desk.drags[drag.0].offer
            &&& own && desk.send_error(peer@) is None ==> heard.error is None && heard.desk.outbox
                == desk.outbox.push(
                Effect::Send { peer, message: FileMessage::DropConfirmed { drag } },
            )
        }),
{
    let own = Desk {
        drags: desk.drags.insert(
            drag.0,
            super::desk::Drag { dropped: true, ..desk.drags[drag.0] },
        ),
        ..desk
    };
    assert(own.send_error(peer@) == desk.send_error(peer@));
}

} // verus!
