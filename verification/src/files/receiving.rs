//! What holds of a receive, from the wish for it to its delivery.

use super::commands::{acts, cache_share, cache_shares, receives, Plan};
use super::control::{hears, messaged, Heard};
use super::desk::{Clock, Delivery, Desk, Dice, Effect, Service};
use super::laws::{lemma_listed, lemma_retiring_finite, lemma_synced_transfers};
use super::records::{
    EntryId, FileCommand, FileError, FileMessage, FileOfferId, FileReply, Manifest, NativeDragId,
    ReceiveDestination, Token, TransferDirection, TransferId, TransferState,
};
use crate::id_map::{ids_of, lemma_one_listing};
use crate::machine::MachineId;
use std::sync::Arc;
use vstd::prelude::*;

verus! {

/// Retiring takes transfers away and changes none; offers, drags and connections stay.
proof fn lemma_retiring(desk: Desk, ids: Seq<u128>)
    ensures
        ({
            let after = desk.retiring(ids);
            &&& after.offers == desk.offers
            &&& forall|drag: u128| #[trigger]
                after.drags.contains_key(drag) ==> desk.drags.contains_key(drag)
                    && after.drags[drag] == desk.drags[drag]
            &&& forall|drag: u128| #[trigger]
                desk.drags.contains_key(drag) && desk.drags[drag].transfer is None
                    ==> after.drags.contains_key(drag)
            &&& after.policy == desk.policy
            &&& after.enabled == desk.enabled
            &&& after.wires == desk.wires
            &&& after.id == desk.id
            &&& after.untracked_cache_bytes == desk.untracked_cache_bytes
            &&& forall|id: u128| #[trigger]
                after.transfers.contains_key(id) ==> desk.transfers.contains_key(id)
                    && after.transfers[id] == desk.transfers[id]
        }),
    decreases ids.len(),
{
    if ids.len() > 0 {
        let id = TransferId(ids[0]);
        let rest = ids.skip(1);
        lemma_retiring(desk, rest);
        lemma_retiring(desk.forgetting(id), rest);
        lemma_retiring(desk.clearing_received(id, None), rest);
        let gone = desk.forgetting(id);
        assert forall|drag: u128| #[trigger]
            gone.drags.contains_key(drag) <==> desk.drags.contains_key(drag)
                && desk.drags[drag].transfer != Some(id) by {}
        assert forall|drag: u128| #[trigger]
            gone.retiring(rest).drags.contains_key(drag) implies desk.drags.contains_key(drag)
            && gone.retiring(rest).drags[drag] == desk.drags[drag] by {
            assert(gone.drags.contains_key(drag));
        }
        assert forall|drag: u128| #[trigger]
            desk.drags.contains_key(drag)
                && desk.drags[drag].transfer is None implies gone.retiring(
            rest,
        ).drags.contains_key(drag) by {
            assert(gone.drags.contains_key(drag));
        }
        assert forall|other: u128| #[trigger]
            gone.retiring(rest).transfers.contains_key(
                other,
            ) implies desk.transfers.contains_key(other) && gone.retiring(rest).transfers[other]
            == desk.transfers[other] by {
            assert(gone.transfers.contains_key(other));
        }
    }
}

proof fn lemma_retired(desk: Desk)
    ensures
        ({
            let after = desk.history_retired();
            &&& after.offers == desk.offers
            &&& forall|drag: u128| #[trigger]
                after.drags.contains_key(drag) ==> desk.drags.contains_key(drag)
                    && after.drags[drag] == desk.drags[drag]
            &&& forall|drag: u128| #[trigger]
                desk.drags.contains_key(drag) && desk.drags[drag].transfer is None
                    ==> after.drags.contains_key(drag)
            &&& after.policy == desk.policy
            &&& after.enabled == desk.enabled
            &&& after.wires == desk.wires
            &&& after.untracked_cache_bytes == desk.untracked_cache_bytes
            &&& forall|id: u128| #[trigger]
                after.transfers.contains_key(id) ==> desk.transfers.contains_key(id)
                    && after.transfers[id] == desk.transfers[id]
        }),
{
    lemma_retiring(desk, desk.to_retire());
}

/// A receive that begins is the one that was asked for: it goes to the very destination that
/// was chosen, takes the offer from the machine that owns it, and waits for its grant with
/// nothing received yet. That machine is sent one commit that names this transfer, the offer
/// and what is taken of it. Every other transfer that is still kept is as it was.
pub proof fn a_receive_goes_where_it_was_asked_to(
    desk: Desk,
    offer: FileOfferId,
    destination: ReceiveDestination,
    drag: Option<NativeDragId>,
    roots: Arc<Vec<EntryId>>,
    clock: Clock,
    dice: Dice,
    after: Desk,
    id: TransferId,
)
    requires
        receives(
            desk,
            offer,
            destination,
            drag,
            roots,
            clock,
            dice,
            after,
            Ok(FileReply::Receiving(id)),
        ),
    ensures
        after.transfers.contains_key(id.0),
        ({
            let d = after.transfers[id.0];
            &&& d.destination == Some(destination)
            &&& d.record.id == id
            &&& d.record.offer == offer
            &&& d.record.direction == TransferDirection::Receive
            &&& d.record.state == TransferState::Committed
            &&& d.record.bytes == 0
            &&& d.progress == 0
            &&& d.record.total_bytes == d.manifest.total_bytes
            &&& d.record.paths is None
            &&& d.record.error is None
            &&& !d.cancelled
            &&& !d.running
            &&& d.token is None
            &&& drag is None ==> d.record.peer == desk.offers[offer.0].record.owner
            &&& drag is None ==> d.generation == desk.offers[offer.0].generation
            &&& drag matches Some(drag) ==> d.record.peer == desk.drags[drag.0].peer
                && Some(d.manifest) == desk.drags[drag.0].manifest && (
            desk.drags[drag.0].transfer is None ==> after.drags[drag.0].transfer == Some(id))
            &&& after.outbox.last() matches Effect::Send {
                peer,
                message: FileMessage::Commit { offer: named, generation, transfer, roots: taken, drag: of },
            } && peer == d.record.peer && named == offer && generation == d.manifest.generation
                && transfer == id && of == drag && (drag is None ==> taken == roots)
        }),
        forall|other: u128| #[trigger]
            after.transfers.contains_key(other) && other != id.0 ==> desk.transfers.contains_key(
                other,
            ) && after.transfers[other] == desk.transfers[other],
{
    let result = Ok::<FileReply, FileError>(FileReply::Receiving(id));
    let plan = choose|plan: Plan| #[trigger]
        desk.is_plan(offer, drag, roots, plan) && (after, result) == desk.receiving(
            offer,
            destination,
            drag,
            plan,
            clock,
            dice,
        );
    lemma_retired(desk);
}

/// A receive begins wherever nothing stands against it: the offer is open to this machine and
/// the choice is one of it, its owner may share and can be told, there is room for one more
/// transfer, and what goes to the cache fits there.
pub proof fn a_receive_begins_where_it_may(
    desk: Desk,
    offer: FileOfferId,
    destination: ReceiveDestination,
    roots: Arc<Vec<EntryId>>,
    clock: Clock,
    dice: Dice,
    after: Desk,
    result: Result<FileReply, FileError>,
)
    requires
        receives(desk, offer, destination, None, roots, clock, dice, after, result),
        desk.plan_error(offer, None, roots@, clock) is None,
        desk.authorized(desk.offers[offer.0].record.owner@) == Ok::<u64, FileError>(
            desk.offers[offer.0].generation,
        ),
        desk.history_retired().capacity_error(desk.offers[offer.0].record.owner@) is None,
        desk.history_retired().send_error(desk.offers[offer.0].record.owner@) is None,
        destination is Directory || (forall|manifest: Arc<Manifest>| #[trigger]
            super::selection::is_selected(
                *desk.offers[offer.0].record.manifest,
                roots@,
                *manifest,
            ) ==> desk.history_retired().cache_bytes() + manifest.total_bytes <= 0x10_0000_0000),
        dice.id is Ok,
    ensures
        result == Ok::<FileReply, FileError>(FileReply::Receiving(TransferId(dice.id->Ok_0))),
{
}

/// What is refused begins nothing: no transfer is added or changed.
pub proof fn a_refused_receive_begins_nothing(
    desk: Desk,
    offer: FileOfferId,
    destination: ReceiveDestination,
    drag: Option<NativeDragId>,
    roots: Arc<Vec<EntryId>>,
    clock: Clock,
    dice: Dice,
    after: Desk,
    error: FileError,
)
    requires
        receives(desk, offer, destination, drag, roots, clock, dice, after, Err(error)),
    ensures
        after.offers == desk.offers,
        forall|drag: u128| #[trigger]
            after.drags.contains_key(drag) ==> desk.drags.contains_key(drag) && after.drags[drag]
                == desk.drags[drag],
        forall|id: u128| #[trigger]
            after.transfers.contains_key(id) ==> desk.transfers.contains_key(id)
                && after.transfers[id] == desk.transfers[id],
{
    lemma_retired(desk);
}

/// A command leads where it says: what is received of an offer or of a drag goes to the
/// destination that was given, and a retry to the destination of the transfer it repeats,
/// for the same offer.
pub proof fn a_command_keeps_its_destination(
    desk: Desk,
    command: FileCommand,
    clock: Clock,
    dice: Dice,
    after: Desk,
    id: TransferId,
)
    requires
        acts(desk, command, clock, dice, after, Ok(FileReply::Receiving(id))),
    ensures
        match command {
            FileCommand::Receive { offer, destination } => {
                &&& after.transfers.contains_key(id.0)
                &&& after.transfers[id.0].destination == Some(destination)
                &&& after.transfers[id.0].record.offer == offer
                &&& after.transfers[id.0].record.direction is Receive
            },
            FileCommand::Retry { transfer } => {
                &&& desk.transfers.contains_key(transfer.0)
                &&& after.transfers.contains_key(id.0)
                &&& after.transfers[id.0].destination is Some
                &&& after.transfers[id.0].destination == desk.transfers[transfer.0].destination
                &&& after.transfers[id.0].record.offer == desk.transfers[transfer.0].record.offer
                &&& after.transfers[id.0].record.direction is Receive
            },
            FileCommand::CommitDrag { drag, destination } => desk.drags[drag.0].transfer is None
                ==> {
                &&& after.transfers.contains_key(id.0)
                &&& after.transfers[id.0].destination == Some(destination)
                &&& after.transfers[id.0].record.offer == desk.drags[drag.0].offer
                &&& after.drags[drag.0].transfer == Some(id)
            },
            _ => false,
        },
{
    let result = Ok::<FileReply, FileError>(FileReply::Receiving(id));
    match command {
        FileCommand::Receive { offer, destination } => {
            let roots = choose|roots: Arc<Vec<EntryId>>|
                roots@.len() == 0 && #[trigger] receives(
                    desk,
                    offer,
                    destination,
                    None,
                    roots,
                    clock,
                    dice,
                    after,
                    result,
                );
            a_receive_goes_where_it_was_asked_to(
                desk,
                offer,
                destination,
                None,
                roots,
                clock,
                dice,
                after,
                id,
            );
        },
        FileCommand::Retry { transfer } => {
            let d = desk.transfers[transfer.0];
            let roots = choose|roots: Arc<Vec<EntryId>>|
                roots@ == super::selection::top(d.manifest.entries@) && #[trigger] receives(
                    desk,
                    d.record.offer,
                    d.destination->0,
                    None,
                    roots,
                    clock,
                    dice,
                    after,
                    result,
                );
            a_receive_goes_where_it_was_asked_to(
                desk,
                d.record.offer,
                d.destination->0,
                None,
                roots,
                clock,
                dice,
                after,
                id,
            );
        },
        FileCommand::CommitDrag { drag, destination } => {
            let d = desk.drags[drag.0];
            if d.transfer is None {
                let roots = choose|roots: Arc<Vec<EntryId>>|
                    roots@.len() == 0 && #[trigger] receives(
                        desk,
                        d.offer,
                        destination,
                        Some(drag),
                        roots,
                        clock,
                        dice,
                        after,
                        result,
                    );
                a_receive_goes_where_it_was_asked_to(
                    desk,
                    d.offer,
                    destination,
                    Some(drag),
                    roots,
                    clock,
                    dice,
                    after,
                    id,
                );
            }
        },
        _ => {},
    }
}

/// A grant starts the receive that was asked for: the transfer goes on to the destination
/// that it began with, its worker is started once, with the token granted, and no other
/// transfer is touched. It starts only what this machine committed to with this very peer and
/// connection and what neither runs nor is overdue.
pub proof fn a_grant_starts_what_was_asked_for(
    desk: Desk,
    peer: MachineId,
    generation: u64,
    transfer: TransferId,
    token: Token,
    clock: Clock,
    dice: Dice,
    heard: Heard,
)
    requires
        messaged(
            desk,
            peer,
            generation,
            FileMessage::Grant { transfer, token },
            clock,
            dice,
            heard,
        ),
        heard.error is None,
    ensures
        desk.transfers.contains_key(transfer.0),
        heard.desk.transfers.contains_key(transfer.0),
        ({
            let before = desk.transfers[transfer.0];
            let after = heard.desk.transfers[transfer.0];
            &&& before.destination is Some
            &&& before.record.direction is Receive
            &&& before.record.state is Committed
            &&& before.record.peer@ == peer@
            &&& before.generation == generation
            &&& !before.running
            &&& clock.at < before.deadline
            &&& after.destination == before.destination
            &&& after.manifest == before.manifest
            &&& after.record.id == before.record.id
            &&& after.record.offer == before.record.offer
            &&& after.record.peer == before.record.peer
            &&& after.record.total_bytes == before.record.total_bytes
            &&& after.record.state == TransferState::Receiving
            &&& after.running
            &&& after.cancelled == before.cancelled
        }),
        heard.desk.outbox.last() matches Effect::Receive { transfer: started, token: with, ip: _ }
            && started == transfer && with == token,
        forall|other: u128|
            other != transfer.0 ==> #[trigger] heard.desk.transfers.contains_key(other)
                == desk.transfers.contains_key(other) && heard.desk.transfers[other]
                == desk.transfers[other],
{
    lemma_synced_transfers(desk);
}

/// A commit that is granted hands out what was offered: the transfer sends from the offer's
/// selection, or the drag's, to the peer that committed, and that peer is sent one grant with
/// the token that the transfer then waits for. It begins only for a peer that the offer is
/// for.
pub proof fn a_grant_hands_out_what_was_offered(
    desk: Desk,
    peer: MachineId,
    generation: u64,
    offer: FileOfferId,
    version: u128,
    transfer: TransferId,
    roots: Arc<Vec<EntryId>>,
    clock: Clock,
    dice: Dice,
    heard: Heard,
)
    requires
        hears(
            desk,
            peer,
            generation,
            FileMessage::Commit { offer, generation: version, transfer, roots, drag: None },
            clock,
            dice,
            heard,
        ),
        heard.error is None,
    ensures
        !desk.transfers.contains_key(transfer.0),
        desk.offers.contains_key(offer.0),
        desk.offers[offer.0].record.recipient@ == peer@,
        desk.offers[offer.0].record.owner@ == desk.id@,
        desk.offers[offer.0].record.state is Available,
        desk.offers[offer.0].record.expires_unix_ms > clock.unix_ms,
        desk.offers[offer.0].record.manifest.generation == version,
        heard.desk.transfers.contains_key(transfer.0),
        ({
            let d = heard.desk.transfers[transfer.0];
            &&& d.record.direction == TransferDirection::Send
            &&& d.record.state == TransferState::Committed
            &&& d.record.peer == peer
            &&& d.record.offer == offer
            &&& d.generation == generation
            &&& d.source is Some
            &&& d.source == desk.offers[offer.0].source
            &&& d.token is Some
            &&& !d.running
            &&& !d.cancelled
            &&& super::selection::is_selected(
                *desk.offers[offer.0].record.manifest,
                roots@,
                *d.manifest,
            )
            &&& heard.desk.outbox.last() == (Effect::Send {
                peer,
                message: FileMessage::Grant { transfer, token: d.token->0 },
            })
        }),
        forall|other: u128| #[trigger]
            heard.desk.transfers.contains_key(other) && other != transfer.0
                ==> desk.transfers.contains_key(other) && heard.desk.transfers[other]
                == desk.transfers[other],
{
    lemma_retired(desk);
    lemma_retiring(desk, desk.to_retire());
}

/// The sum of what is counted for the identities.
pub open spec fn summed(ids: Seq<u128>, weight: spec_fn(u128) -> int) -> int
    decreases ids.len(),
{
    if ids.len() == 0 {
        0
    } else {
        summed(ids.drop_last(), weight) + weight(ids.last())
    }
}

proof fn lemma_summed_without(ids: Seq<u128>, weight: spec_fn(u128) -> int, at: int)
    requires
        0 <= at < ids.len(),
    ensures
        summed(ids, weight) == summed(ids.remove(at), weight) + weight(ids[at]),
    decreases ids.len(),
{
    if at == ids.len() - 1 {
        assert(ids.remove(at) =~= ids.drop_last());
    } else {
        lemma_summed_without(ids.drop_last(), weight, at);
        assert(ids.remove(at).drop_last() =~= ids.drop_last().remove(at));
        assert(ids.remove(at).last() == ids.last());
    }
}

proof fn lemma_summed_below(
    ids: Seq<u128>,
    weight: spec_fn(u128) -> int,
    bound: spec_fn(u128) -> int,
)
    requires
        forall|i: int| 0 <= i < ids.len() ==> weight(#[trigger] ids[i]) <= bound(ids[i]),
    ensures
        summed(ids, weight) <= summed(ids, bound),
    decreases ids.len(),
{
    if ids.len() > 0 {
        let front = ids.drop_last();
        assert forall|i: int| 0 <= i < front.len() implies weight(#[trigger] front[i]) <= bound(
            front[i],
        ) by {
            assert(front[i] == ids[i]);
        }
        lemma_summed_below(front, weight, bound);
        assert(weight(ids[ids.len() - 1]) <= bound(ids[ids.len() - 1]));
    }
}

proof fn lemma_shares_summed(
    ids: Seq<u128>,
    transfers: Map<u128, Delivery>,
    failures: Map<u128, ()>,
)
    ensures
        cache_shares(ids, transfers, failures) == summed(
            ids,
            |id: u128| cache_share(transfers[id], failures),
        ),
    decreases ids.len(),
{
    if ids.len() > 0 {
        lemma_shares_summed(ids.drop_last(), transfers, failures);
    }
}

/// Bytes that a transfer holds in the cache, or will hold once it is done: all of them where
/// the cache is its destination and it neither failed nor was cancelled.
pub open spec fn cached(d: Delivery) -> int {
    if d.destination == Some(ReceiveDestination::Cache) && !(d.record.state is Failed)
        && !(d.record.state is Cancelled) {
        d.record.total_bytes as int
    } else {
        0
    }
}

/// The cache is not overbooked: once a receive into it begins, all that it holds, counting
/// every transfer whose destination it is and what could not be accounted for, is within its
/// quota of 64 gigabytes.
pub proof fn the_cache_is_not_overbooked(
    service: Service,
    offer: FileOfferId,
    drag: Option<NativeDragId>,
    roots: Arc<Vec<EntryId>>,
    clock: Clock,
    dice: Dice,
    after: Desk,
    id: TransferId,
)
    requires
        service.wf(),
        receives(
            service@,
            offer,
            ReceiveDestination::Cache,
            drag,
            roots,
            clock,
            dice,
            after,
            Ok(FileReply::Receiving(id)),
        ),
    ensures
        after.untracked_cache_bytes + summed(
            ids_of(after.transfers),
            |key: u128| cached(after.transfers[key]),
        ) <= 64 * 1024 * 1024 * 1024,
{
    let desk = service@;
    service.transfers.lemma_listing();
    let ready = desk.history_retired();
    lemma_retired(desk);
    lemma_retiring_finite(desk, desk.to_retire());
    let result = Ok::<FileReply, FileError>(FileReply::Receiving(id));
    let plan = choose|plan: Plan| #[trigger]
        desk.is_plan(offer, drag, roots, plan) && (after, result) == desk.receiving(
            offer,
            ReceiveDestination::Cache,
            drag,
            plan,
            clock,
            dice,
        );
    let d = after.transfers[id.0];
    assert(after.transfers == ready.transfers.insert(id.0, d));
    let _ = lemma_listed(ready.transfers);
    let _ = lemma_listed(after.transfers);
    let old_ids = ids_of(ready.transfers);
    let ids = ids_of(after.transfers);
    let weight = |key: u128| cached(after.transfers[key]);
    let bound = |key: u128| cache_share(ready.transfers[key], ready.cleanup_failures);
    lemma_shares_summed(old_ids, ready.transfers, ready.cleanup_failures);
    assert(after.transfers.contains_key(id.0));
    assert(ids.contains(id.0));
    let at = choose|at: int| 0 <= at < ids.len() && ids[at] == id.0;
    let rest = ids.remove(at);
    lemma_summed_without(ids, weight, at);
    assert forall|i: int| 0 <= i < rest.len() implies weight(#[trigger] rest[i]) <= bound(
        rest[i],
    ) by {
        let k = if i < at {
            i
        } else {
            i + 1
        };
        assert(rest[i] == ids[k]);
        if k < at {
            assert(ids[k] < ids[at]);
        } else {
            assert(ids[at] < ids[k]);
        }
        assert(after.transfers[ids[k]] == ready.transfers[ids[k]]);
    }
    lemma_summed_below(rest, weight, bound);
    if ready.transfers.contains_key(id.0) {
        assert forall|key: u128| #[trigger] ids.contains(key) == old_ids.contains(key) by {
            assert(ids.contains(key) == after.transfers.contains_key(key));
        }
        lemma_one_listing(ids, old_ids);
        lemma_summed_without(old_ids, bound, at);
    } else {
        assert(crate::id_map::ascending(rest)) by {
            assert forall|i: int, j: int| 0 <= i < j < rest.len() implies (#[trigger] rest[i]) < (
            #[trigger] rest[j]) by {
                let p = if i < at {
                    i
                } else {
                    i + 1
                };
                let q = if j < at {
                    j
                } else {
                    j + 1
                };
                assert(ids[p] < ids[q]);
            }
        }
        assert forall|key: u128| #[trigger] rest.contains(key) == old_ids.contains(key) by {
            assert(ids.contains(key) == after.transfers.contains_key(key));
            assert(old_ids.contains(key) == ready.transfers.contains_key(key));
            if rest.contains(key) {
                let i = choose|i: int| 0 <= i < rest.len() && rest[i] == key;
                let k = if i < at {
                    i
                } else {
                    i + 1
                };
                assert(ids[k] == key);
                assert(ids.contains(key));
                if k < at {
                    assert(ids[k] < ids[at]);
                } else {
                    assert(ids[at] < ids[k]);
                }
            }
            if old_ids.contains(key) {
                assert(ids.contains(key));
                let k = choose|k: int| 0 <= k < ids.len() && ids[k] == key;
                let i = if k < at {
                    k
                } else {
                    k - 1
                };
                assert(rest[i] == key);
            }
        }
        lemma_one_listing(rest, old_ids);
    }
}

} // verus!
