//! What comes of the wishes of those who share files here.

use super::claims::{remaining, Found};
use super::desk::{Clock, Desk, Dice, Effect};
use super::places::PlaceView;
use super::receipts::{ReceiptView, RootView};
use super::records::{
    EntryId, Fault, FileCommand, FileError, FileMessage, FileOfferId, FileReply, LocalSelection,
    Manifest, NativeDragId, OfferOrigin, TransferId, TransferState,
};
use super::requests::{concluded, leases, retain_error, routed, routes};
use super::completion::ClearFailure;
use crate::id_map::ids_of;
use crate::machine::MachineId;
use std::sync::Arc;
use vstd::prelude::*;

verus! {

/// A selection that may be offered is walked for the machine that it is meant for, under a new
/// number and on the connection that this machine may share on now; one that may not is
/// refused, and nothing is walked.
pub proof fn a_selection_is_walked_for_its_recipient(
    desk: Desk,
    selection: Arc<LocalSelection>,
    recipient: MachineId,
    origin: OfferOrigin,
    waiter: Option<u64>,
)
    requires
        desk.enumeration_id < u64::MAX,
    ensures
        ({
            let after = desk.offering(selection, recipient, origin, waiter);
            let id = (desk.enumeration_id + 1) as u64;
            &&& desk.offer_refusal(*selection, recipient@, origin) is None ==> {
                &&& after.outbox == desk.outbox.push(Effect::Enumerate { id, selection })
                &&& after.enumerations.contains_key(id as u128)
                &&& after.enumerations[id as u128].recipient == recipient
                &&& after.enumerations[id as u128].origin == origin
                &&& after.enumerations[id as u128].waiter == waiter
                &&& !after.enumerations[id as u128].cancelled
                &&& desk.authorized(recipient@) == Ok::<u64, FileError>(
                    after.enumerations[id as u128].generation,
                )
                &&& after.enumeration_id == id
            }
            &&& desk.offer_refusal(*selection, recipient@, origin) is Some ==> {
                &&& after.enumerations == desk.enumerations
                &&& waiter matches Some(waiter) ==> (after.outbox.last() matches Effect::Reply {
                    waiter: told,
                    result: Err(_),
                } && told == waiter)
                &&& waiter is None ==> after.outbox == desk.outbox
            }
            &&& selection.fault() is Some || desk.authorized(recipient@) is Err
                ==> desk.offer_refusal(*selection, recipient@, origin) is Some
        }),
{
}

proof fn lemma_routed(
    desk: Desk,
    ids: Seq<u128>,
    recipient: Seq<char>,
    generation: u64,
    clock: Clock,
    i: int,
)
    ensures
        routed(desk, ids, recipient, generation, clock) matches Some(id) ==> ids.contains(id.0)
            && routes(desk.id@, recipient, generation)(desk.offers[id.0]) && desk.offer_error(
            id,
            clock,
        ) is None,
        routed(desk, ids, recipient, generation, clock) is None && 0 <= i < ids.len() ==> !(routes(
            desk.id@,
            recipient,
            generation,
        )(desk.offers[ids[i]]) && desk.offer_error(FileOfferId(ids[i]), clock) is None),
    decreases ids.len(),
{
    if ids.len() > 0 {
        let front = ids.drop_last();
        lemma_routed(desk, front, recipient, generation, clock, i);
        assert(ids[ids.len() - 1] == ids.last());
        if let Some(id) = routed(desk, front, recipient, generation, clock) {
            let k = choose|k: int| 0 <= k < front.len() && front[k] == id.0;
            assert(ids[k] == id.0);
        }
    }
}

/// The clipboard's files are offered to a machine once: where an offer of just these files to
/// that machine is still open, it is named again; otherwise the clipboard's own selection is
/// walked for it. Files that are no longer on the clipboard are refused.
pub proof fn a_clipboard_is_offered_once(
    desk: Desk,
    recipient: MachineId,
    generation: u64,
    waiter: u64,
    clock: Clock,
    i: int,
)
    ensures
        ({
            let after = desk.routing(recipient, generation, Some(waiter), clock);
            let there = desk.clipboard_generation == Some(generation)
                && desk.clipboard_selection is Some;
            let ids = ids_of(desk.offers);
            &&& !there ==> after.enumerations == desk.enumerations && (
            after.outbox.last() matches Effect::Reply { waiter: told, result: Err(_) } && told
                == waiter)
            &&& there && 0 <= i < ids.len() && desk.offers[ids[i]].record.owner@ == desk.id@
                && desk.offers[ids[i]].record.recipient@ == recipient@
                && desk.offers[ids[i]].record.origin == (OfferOrigin::Clipboard { generation })
                && desk.offer_error(FileOfferId(ids[i]), clock) is None ==> after.enumerations
                == desk.enumerations && (after.outbox.last() matches Effect::Reply {
                waiter: told,
                result: Ok(FileReply::Offered(id)),
            } && told == waiter && desk.offers[id.0].record.recipient@ == recipient@
                && desk.offers[id.0].record.origin == (OfferOrigin::Clipboard { generation }))
            &&& there && routed(desk, ids, recipient@, generation, clock) is None ==> after
                == desk.offering(
                desk.clipboard_selection->0,
                recipient,
                OfferOrigin::Clipboard { generation },
                Some(waiter),
            )
        }),
{
    let ids = ids_of(desk.offers);
    lemma_routed(desk, ids, recipient@, generation, clock, i);
}

/// Received files are cleared exactly where their transfer is over, does not run, is not
/// retained by anyone and is not being cleared already; otherwise whoever asks is refused and
/// nothing is cleared.
pub proof fn received_files_are_cleared_where_they_may(desk: Desk, id: TransferId, waiter: u64)
    requires
        desk.clearing.len() < super::desk::MAX_CLEARING,
    ensures
        ({
            let after = desk.clearing_received(id, Some(waiter));
            let may = desk.transfers.contains_key(id.0) && desk.transfers[id.0].record.direction
                is Receive && (desk.transfers[id.0].record.state is Ready
                || desk.transfers[id.0].record.state is Failed
                || desk.transfers[id.0].record.state is Cancelled) && !desk.transfers[id.0].running
                && !desk.clearing.contains_key(id.0) && leases(desk, id) == 0;
            &&& may ==> after.outbox == desk.outbox.push(Effect::Clear { transfer: id })
                && after.clearing.contains_key(id.0) && after.clearing[id.0] == Some(waiter)
            &&& !may ==> after.clearing == desk.clearing && (
            after.outbox.last() matches Effect::Reply { waiter: told, result: Err(_) } && told
                == waiter)
            &&& after.transfers == desk.transfers
        }),
{
}

/// Once files were cleared, their transfer is forgotten and who asked is told; where they
/// could not be, it is kept, with what went wrong, and counts as not cleaned up.
pub proof fn a_cleared_transfer_is_forgotten(
    desk: Desk,
    id: TransferId,
    failure: ClearFailure,
    waiter: u64,
    other: u128,
)
    requires
        desk.clearing.contains_key(id.0),
        desk.clearing[id.0] == Some(waiter),
        desk.transfers.contains_key(id.0),
    ensures
        ({
            let after = desk.cleared(id, Ok(()));
            &&& !after.transfers.contains_key(id.0)
            &&& !after.clearing.contains_key(id.0)
            &&& after.outbox.last() == (Effect::Reply { waiter, result: Ok(FileReply::Done) })
            &&& other != id.0 ==> after.transfers.contains_key(other)
                == desk.transfers.contains_key(other) && after.transfers[other]
                == desk.transfers[other]
        }),
        ({
            let after = desk.cleared(id, Err(failure));
            &&& after.transfers.contains_key(id.0)
            &&& after.transfers[id.0].record.error == Some(failure.fault)
            &&& after.transfers[id.0].destination == desk.transfers[id.0].destination
            &&& after.cleanup_failures.contains_key(id.0)
            &&& !after.clearing.contains_key(id.0)
            &&& after.outbox.last() == (Effect::Reply { waiter, result: Err(failure.fault) })
        }),
{
}

/// Received files can be retained exactly where their transfer is ready, does not run and is
/// not being cleared.
pub proof fn ready_files_can_be_retained(desk: Desk, id: TransferId)
    ensures
        retain_error(desk, id) is None <==> desk.transfers.contains_key(id.0)
            && desk.transfers[id.0].record.direction is Receive
            && desk.transfers[id.0].record.state is Ready && !desk.transfers[id.0].running
            && !desk.clearing.contains_key(id.0),
{
}

/// Whoever asks is told what came of it, at once; only a drop that was announced is answered
/// once it is confirmed, or five seconds have passed.
pub proof fn whoever_asks_is_answered(
    after: Desk,
    command: FileCommand,
    result: Result<FileReply, FileError>,
    waiter: u64,
    clock: Clock,
    dice: Dice,
)
    requires
        clock.at <= u64::MAX - 5_000,
    ensures
        ({
            let told = concluded(after, command, result, Some(waiter), clock, dice);
            &&& !(command is DropDrag && result is Ok) ==> told.outbox.len() == after.outbox.len()
                + 1 && (told.outbox.last() matches Effect::Reply { waiter: who, result: said }
                && who == waiter && (result matches Ok(reply) ==> said == Ok::<FileReply, Fault>(
                reply,
            )) && (result is Err ==> said is Err))
            &&& result is Ok ==> (command matches FileCommand::DropDrag { drag } ==> told.outbox
                == after.outbox && told.drop_replies.contains_key(drag.0)
                && told.drop_replies[drag.0].waiter == waiter
                && told.drop_replies[drag.0].deadline == clock.at + 5_000)
            &&& told.transfers == after.transfers
            &&& told.offers == after.offers
        }),
{
}

/// A drag that is prepared is told to the machine whose files are dragged, with what is
/// dragged of which offer; it is kept until it is dropped or its time is up.
pub proof fn a_drag_is_prepared_with_its_owner(
    desk: Desk,
    offer: FileOfferId,
    entries: Arc<Vec<EntryId>>,
    manifest: Arc<Manifest>,
    clock: Clock,
    dice: Dice,
)
    requires
        clock.unix_ms <= u64::MAX - 600_000,
        desk.preparing(offer, entries, manifest, clock, dice).1 is Ok,
    ensures
        ({
            let (after, result) = desk.preparing(offer, entries, manifest, clock, dice);
            let owner = desk.offers[offer.0].record.owner;
            &&& result matches Ok(FileReply::DragPrepared(drag)) && after.drags.contains_key(drag.0)
                && after.drags[drag.0].offer == offer && after.drags[drag.0].peer == owner
                && after.drags[drag.0].roots == entries && after.drags[drag.0].manifest == Some(
                manifest,
            ) && !after.drags[drag.0].dropped && after.drags[drag.0].transfer is None
                && after.drags[drag.0].expires == clock.unix_ms + 600_000 && after.outbox.last()
                == (Effect::Send {
                peer: owner,
                message: FileMessage::Prepare {
                    offer,
                    generation: manifest.generation,
                    drag,
                    roots: entries,
                },
            })
        }),
{
}

/// A drop is announced to the machine whose files were dragged.
pub proof fn a_drop_is_announced(desk: Desk, drag: NativeDragId, clock: Clock)
    requires
        desk.drop_error(drag, clock) is None,
    ensures
        desk.drags.contains_key(drag.0),
        desk.drags[drag.0].expires > clock.unix_ms,
        desk.dropping(drag).drags[drag.0].dropped,
        desk.dropping(drag).drags[drag.0].manifest == desk.drags[drag.0].manifest,
        desk.dropping(drag).drags[drag.0].transfer == desk.drags[drag.0].transfer,
        desk.dropping(drag).outbox == desk.outbox.push(
            Effect::Send {
                peer: desk.drags[drag.0].peer,
                message: FileMessage::Dropped { drag },
            },
        ),
{
}

proof fn lemma_all_remain(directory: PlaceView, roots: Seq<RootView>, seen: Seq<Found>, n: nat)
    requires
        n <= roots.len(),
        n <= seen.len(),
    ensures
        remaining(directory, roots, seen, n).len() <= n,
        (forall|i: int| 0 <= i < n ==> (#[trigger] seen[i]) is Same) <==> remaining(
            directory,
            roots,
            seen,
            n,
        ).len() == n,
    decreases n,
{
    if n > 0 {
        lemma_all_remain(directory, roots, seen, (n - 1) as nat);
        if forall|i: int| 0 <= i < n ==> (#[trigger] seen[i]) is Same {
            assert(seen[n - 1] is Same);
        }
        if remaining(directory, roots, seen, n).len() == n {
            assert(seen[n - 1] is Same);
            assert forall|i: int| 0 <= i < n implies (#[trigger] seen[i]) is Same by {
                if i < n - 1 {
                    assert(remaining(directory, roots, seen, (n - 1) as nat).len() == n - 1);
                }
            }
        }
    }
}

/// A receive that a stop interrupted is ready exactly where every file of it turns out to be
/// in place, the same as it was put there, and nothing about them was left undone; otherwise
/// it has failed.
pub proof fn an_interrupted_receive_is_ready_only_whole(
    receipt: ReceiptView,
    seen: Seq<Found>,
    unfinished: Option<Seq<char>>,
)
    requires
        seen.len() == receipt.roots.len(),
    ensures
        ({
            let after = receipt.recovered(seen, unfinished);
            let whole = receipt.roots.len() > 0 && unfinished is None && (forall|i: int|
                0 <= i < seen.len() ==> (#[trigger] seen[i]) is Same);
            &&& whole ==> after.state == TransferState::Ready && after.bytes == receipt.total_bytes
                && after.error is None && after.paths.len() == receipt.roots.len()
            &&& !whole ==> after.state == TransferState::Failed && after.error is Some
            &&& after.directory == receipt.directory
            &&& after.roots == receipt.roots
        }),
{
    lemma_all_remain(receipt.directory, receipt.roots, seen, receipt.roots.len());
}

} // verus!
