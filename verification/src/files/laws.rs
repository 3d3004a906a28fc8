//! What holds of file sharing as a whole.

use super::commands::{receives, Plan};
use super::control::{bulk_error, messaged, Heard};
use super::desk::{
    cancelled_delivery, failed_delivery, Clock, Delivery, Desk, Dice, Drag, Enumeration, Service,
    MAX_ACTIVE, MAX_PEER_ACTIVE, MAX_RECORDS,
};
use super::enforcement::{lapsed_delivery, lapsed_offer};
use super::records::{
    EntryId, Fault, FileError, FileMessage, FileOfferId, FileReply, Manifest, NativeDragId,
    ReceiveDestination, Token, TransferDirection, TransferId,
};
use super::snapshot::moved;
use super::upkeep::{is_active, is_active_with};
use crate::id_map::{count_of, ids_of, kept, lemma_one_listing, lemma_picked, lists, mapped, picked};
use crate::machine::MachineId;
use std::sync::Arc;
use vstd::prelude::*;

verus! {

/// A transfer that was told to stop opens no bulk connection, nor does one whose time is
/// up or that is not committed.
pub proof fn only_live_commits_open_connections(
    d: Delivery,
    fault: Fault,
    peer: Seq<char>,
    generation: u64,
    token: Token,
    at: u64,
)
    ensures
        bulk_error(cancelled_delivery(d, fault), peer, generation, token, at) is Some,
        bulk_error(failed_delivery(d, fault), peer, generation, token, at) is Some,
        d.deadline <= at ==> bulk_error(d, peer, generation, token, at) is Some,
        !(d.record.state is Committed) ==> bulk_error(d, peer, generation, token, at) is Some,
{
}

/// A transfer that is over stays as it is, whatever stops it.
pub proof fn an_end_is_final(d: Delivery, fault: Fault)
    requires
        d.record.state.is_terminal(),
    ensures
        cancelled_delivery(d, fault) == d,
        failed_delivery(d, fault) == d,
{
}

/// A peer that may not share, or speaks on another connection, brings nothing about.
pub proof fn an_unauthorized_peer_brings_nothing_about(
    desk: Desk,
    peer: MachineId,
    generation: u64,
    message: FileMessage,
    clock: Clock,
    dice: Dice,
    heard: Heard,
)
    requires
        messaged(desk, peer, generation, message, clock, dice, heard),
        desk.synced().authorized(peer@) != Ok::<u64, FileError>(generation),
    ensures
        heard.desk == desk.synced(),
        heard.error is Some,
{
}

/// What was used once is refused when it comes again: an offer, a drag, a commit.
pub proof fn nothing_is_replayed(
    desk: Desk,
    peer: MachineId,
    generation: u64,
    message: FileMessage,
    clock: Clock,
    dice: Dice,
    heard: Heard,
)
    requires
        messaged(desk, peer, generation, message, clock, dice, heard),
        match message {
            FileMessage::Offer(offer) => desk.synced().offers.contains_key(offer.id.0),
            FileMessage::Prepare { drag, .. } => desk.synced().drags_retired().drags.contains_key(
                drag.0,
            ),
            FileMessage::Commit { transfer, .. } => desk.synced().transfers.contains_key(
                transfer.0,
            ),
            _ => false,
        },
    ensures
        heard.error is Some,
{
}

/// Nothing of a transfer is active.
pub open spec fn at_rest(d: Delivery) -> bool {
    d.record.state.is_terminal() || d.cancelled && d.running
}

proof fn lemma_revoking(desk: Desk, offers: Seq<u128>)
    ensures
        ({
            let after = desk.revoking_all(offers);
            &&& after.enumerations == desk.enumerations
            &&& after.enabled == desk.enabled
            &&& after.policy == desk.policy
            &&& forall|id: u128| #[trigger]
                after.offers.contains_key(id) == desk.offers.contains_key(id)
            &&& forall|id: u128| #[trigger]
                after.offers.contains_key(id) && offers.contains(id)
                    ==> after.offers[id].record.state is Revoked
            &&& forall|id: u128| #[trigger]
                after.transfers.contains_key(id) == desk.transfers.contains_key(id)
            &&& forall|id: u128| #[trigger]
                after.transfers.contains_key(id) && at_rest(desk.transfers[id]) ==> at_rest(
                    after.transfers[id],
                )
        }),
    decreases offers.len(),
{
    if offers.len() > 0 {
        let front = offers.drop_last();
        lemma_revoking(desk, front);
        let mid = desk.revoking_all(front);
        let after = desk.revoking_all(offers);
        assert forall|id: u128| #[trigger]
            after.offers.contains_key(id) && offers.contains(
                id,
            ) implies after.offers[id].record.state is Revoked by {
            if id != offers.last() {
                let i = choose|i: int| 0 <= i < offers.len() && offers[i] == id;
                assert(front[i] == id);
                assert(front.contains(id));
                assert(mid.offers.contains_key(id));
            }
        }
        assert forall|id: u128| #[trigger]
            after.transfers.contains_key(id) && at_rest(desk.transfers[id]) implies at_rest(
            after.transfers[id],
        ) by {
            assert(mid.transfers.contains_key(id));
        }
    }
}

/// Once sharing is off nobody may share, and everything has ended: no offer is available,
/// no drag is left, every walk is told to stop, and so is every transfer that still runs.
pub proof fn nothing_goes_on_once_sharing_is_off(service: Service)
    requires
        service.wf(),
        !service.enabled || !service.policy.enabled,
    ensures
        ({
            let after = service@.enforced();
            &&& forall|peer: Seq<char>| (#[trigger] after.authorized(peer)) is Err
            &&& forall|id: u128| #[trigger]
                after.offers.contains_key(id) ==> after.offers[id].record.state is Revoked
            &&& forall|id: u128| #[trigger]
                after.transfers.contains_key(id) ==> at_rest(after.transfers[id])
            &&& forall|id: u128| #[trigger]
                after.enumerations.contains_key(id) ==> after.enumerations[id].cancelled
            &&& after.drags == Map::<u128, Drag>::empty()
            &&& after.clipboard_selection is None
        }),
{
    let desk = service@;
    let ids = ids_of(desk.offers);
    service.offers.lemma_listing();
    let lapsed = picked(ids, desk.offers, lapsed_offer(desk));
    lemma_picked(ids, desk.offers, lapsed_offer(desk));
    let failed = Desk {
        transfers: mapped(desk.transfers, lapsed_delivery(desk)),
        clipboard_selection: None,
        clipboard_generation: None,
        ..desk
    };
    lemma_revoking(failed, lapsed);
    lemma_revoking_keeps_selection(failed, lapsed);
    let after = desk.enforced();
    assert forall|id: u128| #[trigger]
        after.offers.contains_key(id) implies after.offers[id].record.state is Revoked by {
        assert(failed.revoking_all(lapsed).offers.contains_key(id));
        assert(desk.offers.contains_key(id));
        assert(ids.contains(id));
        assert(lapsed.contains(id));
    }
    assert forall|id: u128| #[trigger] after.transfers.contains_key(id) implies at_rest(
        after.transfers[id],
    ) by {
        assert(failed.revoking_all(lapsed).transfers.contains_key(id));
        assert(at_rest(failed.transfers[id]));
    }
    assert(after.drags =~= Map::<u128, Drag>::empty());
}

proof fn lemma_revoking_keeps_selection(desk: Desk, offers: Seq<u128>)
    ensures
        desk.revoking_all(offers).clipboard_selection == desk.clipboard_selection,
    decreases offers.len(),
{
    if offers.len() > 0 {
        lemma_revoking_keeps_selection(desk, offers.drop_last());
    }
}

/// Bytes moved in one direction.
spec fn total(ids: Seq<u128>, transfers: Map<u128, Delivery>, direction: TransferDirection) -> int
    decreases ids.len(),
{
    if ids.len() == 0 {
        0
    } else {
        let d = transfers[ids.last()];
        total(ids.drop_last(), transfers, direction) + if d.record.direction == direction {
            d.progress as int
        } else {
            0
        }
    }
}

proof fn lemma_moved(
    ids: Seq<u128>,
    transfers: Map<u128, Delivery>,
    direction: TransferDirection,
    before: u64,
)
    ensures
        moved(ids, transfers, direction, before) == (before + total(ids, transfers, direction))
            % 0x1_0000_0000_0000_0000,
        total(ids, transfers, direction) >= 0,
    decreases ids.len(),
{
    if ids.len() > 0 {
        lemma_moved(ids.drop_last(), transfers, direction, before);
    }
}

proof fn lemma_total_without(
    ids: Seq<u128>,
    transfers: Map<u128, Delivery>,
    direction: TransferDirection,
    at: int,
)
    requires
        0 <= at < ids.len(),
    ensures
        total(ids, transfers, direction) == total(ids.remove(at), transfers, direction) + if
            transfers[ids[at]].record.direction == direction {
            transfers[ids[at]].progress as int
        } else {
            0
        },
    decreases ids.len(),
{
    let front = ids.drop_last();
    if at == ids.len() - 1 {
        assert(ids.remove(at) =~= front);
    } else {
        lemma_total_without(front, transfers, direction, at);
        assert(ids.remove(at).drop_last() =~= front.remove(at));
        assert(ids.remove(at).last() == ids.last());
    }
}

proof fn lemma_total_same(
    ids: Seq<u128>,
    a: Map<u128, Delivery>,
    b: Map<u128, Delivery>,
    direction: TransferDirection,
)
    requires
        forall|i: int| 0 <= i < ids.len() ==> a[#[trigger] ids[i]] == b[ids[i]],
    ensures
        total(ids, a, direction) == total(ids, b, direction),
    decreases ids.len(),
{
    if ids.len() > 0 {
        let front = ids.drop_last();
        assert forall|i: int| 0 <= i < front.len() implies a[#[trigger] front[i]]
            == b[front[i]] by {
            assert(front[i] == ids[i]);
        }
        lemma_total_same(front, a, b, direction);
        assert(a[ids[ids.len() - 1]] == b[ids[ids.len() - 1]]);
    }
}

/// Forgetting a transfer loses none of the bytes that were counted, in either direction.
pub proof fn forgotten_transfers_stay_counted(service: Service, id: TransferId, direction: TransferDirection)
    requires
        service.wf(),
    ensures
        ({
            let before = service@;
            let after = before.forgetting(id);
            let retired = |desk: Desk|
                match direction {
                    TransferDirection::Send => desk.retired_sent,
                    TransferDirection::Receive => desk.retired_received,
                };
            moved(ids_of(after.transfers), after.transfers, direction, retired(after)) == moved(
                ids_of(before.transfers),
                before.transfers,
                direction,
                retired(before),
            )
        }),
{
    let before = service@;
    let after = before.forgetting(id);
    let ids = ids_of(before.transfers);
    service.transfers.lemma_listing();
    assert(lists(ids, before.transfers));
    if !before.transfers.contains_key(id.0) {
        assert(after.transfers =~= before.transfers);
    } else {
        assert(ids.contains(id.0));
        let at = choose|i: int| 0 <= i < ids.len() && ids[i] == id.0;
        let rest = ids.remove(at);
        lemma_listing_without(ids, before.transfers, at);
        assert(lists(rest, after.transfers));
        let other = ids_of(after.transfers);
        assert forall|k: u128| #[trigger] rest.contains(k) == other.contains(k) by {
            assert(rest.contains(k) == after.transfers.contains_key(k));
        }
        lemma_one_listing(rest, other);
        lemma_total_without(ids, before.transfers, direction, at);
        assert forall|i: int| 0 <= i < rest.len() implies before.transfers[#[trigger] rest[i]]
            == after.transfers[rest[i]] by {
            assert(rest.contains(rest[i]));
        }
        lemma_total_same(rest, before.transfers, after.transfers, direction);
        let was = match direction {
            TransferDirection::Send => before.retired_sent,
            TransferDirection::Receive => before.retired_received,
        };
        let is = match direction {
            TransferDirection::Send => after.retired_sent,
            TransferDirection::Receive => after.retired_received,
        };
        lemma_moved(ids, before.transfers, direction, was);
        lemma_moved(rest, after.transfers, direction, is);
    }
}

proof fn lemma_listing_without(ids: Seq<u128>, map: Map<u128, Delivery>, at: int)
    requires
        lists(ids, map),
        0 <= at < ids.len(),
    ensures
        lists(ids.remove(at), map.remove(ids[at])),
{
    let rest = ids.remove(at);
    let less = map.remove(ids[at]);
    assert forall|i: int, j: int| 0 <= i < j < rest.len() implies (#[trigger] rest[i]) < (
    #[trigger] rest[j]) by {
        let a = if i < at {
            i
        } else {
            i + 1
        };
        let b = if j < at {
            j
        } else {
            j + 1
        };
        assert(ids[a] < ids[b]);
    }
    assert forall|k: u128| #[trigger] rest.contains(k) == less.contains_key(k) by {
        assert(ids.contains(k) == map.contains_key(k));
        if rest.contains(k) {
            let i = choose|i: int| 0 <= i < rest.len() && rest[i] == k;
            let a = if i < at {
                i
            } else {
                i + 1
            };
            assert(ids[a] == k);
            assert(ids.contains(k));
            if a < at {
                assert(ids[a] < ids[at]);
            } else {
                assert(ids[at] < ids[a]);
            }
        }
        if less.contains_key(k) {
            assert(ids.contains(k));
            let i = choose|i: int| 0 <= i < ids.len() && ids[i] == k;
            if i < at {
                assert(rest[i] == k);
            } else {
                assert(rest[i - 1] == k);
            }
        }
    }
}

proof fn lemma_greatest(ids: Set<u128>) -> (r: u128)
    requires
        ids.finite(),
        ids.len() > 0,
    ensures
        ids.contains(r),
        forall|id: u128| #[trigger] ids.contains(id) ==> id <= r,
    decreases ids.len(),
{
    let some = ids.choose();
    assert(ids.contains(some));
    let rest = ids.remove(some);
    if rest.len() == 0 {
        assert forall|id: u128| #[trigger] ids.contains(id) implies id <= some by {
            if id != some {
                assert(rest.contains(id));
                assert(rest =~= Set::empty());
            }
        }
        some
    } else {
        let next = lemma_greatest(rest);
        let best = if next < some {
            some
        } else {
            next
        };
        assert forall|id: u128| #[trigger] ids.contains(id) implies id <= best by {
            if id != some {
                assert(rest.contains(id));
            }
        }
        best
    }
}

pub(crate) proof fn lemma_listed<V>(map: Map<u128, V>) -> (ids: Seq<u128>)
    requires
        map.dom().finite(),
    ensures
        lists(ids, map),
        lists(ids_of(map), map),
    decreases map.dom().len(),
{
    if map.dom().len() == 0 {
        let ids = Seq::<u128>::empty();
        assert forall|id: u128| #[trigger] ids.contains(id) == map.contains_key(id) by {
            assert(map.dom() =~= Set::empty());
            if map.contains_key(id) {
                assert(map.dom().contains(id));
            }
        }
        ids
    } else {
        let top = lemma_greatest(map.dom());
        let less = map.remove(top);
        let front = lemma_listed(less);
        let ids = front.push(top);
        assert forall|i: int, j: int| 0 <= i < j < ids.len() implies (#[trigger] ids[i]) < (
        #[trigger] ids[j]) by {
            if j < front.len() {
                assert(front[i] < front[j]);
            } else {
                assert(front.contains(front[i]));
                assert(less.contains_key(front[i]));
                assert(map.dom().contains(front[i]));
            }
        }
        assert forall|id: u128| #[trigger] ids.contains(id) == map.contains_key(id) by {
            assert(front.contains(id) == less.contains_key(id));
            if ids.contains(id) {
                let i = choose|i: int| 0 <= i < ids.len() && ids[i] == id;
                if i < front.len() {
                    assert(front[i] == id);
                    assert(front.contains(id));
                }
            }
            if map.contains_key(id) {
                if id == top {
                    assert(ids[front.len() as int] == id);
                } else {
                    let i = choose|i: int| 0 <= i < front.len() && front[i] == id;
                    assert(ids[i] == id);
                }
            }
        }
        ids
    }
}

proof fn lemma_count<V>(map: Map<u128, V>, keep: spec_fn(V) -> bool)
    requires
        map.dom().finite(),
    ensures
        kept(map, keep).dom().finite(),
        count_of(map, keep) == kept(map, keep).dom().len(),
{
    let _ = lemma_listed(map);
    let ids = ids_of(map);
    let some = picked(ids, map, keep);
    lemma_picked(ids, map, keep);
    assert(some.no_duplicates()) by {
        assert forall|i: int, j: int|
            0 <= i < some.len() && 0 <= j < some.len() && i != j implies some[i] != some[j] by {
            if i < j {
                assert(some[i] < some[j]);
            } else {
                assert(some[j] < some[i]);
            }
        }
    }
    some.unique_seq_to_set();
    assert(some.to_set() =~= kept(map, keep).dom()) by {
        assert forall|id: u128| #[trigger]
            some.to_set().contains(id) == kept(map, keep).dom().contains(id) by {
            assert(some.contains(id) <==> ids.contains(id) && keep(map[id]));
            assert(ids.contains(id) == map.contains_key(id));
        }
    }
}

proof fn lemma_one_more<V>(map: Map<u128, V>, id: u128, value: V, keep: spec_fn(V) -> bool)
    requires
        map.dom().finite(),
    ensures
        count_of(map.insert(id, value), keep) <= count_of(map, keep) + 1,
{
    let more = map.insert(id, value);
    lemma_count(map, keep);
    lemma_count(more, keep);
    let a = kept(map, keep).dom().insert(id);
    let b = kept(more, keep).dom();
    assert(b.subset_of(a));
    vstd::set_lib::lemma_len_subset(b, a);
}

pub(crate) proof fn lemma_retiring_finite(desk: Desk, ids: Seq<u128>)
    requires
        desk.transfers.dom().finite(),
    ensures
        desk.retiring(ids).transfers.dom().finite(),
    decreases ids.len(),
{
    if ids.len() > 0 {
        let id = TransferId(ids[0]);
        let rest = ids.skip(1);
        lemma_retiring_finite(desk, rest);
        lemma_retiring_finite(desk.forgetting(id), rest);
        lemma_retiring_finite(desk.clearing_received(id, None), rest);
    }
}

proof fn lemma_withdrawing_transfers(desk: Desk, offers: Seq<u128>)
    ensures
        desk.withdrawing(offers).transfers == desk.transfers,
    decreases offers.len(),
{
    if offers.len() > 0 {
        lemma_withdrawing_transfers(desk, offers.drop_last());
    }
}

pub(crate) proof fn lemma_synced_transfers(desk: Desk)
    ensures
        desk.synced().transfers == desk.transfers,
{
    let emptied = Desk {
        clipboard: super::mailbox::Mailbox { update: None, ..desk.clipboard },
        ..desk
    };
    let bare = Desk {
        clipboard_selection: None,
        clipboard_generation: None,
        enumerations: mapped(
            desk.enumerations,
            |e: Enumeration| super::upkeep::stopped_clipboard(e),
        ),
        ..emptied
    };
    lemma_withdrawing_transfers(
        bare,
        picked(ids_of(desk.offers), desk.offers, super::upkeep::is_own_clipboard(desk.id@)),
    );
}

/// No more transfers are kept, or active, than may be, in all and with a peer.
pub open spec fn within_limits(transfers: Map<u128, Delivery>, peer: Seq<char>) -> bool {
    &&& transfers.len() <= MAX_RECORDS
    &&& count_of(transfers, is_active()) <= MAX_ACTIVE
    &&& count_of(transfers, is_active_with(peer)) <= MAX_PEER_ACTIVE
}

/// A commit that is granted stays within the limits on transfers.
pub proof fn a_granted_commit_stays_within_limits(
    service: Service,
    peer: MachineId,
    generation: u64,
    message: FileMessage,
    clock: Clock,
    dice: Dice,
    heard: Heard,
)
    requires
        service.wf(),
        message is Commit,
        messaged(service@, peer, generation, message, clock, dice, heard),
        heard.error is None,
    ensures
        within_limits(heard.desk.transfers, peer@),
{
    let ready = service@.synced();
    lemma_synced_transfers(service@);
    service.transfers.lemma_listing();
    let retired = ready.history_retired();
    lemma_retiring_finite(ready, ready.to_retire());
    if let FileMessage::Commit { offer, generation: version, transfer, roots, drag } = message {
        let (source, manifest) = choose|source: u64, manifest: Arc<Manifest>| #[trigger]
            retired.is_committed(offer, roots@, drag, source, manifest) && heard
                == retired.granting(
                peer,
                generation,
                offer,
                transfer,
                drag,
                source,
                manifest,
                clock,
                dice,
            );
        let begun = heard.desk.transfers;
        assert(begun == retired.transfers.insert(transfer.0, begun[transfer.0]));
        lemma_one_more(retired.transfers, transfer.0, begun[transfer.0], is_active());
        lemma_one_more(retired.transfers, transfer.0, begun[transfer.0], is_active_with(peer@));
    }
}

/// A receive that begins stays within the limits on transfers.
pub proof fn a_receive_stays_within_limits(
    service: Service,
    offer: FileOfferId,
    destination: ReceiveDestination,
    drag: Option<NativeDragId>,
    roots: Arc<Vec<EntryId>>,
    clock: Clock,
    dice: Dice,
    after: Desk,
    id: TransferId,
)
    requires
        service.wf(),
        receives(
            service@,
            offer,
            destination,
            drag,
            roots,
            clock,
            dice,
            after,
            Ok(FileReply::Receiving(id)),
        ),
    ensures
        after.transfers.contains_key(id.0),
        within_limits(after.transfers, after.transfers[id.0].record.peer@),
{
    let desk = service@;
    service.transfers.lemma_listing();
    let ready = desk.history_retired();
    lemma_retiring_finite(desk, desk.to_retire());
    let result = Ok::<FileReply, FileError>(FileReply::Receiving(id));
    let plan = choose|plan: Plan| #[trigger]
        desk.is_plan(offer, drag, roots, plan) && (after, result) == desk.receiving(
            offer,
            destination,
            drag,
            plan,
            clock,
            dice,
        );
    let d = after.transfers[id.0];
    assert(after.transfers == ready.transfers.insert(id.0, d));
    lemma_one_more(ready.transfers, id.0, d, is_active());
    lemma_one_more(ready.transfers, id.0, d, is_active_with(plan.peer@));
}

} // verus!
