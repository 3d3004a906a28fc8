//! What is chosen of an offer, who may fetch it, and what becomes of a transfer.

use super::control::{bulk_error, claimed};
use super::desk::Delivery;
use super::places::PlaceView;
use super::records::{
    EntryId, Fault, FileState, ManifestEntry, ReceivedFiles, Token, TransferId, TransferRecord,
    TransferState,
};
use super::receipts::ReceiptView;
use super::selection::{below, bytes_of, holds_id};
use super::snapshot::{halted, restored, shown, transfer_place, waited, Journal, Wait};
use vstd::prelude::*;

verus! {

proof fn lemma_below_grows(entries: Seq<ManifestEntry>, roots: Seq<EntryId>, n: int, entry: ManifestEntry)
    requires
        0 <= n <= entries.len(),
        below(entries.take(n), roots).contains(entry),
    ensures
        below(entries, roots).contains(entry),
    decreases entries.len() - n,
{
    if n < entries.len() {
        let next = entries.take(n + 1);
        assert(next.drop_last() =~= entries.take(n));
        let before = below(entries.take(n), roots);
        let after = below(next, roots);
        let k = choose|k: int| 0 <= k < before.len() && before[k] == entry;
        assert(after[k] == entry);
        lemma_below_grows(entries, roots, n + 1, entry);
    } else {
        assert(entries.take(n) =~= entries);
    }
}

/// A choice holds all that was chosen: every root that was chosen, and with a directory
/// everything that stands behind it in the manifest as being in it.
pub proof fn a_choice_holds_all_of_it(
    entries: Seq<ManifestEntry>,
    roots: Seq<EntryId>,
    i: int,
    j: int,
)
    requires
        0 <= i < entries.len(),
    ensures
        entries[i].parent is None && roots.contains(entries[i].id) ==> below(
            entries,
            roots,
        ).contains(entries[i]),
        0 <= j < i && entries[i].parent == Some(entries[j].id) && below(
            entries.take(j + 1),
            roots,
        ).contains(entries[j]) ==> below(entries, roots).contains(entries[i]),
{
    let next = entries.take(i + 1);
    assert(next.drop_last() =~= entries.take(i));
    assert(next.last() == entries[i]);
    let before = below(entries.take(i), roots);
    let after = below(next, roots);
    if entries[i].parent is None && roots.contains(entries[i].id) {
        assert(after[after.len() - 1] == entries[i]);
        lemma_below_grows(entries, roots, i + 1, entries[i]);
    }
    if 0 <= j < i && entries[i].parent == Some(entries[j].id) && below(
        entries.take(j + 1),
        roots,
    ).contains(entries[j]) {
        assert(entries.take(i).take(j + 1) =~= entries.take(j + 1));
        lemma_below_grows(entries.take(i), roots, j + 1, entries[j]);
        let k = choose|k: int| 0 <= k < before.len() && before[k] == entries[j];
        assert(before[k].id == entries[j].id);
        assert(holds_id(before, entries[j].id));
        assert(after[after.len() - 1] == entries[i]);
        lemma_below_grows(entries, roots, i + 1, entries[i]);
    }
}

/// The bytes of entries are those of their files, taken together, in whatever parts.
pub proof fn bytes_add_up(front: Seq<ManifestEntry>, rest: Seq<ManifestEntry>)
    ensures
        bytes_of(front + rest) == bytes_of(front) + bytes_of(rest),
        bytes_of(Seq::<ManifestEntry>::empty()) == 0,
        rest.len() == 1 ==> bytes_of(rest) == match rest[0].kind {
            super::records::EntryKind::File { size } => size as int,
            _ => 0,
        },
    decreases rest.len(),
{
    if rest.len() == 0 {
        assert(front + rest =~= front);
    } else {
        bytes_add_up(front, rest.drop_last());
        assert((front + rest).drop_last() =~= front + rest.drop_last());
        assert((front + rest).last() == rest.last());
        if rest.len() == 1 {
            assert(rest.drop_last() =~= Seq::empty());
        }
    }
}

/// A bulk connection is let in exactly once and exactly for what was granted: by the peer and
/// connection that the transfer is for, with the token of its grant, before its deadline and
/// while it waits for it. Then it runs, and its token is used up.
pub proof fn a_granted_connection_is_let_in(
    d: Delivery,
    peer: Seq<char>,
    generation: u64,
    token: Token,
    at: u64,
)
    ensures
        bulk_error(d, peer, generation, token, at) is None <==> !d.cancelled && d.record.peer@
            == peer && d.generation == generation && d.record.direction is Send
            && d.record.state is Committed && !d.running && at < d.deadline && d.token == Some(
            token,
        ),
        claimed(d).running,
        claimed(d).token is None,
        claimed(d).source == d.source,
        claimed(d).manifest == d.manifest,
        claimed(d).record.state == TransferState::Receiving,
        claimed(d).record.id == d.record.id,
        claimed(d).record.peer == d.record.peer,
{
}

/// A transfer that an earlier run left is as its journal has it: with its record, its manifest
/// and the destination that was chosen for it; it neither runs nor can be granted anything.
pub proof fn a_transfer_is_restored_as_it_was(journal: Journal, at: u64)
    ensures
        restored(journal, at).record == journal.record,
        restored(journal, at).manifest == journal.manifest,
        restored(journal, at).destination == Some(journal.destination),
        restored(journal, at).progress == journal.record.bytes,
        !restored(journal, at).running,
        restored(journal, at).token is None,
        restored(journal, at).source is None,
{
}

/// A transfer is shown with the bytes moved so far and otherwise as it is; one that has moved
/// all of them is shown as being verified until it is over.
pub proof fn a_transfer_is_shown_as_it_is(d: Delivery)
    ensures
        shown(d).bytes == d.progress,
        shown(d).id == d.record.id,
        shown(d).peer == d.record.peer,
        shown(d).total_bytes == d.record.total_bytes,
        shown(d).paths == d.record.paths,
        shown(d).error == d.record.error,
        !(d.record.state is Receiving) ==> shown(d).state == d.record.state,
        d.record.state is Receiving && d.progress < d.record.total_bytes ==> shown(d).state
            == TransferState::Receiving,
        d.record.state is Receiving && d.progress == d.record.total_bytes ==> shown(d).state
            == TransferState::Verifying,
        shown(d).state is Ready ==> d.record.state is Ready,
{
}

proof fn lemma_place(transfers: Seq<TransferRecord>, id: TransferId, i: int)
    requires
        0 <= i < transfers.len(),
        transfers[i].id == id,
        forall|k: int| 0 <= k < i ==> (#[trigger] transfers[k]).id != id,
    ensures
        transfer_place(transfers, id) == i,
    decreases transfers.len(),
{
    if i > 0 {
        assert(transfers[0].id != id);
        let rest = transfers.skip(1);
        assert forall|k: int| 0 <= k < i - 1 implies (#[trigger] rest[k]).id != id by {
            assert(rest[k] == transfers[k + 1]);
        }
        lemma_place(rest, id, i - 1);
    }
}

/// Whoever waits for a transfer gets its files once it is ready, its fault once it failed or
/// was cancelled, and waits on otherwise.
pub proof fn whoever_waits_is_told(state: FileState, id: TransferId, i: int)
    requires
        0 <= i < state.transfers@.len(),
        state.transfers@[i].id == id,
        forall|k: int| 0 <= k < i ==> (#[trigger] state.transfers@[k]).id != id,
    ensures
        ({
            let record = state.transfers@[i];
            &&& record.state is Ready ==> waited(state, id) == Wait::Ready(
                ReceivedFiles { transfer: id, paths: record.paths },
            )
            &&& record.state is Failed || record.state is Cancelled ==> (
            waited(state, id) matches Wait::Over(fault) && (record.error matches Some(why)
                ==> fault == why))
            &&& !(record.state is Ready) && !(record.state is Failed) && !(
            record.state is Cancelled) ==> waited(state, id) is Pending
        }),
{
    lemma_place(state.transfers@, id, i);
}

/// When the service stops, what was under way has failed, and what was over stays as it was.
pub proof fn a_stop_fails_what_was_under_way(record: TransferRecord, fault: Fault)
    ensures
        record.state is Ready || record.state is Failed || record.state is Cancelled ==> halted(
            record,
            fault,
        ) == record,
        !(record.state is Ready || record.state is Failed || record.state is Cancelled) ==> halted(
            record,
            fault,
        ).state == TransferState::Failed && halted(record, fault).error == Some(fault),
        halted(record, fault).id == record.id,
        halted(record, fault).paths == record.paths,
        halted(record, fault).bytes == record.bytes,
{
}

/// Files are put in place in the directory of their receipt, each under the name of its entry
/// at the top; what is in place already stays so. Once all are, the receipt is ready with all
/// its bytes.
pub proof fn files_are_put_into_their_directory(receipt: ReceiptView, i: int)
    requires
        0 <= i < receipt.roots.len(),
    ensures
        receipt.published(i).paths == receipt.paths.push(
            PlaceView {
                names: receipt.directory.names.push(receipt.roots[i].name),
                ..receipt.directory
            },
        ),
        receipt.published(i).directory == receipt.directory,
        receipt.published(i).state == receipt.state,
        receipt.finished().state == TransferState::Ready,
        receipt.finished().bytes == receipt.total_bytes,
        receipt.finished().paths == receipt.paths,
        receipt.finished().directory == receipt.directory,
{
}

} // verus!
