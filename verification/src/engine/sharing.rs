//! What sharing the clipboard between machines comes to.

use super::agreement::made_later;
use super::clip::{pieced, ClipAct, ClipFrame, ClipMind};
use super::clipboard_clock::{counts_after, NativeClipboardEvent};
use super::state::{Focus, Mind};
use crate::clipboard::{exceeds, place};
use crate::files::records::LocalSelection;
use crate::machine::{MachineId, Stamp};
use std::sync::Arc;
use vstd::prelude::*;

verus! {

/// While clipboards are shared, whatever is put on this one is told to all others, in one
/// offer with just these formats and this text, and that offer is live from then on. Only
/// text that equals, character by character, the text of the last offer taken from another
/// machine is not told: it is that offer's own. A change without text is always told. The
/// offer's stamp is later than any with a count that this machine has heard of.
pub proof fn a_change_is_told_to_all(
    clip: ClipMind,
    mind: Mind,
    mimes: Arc<Vec<String>>,
    inline_text: Option<String>,
    heard: Stamp,
)
    requires
        mind.clipboard_sync,
        clip.lamport < u64::MAX,
        clip.offer_id < u64::MAX,
        heard.lamport <= clip.lamport,
    ensures
        ({
            let after = clip.changed(mind, mimes, inline_text);
            let echo = inline_text matches Some(text) && clip.last_inline matches Some(last)
                && text@ == last@;
            &&& echo ==> after == clip
            &&& inline_text is None ==> after.outbox.len() == clip.outbox.len() + 1
            &&& !echo ==> {
                &&& after.outbox.len() == clip.outbox.len() + 1
                &&& after.outbox.take(clip.outbox.len() as int) == clip.outbox
                &&& after.outbox.last() matches ClipAct::Broadcast(
                    ClipFrame::Offer { id, stamp, mimes: told, inline_text: text },
                ) && told == mimes && text == inline_text && stamp.writer == mind.me.id
                    && made_later(stamp, heard) && after.live_offer == Some((id, mimes))
                    && after.seen == Some(stamp) && id == clip.offer_id + 1 && after.offer_id == id
                    && after.lamport == stamp.lamport
                &&& after.last_inline == clip.last_inline
                &&& after.fetches == clip.fetches
                &&& after.file == clip.file
            }
        }),
{
    let after = clip.changed(mind, mimes, inline_text);
    assert(after.outbox == clip.outbox || after.outbox.take(clip.outbox.len() as int)
        =~= clip.outbox);
}

/// While clipboards are not shared, nothing is told, shown or read.
pub proof fn nothing_is_shared_once_sharing_is_off(
    clip: ClipMind,
    mind: Mind,
    from: MachineId,
    id: u64,
    stamp: Stamp,
    mimes: Arc<Vec<String>>,
    inline_text: Option<String>,
    request: u64,
    mime: String,
)
    requires
        !mind.clipboard_sync,
    ensures
        clip.changed(mind, mimes, inline_text) == clip,
        clip.offered(mind, from, id, stamp, mimes, inline_text).outbox == clip.outbox,
        clip.offered(mind, from, id, stamp, mimes, inline_text).last_inline == clip.last_inline,
        clip.asked(mind, from, id, request, mime).reads == clip.reads,
        clip.asked(mind, from, id, request, mime).outbox == if mind.sends(from@) {
            clip.outbox.push(
                ClipAct::Send {
                    to: from,
                    frame: ClipFrame::Abort {
                        request,
                        reason: super::notice::plain(super::notice::Trouble::ClipboardGone),
                    },
                },
            )
        } else {
            clip.outbox
        },
{
}

/// A change of this clipboard that is the latest thing to happen to it, in the running epoch,
/// is handed on as a change; what is older is not.
pub proof fn the_latest_change_counts(clip: ClipMind, mind: Mind, event: NativeClipboardEvent)
    requires
        event.epoch_of() == clip.files_epoch,
        event is Changed,
    ensures
        counts_after(clip.clock.stamp, event.moment()) ==> {
            let after = clip.happened(mind, event);
            let told = clip.changed(mind, event->mimes, event->inline_text);
            &&& after.outbox == told.outbox
            &&& after.live_offer == told.live_offer
            &&& after.seen == told.seen
            &&& after.lamport == told.lamport
            &&& after.clock.stamp == Some(event.moment())
        },
        !counts_after(clip.clock.stamp, event.moment()) ==> clip.happened(mind, event) == clip,
{
}

/// Another machine's offer is put on this clipboard exactly where it is later than any offer
/// seen, from a machine that shares its clipboard: with the formats and the text offered, to
/// be fetched from that machine under the offer's number. The text is noted, so that it is
/// not told again. Either way this machine's count does not fall behind the offer's.
pub proof fn the_latest_offer_is_shown(
    clip: ClipMind,
    mind: Mind,
    from: MachineId,
    id: u64,
    stamp: Stamp,
    mimes: Arc<Vec<String>>,
    inline_text: Option<String>,
)
    requires
        mind.clipboard_sync,
        mind.takes_clipboard(from@),
    ensures
        ({
            let after = clip.offered(mind, from, id, stamp, mimes, inline_text);
            let later = clip.seen matches Some(seen) ==> made_later(stamp, seen);
            &&& after.lamport >= stamp.lamport
            &&& after.lamport >= clip.lamport
            &&& after.lamport == stamp.lamport || after.lamport == clip.lamport
            &&& later ==> {
                &&& after.outbox.len() == clip.outbox.len() + 1
                &&& after.outbox.last() matches ClipAct::Show { fetch, inline_text: text }
                    && fetch.origin == from && fetch.id == id && fetch.mimes == mimes && text
                    == inline_text
                &&& after.seen == Some(stamp)
                &&& after.last_inline == inline_text
            }
            &&& !later ==> {
                &&& after.outbox == clip.outbox
                &&& after.seen == clip.seen
                &&& after.last_inline == clip.last_inline
            }
            &&& after.live_offer == clip.live_offer
            &&& after.offer_id == clip.offer_id
        }),
{
}

/// Machines that see the same offers show the same one: after two offers, in whichever order
/// they came, the later of the two is the one that was seen last.
pub proof fn the_order_of_offers_does_not_matter(
    clip: ClipMind,
    mind: Mind,
    from: MachineId,
    other: MachineId,
    id: u64,
    number: u64,
    stamp: Stamp,
    next: Stamp,
    mimes: Arc<Vec<String>>,
    formats: Arc<Vec<String>>,
    text: Option<String>,
    words: Option<String>,
)
    requires
        mind.clipboard_sync,
        mind.takes_clipboard(from@),
        mind.takes_clipboard(other@),
        made_later(next, stamp),
        clip.seen matches Some(seen) ==> made_later(stamp, seen),
    ensures
        ({
            let one = clip.offered(mind, from, id, stamp, mimes, text).offered(
                mind,
                other,
                number,
                next,
                formats,
                words,
            );
            let two = clip.offered(mind, other, number, next, formats, words).offered(
                mind,
                from,
                id,
                stamp,
                mimes,
                text,
            );
            &&& one.seen == Some(next)
            &&& two.seen == Some(next)
            &&& one.last_inline == words
            &&& two.last_inline == words
            &&& one.lamport == two.lamport
        }),
{
    let seen = clip.seen->0;
    crate::machine::stamps_stand_in_one_order(next, stamp, seen);
}

/// What is live on this clipboard is read for whoever asks for it in one of its formats, as
/// long as fewer than four contents are being read; any other request is refused, where that
/// machine can be told.
pub proof fn what_is_live_is_read(
    clip: ClipMind,
    mind: Mind,
    from: MachineId,
    id: u64,
    request: u64,
    mime: String,
)
    ensures
        ({
            let after = clip.asked(mind, from, id, request, mime);
            let live = mind.clipboard_sync && (clip.live_offer matches Some((offer, mimes))
                && offer == id && (exists|i: int|
                0 <= i < mimes@.len() && (#[trigger] mimes@[i])@ == mime@));
            &&& live && clip.reads < 8 ==> after.outbox == clip.outbox.push(
                ClipAct::Read { from, request, mime },
            ) && after.reads == clip.reads + 1
            &&& !live || clip.reads >= 8 ==> {
                &&& after.reads == clip.reads
                &&& !mind.sends(from@) ==> after.outbox == clip.outbox
                &&& mind.sends(from@) ==> after.outbox.len() == clip.outbox.len() + 1 && (
                after.outbox.last() matches ClipAct::Send {
                    to,
                    frame: ClipFrame::Abort { request: refused, reason: _ },
                } && to == from && refused == request)
            }
            &&& after.live_offer == clip.live_offer
            &&& after.seen == clip.seen
        }),
{
}

/// What was told can be had: after a change of this clipboard was told, whoever asks for the
/// offer that was told, in one of the formats that were told, gets it read.
pub proof fn what_was_told_can_be_had(
    clip: ClipMind,
    mind: Mind,
    mimes: Arc<Vec<String>>,
    from: MachineId,
    request: u64,
    mime: String,
    i: int,
)
    requires
        mind.clipboard_sync,
        clip.offer_id < u64::MAX,
        clip.reads < 8,
        0 <= i < mimes@.len(),
        mimes@[i]@ == mime@,
    ensures
        ({
            let told = clip.changed(mind, mimes, None);
            &&& told.outbox.last() matches ClipAct::Broadcast(ClipFrame::Offer { id, .. })
                && told.asked(mind, from, id, request, mime).outbox == told.outbox.push(
                ClipAct::Read { from, request, mime },
            )
        }),
{
}

/// Contents that come in pieces are put together in order: after a piece that is not the last
/// and then the last one, what was fetched is what was there before, the first piece and the
/// second, for the machine and request that they came under.
pub proof fn pieces_are_put_together(
    before: ClipMind,
    between: ClipMind,
    after: ClipMind,
    from: MachineId,
    request: u64,
    data: Seq<u8>,
    more: Seq<u8>,
)
    requires
        pieced(before, between, from, request, data, false),
        pieced(between, after, from, request, more, true),
        place(before.fetches.pending, from@, request) < before.fetches.pending.len(),
        !exceeds(
            before.fetches.pending,
            place(before.fetches.pending, from@, request),
            data,
        ),
        place(between.fetches.pending, from@, request) == between.fetches.pending.len() - 1,
        !exceeds(between.fetches.pending, between.fetches.pending.len() - 1, more),
    ensures
        between.outbox == before.outbox,
        after.outbox.len() == before.outbox.len() + 1,
        after.outbox.last() matches ClipAct::Fetched { from: sender, request: asked, bytes }
            && sender == from && asked == request && bytes@
            == before.fetches.pending[place(before.fetches.pending, from@, request)].bytes + data
            + more,
        after.fetches.pending == before.fetches.pending.remove(
            place(before.fetches.pending, from@, request),
        ),
{
    let at = place(before.fetches.pending, from@, request);
    let rest = before.fetches.pending.remove(at);
    assert(between.fetches.pending.remove(between.fetches.pending.len() - 1) =~= rest);
}

/// What is to be done comes after what was to be done already.
pub open spec fn adds_to(before: Seq<ClipAct>, after: Seq<ClipAct>) -> bool {
    before.len() <= after.len() && forall|i: int|
        0 <= i < before.len() ==> (#[trigger] after[i]) == before[i]
}

proof fn lemma_announced(clip: ClipMind, mind: Mind, stamp: Stamp, generation: u64, n: nat, i: int)
    requires
        0 <= i < n <= mind.peers.len(),
    ensures
        ({
            let after = clip.announced(mind, stamp, generation, n);
            let peer = mind.peers[i];
            &&& after == (ClipMind { outbox: after.outbox, ..clip })
            &&& adds_to(clip.outbox, after.outbox)
            &&& peer.connected && mind.enabled(peer.id@) && peer.caps.files && mind.sends(peer.id@)
                ==> after.outbox.contains(
                ClipAct::Send { to: peer.id, frame: ClipFrame::FileRef { stamp, generation } },
            )
        }),
    decreases n,
{
    let before = clip.announced(mind, stamp, generation, (n - 1) as nat);
    let after = clip.announced(mind, stamp, generation, n);
    if n > 1 {
        let j = if i < n - 1 {
            i
        } else {
            0
        };
        lemma_announced(clip, mind, stamp, generation, (n - 1) as nat, j);
    } else {
        assert(before == clip);
    }
    let said = ClipAct::Send {
        to: mind.peers[i].id,
        frame: ClipFrame::FileRef { stamp, generation },
    };
    if i < n - 1 {
        if before.outbox.contains(said) {
            let k = choose|k: int| 0 <= k < before.outbox.len() && before.outbox[k] == said;
            assert(after.outbox[k] == said);
        }
    } else if mind.peers[i].connected && mind.enabled(mind.peers[i].id@)
        && mind.peers[i].caps.files && mind.sends(mind.peers[i].id@) {
        assert(after.outbox[after.outbox.len() - 1] == said);
    }
}

/// The stamp of what this machine puts on its clipboard next.
spec fn next_stamp(clip: ClipMind, mind: Mind) -> Stamp {
    Stamp { lamport: (clip.lamport + 1) as u64, writer: mind.me.id }
}

/// Files that were put on this clipboard become its contents: they are handed to file sharing,
/// every machine that takes part, is connected, understands files and can be told is told of
/// them, under a stamp later than any heard of; and what was offered before is no longer live.
pub proof fn captured_files_are_announced(
    clip: ClipMind,
    mind: Mind,
    selection: Arc<LocalSelection>,
    generation: u64,
    epoch: u64,
    i: int,
)
    requires
        clip.files_ready(mind),
        selection.is_valid(),
        clip.files_open,
        clip.lamport < u64::MAX,
        0 <= i < mind.peers.len(),
    ensures
        ({
            let after = clip.captured(mind, selection, generation, epoch);
            let peer = mind.peers[i];
            &&& after.outbox.len() > clip.outbox.len()
            &&& after.outbox[clip.outbox.len() as int] == (ClipAct::CaptureFiles {
                selection,
                generation,
                epoch,
            })
            &&& after.live_offer is None
            &&& after.fetches.pending.len() == 0
            &&& after.file matches Some(file) && file.generation == generation
                && file.stamp.lamport == clip.lamport + 1 && file.stamp.writer == mind.me.id
                && after.seen == Some(file.stamp)
            &&& peer.connected && mind.enabled(peer.id@) && peer.caps.files && mind.sends(peer.id@)
                ==> after.outbox.contains(
                ClipAct::Send {
                    to: peer.id,
                    frame: ClipFrame::FileRef { stamp: after.file->0.stamp, generation },
                },
            )
        }),
{
    let stamp = next_stamp(clip, mind);
    let held = ClipMind {
        local_epoch: epoch,
        fetches: super::clip::emptied(clip.fetches),
        live_offer: None,
        lamport: stamp.lamport,
        seen: Some(stamp),
        file: Some(super::clip::FileClipboardRef { stamp, generation }),
        route: None,
        ..clip.doing(ClipAct::CaptureFiles { selection, generation, epoch })
    };
    lemma_announced(held, mind, stamp, generation, mind.peers.len(), i);
    let told = held.announced(mind, stamp, generation, mind.peers.len());
    let after = clip.captured(mind, selection, generation, epoch);
    assert(adds_to(told.outbox, told.routed(mind).outbox));
    assert(adds_to(told.outbox, after.outbox));
    let said = ClipAct::Send {
        to: mind.peers[i].id,
        frame: ClipFrame::FileRef { stamp, generation },
    };
    if told.outbox.contains(said) {
        let k = choose|k: int| 0 <= k < told.outbox.len() && told.outbox[k] == said;
        assert(after.outbox[k] == said);
    }
}

/// Files on another machine's clipboard take the place of what is on this one exactly where
/// they are later, come from that machine itself, and sharing them is on between the two.
pub proof fn later_files_take_over(
    clip: ClipMind,
    mind: Mind,
    from: Seq<char>,
    stamp: Stamp,
    generation: u64,
    replaced: Option<u64>,
)
    ensures
        ({
            let after = clip.file_heard(mind, from, stamp, generation, replaced);
            let welcome = mind.clipboard_sync && mind.master_enabled && mind.enabled(mind.me.id@)
                && clip.files_enabled && mind.enabled(from) && mind.usable(from)
                && stamp.writer@ == from && mind.connected(from) && mind.peer(from).caps.files && (
            clip.seen matches Some(seen) ==> made_later(stamp, seen));
            &&& !welcome ==> after == clip
            &&& welcome ==> {
                &&& after.file matches Some(file) && file.stamp == stamp && file.generation
                    == generation
                &&& after.seen == Some(stamp)
                &&& after.live_offer is None
                &&& after.lamport >= stamp.lamport
                &&& after.fetches.pending.len() == 0
            }
        }),
{
}

/// Files are offered to the machine that has the pointer, once: by this machine where they are
/// its own, and by asking their owner where they are another's. Only the source of input asks.
pub proof fn files_follow_the_pointer(clip: ClipMind, mind: Mind)
    requires
        clip.files_ready(mind),
        clip.file is Some,
        !(mind.focus is Driven),
    ensures
        ({
            let after = clip.routed(mind);
            let file = clip.file->0;
            let to = match mind.focus {
                Focus::Remote(target) => target,
                _ => mind.me.id,
            };
            let done = clip.route matches Some((last, machine)) && last.lamport
                == file.stamp.lamport && last.writer@ == file.stamp.writer@ && machine@ == to@;
            &&& !mind.claimed_by(mind.me.id@) || file.stamp.writer@ == to@ || done ==> after == clip
            &&& mind.claimed_by(mind.me.id@) && file.stamp.writer@ != to@ && !done
                && file.stamp.writer@ == mind.me.id@ && clip.queue_fault is None ==> after.outbox
                == clip.outbox.push(
                ClipAct::RouteFiles { recipient: to, generation: file.generation },
            ) && after.route == Some((file.stamp, to))
            &&& mind.claimed_by(mind.me.id@) && file.stamp.writer@ != to@ && !done
                && file.stamp.writer@ != mind.me.id@ && mind.sends(file.stamp.writer@)
                ==> after.outbox == clip.outbox.push(
                ClipAct::Send {
                    to: file.stamp.writer,
                    frame: ClipFrame::FileRoute {
                        stamp: file.stamp,
                        generation: file.generation,
                        recipient: to,
                    },
                },
            ) && after.route == Some((file.stamp, to))
        }),
{
}

} // verus!
