//! What holds of the engine as a whole.

use super::board::{are_geoms, combined, layout_heard, loser, recomputed, settled, winner};
use super::focus::releases;
use super::raw::RawEvent;
use super::state::{
    inputs, lemma_room, lemma_room_is, placed, room, with_place, Act, Focus, Frame, LayoutDoc,
    LeaveReason, Mind, Place, UI_DEBOUNCE,
};
use crate::geometry::Vec2;
use crate::layout::{
    alike, linkable, links_depend_on_where_machines_stand, links_join_machines_that_take_part,
    links_of, specs_of, EdgeSpec, MachineGeom, MachinePlacement,
};
use crate::ledger::nothing_held;
use crate::machine::{
    stamps_stand_in_one_order, supersedes, text_before, texts_stand_in_one_order, MachineId, Stamp,
};
use std::sync::Arc;
use vstd::prelude::*;

verus! {

/// Whoever has the pointer may have it.
pub open spec fn rightful(mind: Mind) -> bool {
    match mind.focus {
        Focus::Local => true,
        Focus::Remote(target) => mind.may_drive(target@),
        Focus::Driven(source) => mind.admits(source@),
    }
}

/// Once what follows from the arrangement was worked out, no session is left that may not
/// be: its machines take part, can be reached and hold the claim, and from a driven machine
/// there is a way home.
pub proof fn sessions_are_rightful(before: Mind, now: u64, after: Mind)
    requires
        recomputed(before, now, after),
    ensures
        rightful(after),
{
}

/// After a panic nobody has the pointer, nothing presses against an edge, no raw input
/// goes on, and what was held for or by another machine is let go.
pub proof fn a_panic_ends_everything(mind: Mind, now: u64)
    ensures
        mind.panicked(now).focus is Local,
        mind.panicked(now).crossing is None,
        !mind.panicked(now).raw.active,
        mind.panicked(now).raw.preparing is None,
        mind.panicked(now).raw.pending_target is None,
        mind.focus is Remote ==> mind.panicked(now).source == nothing_held(),
        mind.focus is Driven ==> mind.panicked(now).target == nothing_held(),
        mind.panicked(now).outbox.last() == Act::Broadcast(Frame::Panic),
{
}

/// A session that ends leaves nothing held at the other side: as long as its connection
/// takes frames, every release goes out before the session is left.
pub proof fn leaving_releases_everything(
    mind: Mind,
    target: MachineId,
    reason: LeaveReason,
    warp: Option<Vec2>,
    now: u64,
)
    requires
        mind.connected(target@),
        mind.sends(target@),
    ensures
        ({
            let after = mind.remote_ended(target, reason, warp, true, now);
            &&& after.focus is Local
            &&& after.source == nothing_held()
            &&& after.outbox == mind.outbox.push(Act::StopRaw { session: mind.active_session })
                + inputs(target, mind.active_session, releases(mind.source)) + seq![
                Act::Send {
                    to: target,
                    frame: Frame::Leave { session: mind.active_session, reason },
                },
                Act::Send { to: target, frame: Frame::ReleaseAll },
                Act::SetActive { peer: target, active: false },
                Act::EndCapture(warp),
            ]
        }),
{
    let after = mind.remote_ended(target, reason, warp, true, now);
    assert(after.outbox =~= mind.outbox.push(Act::StopRaw { session: mind.active_session })
        + inputs(target, mind.active_session, releases(mind.source)) + seq![
        Act::Send { to: target, frame: Frame::Leave { session: mind.active_session, reason } },
        Act::Send { to: target, frame: Frame::ReleaseAll },
        Act::SetActive { peer: target, active: false },
        Act::EndCapture(warp),
    ]);
}

/// What happened to raw input before it stopped no longer matters.
pub proof fn a_late_event_changes_nothing(mind: Mind, event: RawEvent, now: u64)
    requires
        match event {
            RawEvent::Prepared { operation, .. } => operation == mind.raw.operation,
            RawEvent::Connected { operation, .. } => operation == mind.raw.operation,
            RawEvent::Ended { operation, .. } => operation == mind.raw.operation,
        },
    ensures
        mind.stopped_raw().raw_happened(event, now) == mind.stopped_raw(),
{
}

/// Only the machine that holds the claim gets to drive this one.
pub proof fn only_the_source_drives(mind: Mind, source: MachineId, session: u64, pos: Vec2, now: u64)
    requires
        !mind.claimed_by(source@),
    ensures
        mind.entering(source, session, pos, now).focus == mind.focus,
        mind.entering(source, session, pos, now).awaiting == mind.awaiting,
        mind.entering(source, session, pos, now) == mind.refused(source, session),
{
}

/// The later of two stamps.
pub open spec fn later(a: Option<Stamp>, b: Stamp) -> Stamp {
    match a {
        Some(stamp) => if supersedes(b, stamp) {
            b
        } else {
            stamp
        },
        None => b,
    }
}

/// The same claim.
pub open spec fn same_claim(a: Option<Stamp>, b: Option<Stamp>) -> bool {
    match (a, b) {
        (Some(x), Some(y)) => x.lamport == y.lamport && x.writer@ == y.writer@,
        (None, None) => true,
        _ => false,
    }
}

/// The latest claim counts, whatever it does to sessions.
pub proof fn the_latest_claim_counts(mind: Mind, stamp: Stamp, now: u64)
    ensures
        mind.claim_heard(stamp, now).claim == Some(later(mind.claim, stamp)),
        mind.claim_heard(stamp, now).claim_lamport >= stamp.lamport,
{
}

/// Machines that hear the same claims in different orders agree on the source.
pub proof fn claims_converge(mind: Mind, a: Stamp, b: Stamp, now: u64)
    ensures
        same_claim(
            mind.claim_heard(a, now).claim_heard(b, now).claim,
            mind.claim_heard(b, now).claim_heard(a, now).claim,
        ),
{
    the_latest_claim_counts(mind, a, now);
    the_latest_claim_counts(mind, b, now);
    the_latest_claim_counts(mind.claim_heard(a, now), b, now);
    the_latest_claim_counts(mind.claim_heard(b, now), a, now);
    stamps_stand_in_one_order(a, b, b);
    if let Some(c) = mind.claim {
        stamps_stand_in_one_order(a, b, c);
        stamps_stand_in_one_order(b, a, c);
        stamps_stand_in_one_order(a, c, b);
        stamps_stand_in_one_order(b, c, a);
        stamps_stand_in_one_order(c, a, b);
        stamps_stand_in_one_order(c, b, a);
    }
}

/// A claim of this machine counts over every claim it heard of.
pub proof fn a_claim_supersedes_what_was_heard(mind: Mind, heard: Stamp, now: u64)
    requires
        !mind.claimed_by(mind.me.id@),
        heard.lamport <= mind.claim_lamport,
        mind.claim_lamport < u64::MAX,
    ensures
        mind.claiming(now).claim is Some,
        supersedes(mind.claiming(now).claim->0, heard),
        mind.claiming(now).claimed_by(mind.me.id@),
{
}

/// A change is shown within a tenth of a second.
pub proof fn changes_are_shown_soon(mind: Mind, now: u64)
    requires
        now <= super::state::LATEST,
    ensures
        mind.touched(now).ui_deadline is Some,
        mind.touched(now).ui_deadline->0 <= now + UI_DEBOUNCE,
{
}

/// Places in the order of their identities.
pub open spec fn in_order(places: Seq<Place>) -> bool {
    forall|i: int, j: int|
        0 <= i < j < places.len() ==> text_before(
            (#[trigger] places[i]).id@,
            (#[trigger] places[j]).id@,
        )
}

/// Setting a place keeps the order, and every other place.
pub proof fn setting_a_place_keeps_the_others(
    places: Seq<Place>,
    id: MachineId,
    placement: MachinePlacement,
    other: Seq<char>,
)
    requires
        in_order(places),
    ensures
        in_order(with_place(places, id, placement)),
        placed(with_place(places, id, placement), id@) == Some(placement),
        other != id@ ==> placed(with_place(places, id, placement), other) == placed(places, other),
{
    let at = room(places, id@);
    lemma_room_is(places, id@);
    let after = with_place(places, id, placement);
    texts_stand_in_one_order(id@, id@, id@);
    assert(in_order(after)) by {
        assert forall|i: int, j: int| 0 <= i < j < after.len() implies text_before(
            (#[trigger] after[i]).id@,
            (#[trigger] after[j]).id@,
        ) by {
            if at < places.len() && places[at].id@ == id@ {
                assert(text_before(places[i].id@, places[j].id@));
            } else if j < at {
                assert(text_before(places[i].id@, places[j].id@));
            } else if i < at && j == at {
                assert(text_before(places[i].id@, id@));
            } else if i < at {
                assert(text_before(places[i].id@, places[j - 1].id@));
            } else if i == at {
                texts_stand_in_one_order(id@, places[at].id@, places[j - 1].id@);
                if j - 1 > at {
                    assert(text_before(places[at].id@, places[j - 1].id@));
                }
            } else {
                assert(text_before(places[i - 1].id@, places[j - 1].id@));
            }
        }
    }
    lemma_found(after, id@, at);
    if other != id@ {
        if placed(places, other) is Some {
            let k = room(places, other);
            lemma_room_is(places, other);
            let there = if at < places.len() && places[at].id@ == id@ {
                k
            } else if k < at {
                k
            } else {
                k + 1
            };
            assert(after[there].id@ == other);
            lemma_found(after, other, there);
            assert(after[there].placement == places[k].placement);
        } else {
            if placed(after, other) is Some {
                let k = room(after, other);
                lemma_room_is(after, other);
                let there = if at < places.len() && places[at].id@ == id@ {
                    k
                } else if k < at {
                    k
                } else {
                    k - 1
                };
                assert(k != at || (at < places.len() && places[at].id@ == id@));
                assert(places[there].id@ == other);
                lemma_found(places, other, there);
            }
        }
    }
}

pub(crate) proof fn lemma_found(places: Seq<Place>, id: Seq<char>, at: int)
    requires
        in_order(places),
        0 <= at < places.len(),
        places[at].id@ == id,
    ensures
        room(places, id) == at,
        placed(places, id) == Some(places[at].placement),
{
    texts_stand_in_one_order(id, id, id);
    assert forall|i: int| 0 <= i < at implies text_before((#[trigger] places[i]).id@, id) by {
        assert(text_before(places[i].id@, places[at].id@));
    }
    lemma_room(places, id, at);
}

pub(crate) proof fn lemma_combined(places: Seq<Place>, more: Seq<Place>, id: Seq<char>)
    requires
        in_order(places),
    ensures
        in_order(combined(places, more)),
        placed(places, id) is Some ==> placed(combined(places, more), id) == placed(places, id),
        (exists|i: int| 0 <= i < more.len() && (#[trigger] more[i]).id@ == id) ==> placed(
            combined(places, more),
            id,
        ) is Some,
    decreases more.len(),
{
    if more.len() > 0 {
        let front = more.drop_last();
        lemma_combined(places, front, id);
        let before = combined(places, front);
        let last = more.last();
        setting_a_place_keeps_the_others(before, last.id, last.placement, id);
        if exists|i: int| 0 <= i < more.len() && (#[trigger] more[i]).id@ == id {
            let i = choose|i: int| 0 <= i < more.len() && (#[trigger] more[i]).id@ == id;
            if i < front.len() {
                assert(front[i].id@ == id);
            }
        }
    }
}

pub(crate) proof fn lemma_settled(mind: Mind, places: Seq<Place>, id: Seq<char>)
    requires
        in_order(places),
    ensures
        in_order(settled(mind, places)),
        placed(settled(mind, places), id) is Some == placed(places, id) is Some,
{
    let after = settled(mind, places);
    assert(after.len() == places.len());
    assert(forall|i: int| 0 <= i < places.len() ==> (#[trigger] after[i]).id == places[i].id);
    assert forall|i: int, j: int| 0 <= i < j < after.len() implies text_before(
        (#[trigger] after[i]).id@,
        (#[trigger] after[j]).id@,
    ) by {
        assert(text_before(places[i].id@, places[j].id@));
    }
    if placed(places, id) is Some {
        let k = room(places, id);
        lemma_room_is(places, id);
        assert(after[k].id@ == id);
        lemma_found(after, id, k);
    }
    if placed(after, id) is Some {
        let k = room(after, id);
        lemma_room_is(after, id);
        assert(places[k].id@ == id);
        lemma_found(places, id, k);
    }
}

/// Hearing of another arrangement loses no machine: whoever has a place here or there has
/// one afterwards.
pub proof fn no_machine_is_lost(
    before: Mind,
    doc: Arc<LayoutDoc>,
    now: u64,
    after: Mind,
    id: Seq<char>,
)
    requires
        layout_heard(before, doc, now, after),
        in_order(before.places()),
        in_order(doc.machines@),
        placed(before.places(), id) is Some || placed(doc.machines@, id) is Some,
    ensures
        placed(after.places(), id) is Some,
        in_order(after.places()),
{
    let all = combined(winner(before, doc).machines@, loser(before, doc));
    let lost = loser(before, doc);
    lemma_room_is(lost, id);
    if placed(lost, id) is Some {
        assert(lost[room(lost, id)].id@ == id);
    }
    lemma_combined(winner(before, doc).machines@, lost, id);
    lemma_settled(before.adopting(doc), all, id);
}

/// The barriers follow from where the machines stand alone: neither focus, nor who takes part
/// or can be reached, changes them.
pub proof fn barriers_follow_the_arrangement(
    one: Mind,
    other: Mind,
    now: u64,
    later: u64,
    after_one: Mind,
    after_other: Mind,
)
    requires
        recomputed(one, now, after_one),
        recomputed(other, later, after_other),
        one.me.id@ == other.me.id@,
        one.places().len() == other.places().len(),
        forall|i: int|
            0 <= i < one.places().len() ==> {
                let a = #[trigger] one.places()[i];
                let b = other.places()[i];
                &&& a.id == b.id
                &&& a.placement.offset == b.placement.offset
                &&& one.displays(a.id@) == other.displays(b.id@)
            },
    ensures
        after_one.armed == after_other.armed,
        exists|a: Arc<Vec<EdgeSpec>>, b: Arc<Vec<EdgeSpec>>|
            {
                &&& #[trigger] after_one.outbox.last() == Act::SetEdges(a)
                &&& #[trigger] after_other.outbox.last() == Act::SetEdges(b)
                &&& a@ == b@
            },
{
    let (geo, active, specs) = choose|
        geo: Seq<MachineGeom>,
        active: Seq<MachineGeom>,
        specs: Arc<Vec<EdgeSpec>>,
    |
        {
            &&& #[trigger] are_geoms(one, geo, false)
            &&& #[trigger] are_geoms(one, active, true)
            &&& #[trigger] specs@ == specs_of(
                links_of(geo, geo.len()),
                one.me.id@,
                links_of(geo, geo.len()).len(),
            )
            &&& after_one == one.relinked(
                links_of(geo, geo.len()),
                links_of(active, active.len()),
                specs,
                now,
            )
        };
    let (other_geo, other_active, other_specs) = choose|
        geo: Seq<MachineGeom>,
        active: Seq<MachineGeom>,
        specs: Arc<Vec<EdgeSpec>>,
    |
        {
            &&& #[trigger] are_geoms(other, geo, false)
            &&& #[trigger] are_geoms(other, active, true)
            &&& #[trigger] specs@ == specs_of(
                links_of(geo, geo.len()),
                other.me.id@,
                links_of(geo, geo.len()).len(),
            )
            &&& after_other == other.relinked(
                links_of(geo, geo.len()),
                links_of(active, active.len()),
                specs,
                later,
            )
        };
    assert forall|i: int| 0 <= i < geo.len() implies alike(#[trigger] geo[i], other_geo[i]) by {
        assert(one.places()[i].id == other.places()[i].id);
        assert(other_geo[i].id == other.places()[i].id);
    }
    links_depend_on_where_machines_stand(geo, other_geo, geo.len());
    assert(after_one.outbox.last() == Act::SetEdges(specs));
    assert(after_other.outbox.last() == Act::SetEdges(other_specs));
}

/// A machine stands in the arrangement, is enabled and can be reached.
pub open spec fn takes_part(mind: Mind, id: MachineId) -> bool {
    exists|i: int|
        0 <= i < mind.places().len() && (#[trigger] mind.places()[i]).id == id
            && mind.places()[i].placement.enabled && (id@ == mind.me.id@ || mind.usable(id@))
}

/// What can be crossed leads from and to machines that take part.
pub proof fn links_lead_to_usable_machines(before: Mind, now: u64, after: Mind, k: int)
    requires
        recomputed(before, now, after),
        0 <= k < after.links.len(),
    ensures
        takes_part(before, after.links[k].from),
        takes_part(before, after.links[k].to),
{
    let (geo, active, specs) = choose|
        geo: Seq<MachineGeom>,
        active: Seq<MachineGeom>,
        specs: Arc<Vec<EdgeSpec>>,
    |
        {
            &&& #[trigger] are_geoms(before, geo, false)
            &&& #[trigger] are_geoms(before, active, true)
            &&& #[trigger] specs@ == specs_of(
                links_of(geo, geo.len()),
                before.me.id@,
                links_of(geo, geo.len()).len(),
            )
            &&& after == before.relinked(
                links_of(geo, geo.len()),
                links_of(active, active.len()),
                specs,
                now,
            )
        };
    assert(after.links == links_of(active, active.len()));
    links_join_machines_that_take_part(active, active.len(), k);
    let (i, j) = choose|i: int, j: int|
        0 <= i < active.len() && 0 <= j < active.len() && i != j && linkable(
            #[trigger] active[i],
        ) && linkable(#[trigger] active[j]) && after.links[k].from == active[i].id
            && after.links[k].to == active[j].id;
    assert(before.places()[i].id == active[i].id);
    assert(before.places()[j].id == active[j].id);
}

/// The pointer is not lost at an edge: what does not lead on to a gesture or a session hands
/// it back.
pub proof fn a_refused_edge_hands_the_pointer_back(
    before: Mind,
    edge: u32,
    along: i64,
    committed: bool,
    now: u64,
)
    requires
        before.crossing is None,
        before.awaiting is None,
    ensures
        ({
            let after = before.edge_begun(edge, along, committed, now);
            ||| after.crossing is Some
            ||| after.awaiting is Some
            ||| after.outbox.len() > before.outbox.len() && after.outbox.last() is EndCapture
        }),
{
}

} // verus!
