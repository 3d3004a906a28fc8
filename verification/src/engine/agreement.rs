//! How machines come to agree on one arrangement.

use super::board::{
    arranged, auto_placed, body_shapes, combined, ensured, every_machine_repairs_alike, layout_heard, loser,
    machine_switched, rearranged, repairs, settled, shared, sped, stirs, usual_rules, winner, with_factor,
};
use super::laws::{
    in_order, lemma_combined, lemma_found, lemma_settled, setting_a_place_keeps_the_others,
};
use super::state::{
    factor_between, is_between, lemma_room_is, placed, room, with_place, Act, Factor, Frame,
    LayoutDoc, Mind, Place,
};
use crate::arrange::bounds::{bounded, lemma_shape_of, moved, shape_of, REACH};
use crate::arrange::settle::joined_canvas;
use crate::arrange::unity::translations_lead_to_the_repair;
use crate::geometry::{DisplayRect, Vec2I};
use crate::layout::MachinePlacement;
use crate::machine::{text_before, texts_stand_in_one_order, MachineId, Stamp};
use std::sync::Arc;
use vstd::prelude::*;

verus! {

/// A change that was made later: after more changes, or after as many by the machine whose
/// identity comes later.
pub open spec fn made_later(a: Stamp, b: Stamp) -> bool {
    a.lamport > b.lamport || (a.lamport == b.lamport && text_before(b.writer@, a.writer@))
}

/// A machine without a place in `first` keeps the one that it has in `second`.
pub open spec fn preferred(first: Seq<Place>, second: Seq<Place>, id: Seq<char>) -> Option<
    MachinePlacement,
> {
    if placed(first, id) is Some {
        placed(first, id)
    } else {
        placed(second, id)
    }
}

proof fn lemma_listed(places: Seq<Place>, id: Seq<char>)
    requires
        in_order(places),
    ensures
        placed(places, id) is Some <==> exists|i: int|
            0 <= i < places.len() && (#[trigger] places[i]).id@ == id,
{
    lemma_room_is(places, id);
    if exists|i: int| 0 <= i < places.len() && (#[trigger] places[i]).id@ == id {
        let i = choose|i: int| 0 <= i < places.len() && (#[trigger] places[i]).id@ == id;
        lemma_found(places, id, i);
    }
    if placed(places, id) is Some {
        assert(places[room(places, id)].id@ == id);
    }
}

proof fn lemma_combined_places(places: Seq<Place>, more: Seq<Place>, id: Seq<char>)
    requires
        in_order(places),
        in_order(more),
    ensures
        in_order(combined(places, more)),
        placed(combined(places, more), id) == preferred(places, more, id),
    decreases more.len(),
{
    lemma_combined(places, more, id);
    if more.len() == 0 {
        lemma_room_is(more, id);
    } else {
        let front = more.drop_last();
        let last = more.last();
        assert(in_order(front)) by {
            assert forall|i: int, j: int| 0 <= i < j < front.len() implies text_before(
                (#[trigger] front[i]).id@,
                (#[trigger] front[j]).id@,
            ) by {
                assert(text_before(more[i].id@, more[j].id@));
            }
        }
        lemma_combined_places(places, front, id);
        lemma_combined_places(places, front, last.id@);
        let before = combined(places, front);
        lemma_listed(front, id);
        lemma_listed(more, id);
        setting_a_place_keeps_the_others(before, last.id, last.placement, id);
        if last.id@ == id {
            lemma_found(more, id, more.len() - 1);
            if placed(front, id) is Some {
                let i = choose|i: int| 0 <= i < front.len() && (#[trigger] front[i]).id@ == id;
                assert(text_before(more[i].id@, more[more.len() - 1].id@));
                texts_stand_in_one_order(id, id, id);
            }
        } else if placed(more, id) is Some {
            let i = choose|i: int| 0 <= i < more.len() && (#[trigger] more[i]).id@ == id;
            assert(front[i].id@ == id);
            lemma_found(front, id, i);
            lemma_found(more, id, i);
        } else if placed(front, id) is Some {
            let i = choose|i: int| 0 <= i < front.len() && (#[trigger] front[i]).id@ == id;
            assert(more[i].id@ == id);
        }
    }
}

proof fn lemma_same_displays(one: Mind, other: Mind, places: Seq<Place>)
    requires
        one.me == other.me,
        one.peers == other.peers,
    ensures
        settled(one, places) == settled(other, places),
        stirs(one, places) == stirs(other, places),
{
    assert forall|i: int| 0 <= i < places.len() implies one.displays((#[trigger] places[i]).id@)
        == other.displays(places[i].id@) by {
        assert(one.knows(places[i].id@) == other.knows(places[i].id@));
        assert(one.peer(places[i].id@) == other.peer(places[i].id@));
    }
    every_machine_repairs_alike(one, other, places);
}

proof fn lemma_settled_enabled(mind: Mind, places: Seq<Place>, id: Seq<char>)
    requires
        in_order(places),
        placed(places, id) is Some,
    ensures
        placed(settled(mind, places), id) is Some,
        placed(settled(mind, places), id)->0.enabled == placed(places, id)->0.enabled,
{
    let after = settled(mind, places);
    let k = room(places, id);
    lemma_room_is(places, id);
    lemma_settled(mind, places, id);
    assert(after[k].id@ == id);
    lemma_found(after, id, k);
    lemma_found(places, id, k);
}

/// Of two arrangements the one that was changed later counts. When another machine's
/// arrangement is heard of, `all` is what this machine goes by, up to its repair: where the
/// heard one is later, every machine stands where that one puts it, and only a machine that
/// it does not place keeps the place known here; where it is not, every machine stays where
/// it is known to stand, and only a machine without a place takes the one heard of. A repair
/// adds and removes no machine and switches none on or off.
pub proof fn the_latest_arrangement_counts(
    before: Mind,
    doc: Arc<LayoutDoc>,
    now: u64,
    after: Mind,
) -> (all: Seq<Place>)
    requires
        layout_heard(before, doc, now, after),
        in_order(before.places()),
        in_order(doc.machines@),
    ensures
        in_order(all),
        before.doc is None || made_later(doc.stamp, before.doc->0.stamp) ==> {
            &&& after.places() == settled(before, all)
            &&& forall|id: Seq<char>| #[trigger]
                placed(all, id) == if placed(doc.machines@, id) is Some {
                    placed(doc.machines@, id)
                } else {
                    placed(before.places(), id)
                }
        },
        before.doc is Some && !made_later(doc.stamp, before.doc->0.stamp) ==> {
            &&& after.places() == settled(before, all) || (after.doc == before.doc
                && after.places() == all)
            &&& forall|id: Seq<char>| #[trigger]
                placed(all, id) == if placed(before.places(), id) is Some {
                    placed(before.places(), id)
                } else {
                    placed(doc.machines@, id)
                }
        },
        forall|id: Seq<char>| #[trigger]
            placed(after.places(), id) is Some <==> placed(all, id) is Some,
        forall|id: Seq<char>|
            placed(all, id) is Some ==> (#[trigger] placed(after.places(), id))->0.enabled
                == placed(all, id)->0.enabled,
{
    let first = winner(before, doc).machines@;
    let second = loser(before, doc);
    let all = combined(first, second);
    let current = before.adopting(doc);
    lemma_same_displays(before, current, all);
    assert forall|id: Seq<char>| #[trigger] placed(all, id) == preferred(first, second, id) by {
        lemma_combined_places(first, second, id);
    }
    lemma_combined_places(first, second, Seq::empty());
    assert forall|id: Seq<char>| #[trigger]
        placed(after.places(), id) is Some <==> placed(all, id) is Some by {
        lemma_settled(before, all, id);
    }
    assert forall|id: Seq<char>| placed(all, id) is Some implies (
    #[trigger] placed(after.places(), id))->0.enabled == placed(all, id)->0.enabled by {
        lemma_settled_enabled(before, all, id);
    }
    all
}

/// Where the displays of some placed machine are not known yet, nothing is repaired: then
/// after an arrangement was heard of, every machine stands exactly where the later of the two
/// puts it, or where the only one that places it does.
pub proof fn an_unrepaired_place_is_the_latest(
    before: Mind,
    doc: Arc<LayoutDoc>,
    now: u64,
    after: Mind,
    unseen: Seq<char>,
    id: Seq<char>,
)
    requires
        layout_heard(before, doc, now, after),
        in_order(before.places()),
        in_order(doc.machines@),
        placed(before.places(), unseen) is Some || placed(doc.machines@, unseen) is Some,
        before.displays(unseen).len() == 0,
    ensures
        before.doc is None || made_later(doc.stamp, before.doc->0.stamp) ==> placed(
            after.places(),
            id,
        ) == if placed(doc.machines@, id) is Some {
            placed(doc.machines@, id)
        } else {
            placed(before.places(), id)
        },
        before.doc is Some && !made_later(doc.stamp, before.doc->0.stamp) ==> placed(
            after.places(),
            id,
        ) == if placed(before.places(), id) is Some {
            placed(before.places(), id)
        } else {
            placed(doc.machines@, id)
        },
{
    let all = the_latest_arrangement_counts(before, doc, now, after);
    assert(placed(all, unseen) is Some);
    lemma_listed(all, unseen);
    let i = choose|i: int| 0 <= i < all.len() && (#[trigger] all[i]).id@ == unseen;
    assert(before.displays(all[i].id@).len() == 0);
    assert(!stirs(before, all));
    assert(placed(all, id) == placed(after.places(), id));
}

/// Two machines that come to know of the same two arrangements, one of them having had the
/// first and the other the second, end with every machine in the same place, as long as they
/// know the same displays and neither had an arrangement that wants repair.
pub proof fn the_order_of_arrangements_does_not_matter(
    one: Mind,
    other: Mind,
    a: Arc<LayoutDoc>,
    b: Arc<LayoutDoc>,
    now: u64,
    later: u64,
    after_one: Mind,
    after_other: Mind,
)
    requires
        one.doc == Some(a),
        other.doc == Some(b),
        in_order(a.machines@),
        in_order(b.machines@),
        a.stamp.lamport != b.stamp.lamport || a.stamp.writer@ != b.stamp.writer@,
        layout_heard(one, b, now, after_one),
        layout_heard(other, a, later, after_other),
        forall|id: Seq<char>| #[trigger] one.displays(id) == other.displays(id),
        !stirs(one, a.machines@),
        !stirs(other, b.machines@),
    ensures
        after_one.places() == after_other.places(),
        made_later(a.stamp, b.stamp) ==> after_one.factors() == a.sensitivity@
            && after_other.factors() == a.sensitivity@,
        made_later(b.stamp, a.stamp) ==> after_one.factors() == b.sensitivity@
            && after_other.factors() == b.sensitivity@,
{
    let (x, y) = (a.stamp.writer@, b.stamp.writer@);
    texts_stand_in_one_order(x, y, x);
    texts_stand_in_one_order(y, x, y);
    let all = combined(winner(one, b).machines@, loser(one, b));
    assert(winner(one, b) == winner(other, a));
    assert(loser(one, b) == loser(other, a));
    lemma_same_displays(one, one.adopting(b), all);
    lemma_same_displays(other, other.adopting(a), all);
    every_machine_repairs_alike(one, other, all);
    every_machine_repairs_alike(one, other, a.machines@);
    every_machine_repairs_alike(one, other, b.machines@);
}

/// What changes the arrangement known here is passed on: the arrangement that this machine
/// then has is the last thing it tells all others, and it is kept. It is the one heard of, or
/// one of this machine's own that is later than both. Nothing else is said, and this
/// machine's count of changes never falls behind what it heard.
pub proof fn a_heard_change_is_passed_on(before: Mind, doc: Arc<LayoutDoc>, now: u64, after: Mind)
    requires
        layout_heard(before, doc, now, after),
        before.layout_lamport < u64::MAX,
        doc.stamp.lamport < u64::MAX,
        before.doc matches Some(known) ==> known.stamp.lamport <= before.layout_lamport,
    ensures
        after.doc is Some,
        after.layout_lamport >= doc.stamp.lamport,
        after.layout_lamport >= before.layout_lamport,
        after.doc->0.stamp.lamport <= after.layout_lamport,
        after.doc == before.doc && after.outbox == before.outbox || (after.outbox
            == before.outbox.push(Act::Broadcast(Frame::LayoutSync(after.doc->0)))
            && after.cfg_deadline is Some && (after.doc == Some(doc) || (
        after.doc->0.stamp.writer == before.me.id && after.doc->0.stamp.lamport
            > doc.stamp.lamport && (before.doc matches Some(known) ==> after.doc->0.stamp.lamport
            > known.stamp.lamport)))),
        before.doc is None || made_later(doc.stamp, before.doc->0.stamp) ==> after.outbox
            == before.outbox.push(Act::Broadcast(Frame::LayoutSync(after.doc->0))),
{
}

/// A change that is made here is later than any heard of, and told to all others.
pub proof fn a_change_is_stamped_and_told(
    before: Mind,
    machines: Seq<Place>,
    factors: Seq<Factor>,
    now: u64,
    after: Mind,
)
    requires
        shared(before, machines, factors, now, after),
        before.layout_lamport < u64::MAX,
        before.doc matches Some(known) ==> known.stamp.lamport <= before.layout_lamport,
    ensures
        after.places() == machines,
        after.factors() == factors,
        after.doc->0.stamp.writer == before.me.id,
        after.doc->0.stamp.lamport == before.layout_lamport + 1,
        after.layout_lamport == before.layout_lamport + 1,
        before.doc matches Some(known) ==> made_later(after.doc->0.stamp, known.stamp),
        after.outbox == before.outbox.push(Act::Broadcast(Frame::LayoutSync(after.doc->0))),
        after.cfg_deadline is Some,
{
}

proof fn lemma_ensured(before: Mind, now: u64, mid: Mind)
    requires
        ensured(before, now, mid),
        in_order(before.places()),
    ensures
        mid.me == before.me,
        mid.peers == before.peers,
        mid.factors() == before.factors(),
        in_order(mid.places()),
        placed(mid.places(), before.me.id@) is Some,
        forall|id: Seq<char>|
            id != before.me.id@ || placed(before.places(), id) is Some ==> #[trigger] placed(
                mid.places(),
                id,
            ) == placed(before.places(), id),
{
    assert forall|id: Seq<char>|
        id != before.me.id@ || placed(before.places(), id) is Some implies #[trigger] placed(
        mid.places(),
        id,
    ) == placed(before.places(), id) by {
        setting_a_place_keeps_the_others(
            before.places(),
            before.me.id,
            super::board::at_origin(),
            id,
        );
    }
    assert(in_order(mid.places()) && placed(mid.places(), before.me.id@) is Some) by {
        setting_a_place_keeps_the_others(
            before.places(),
            before.me.id,
            super::board::at_origin(),
            before.me.id@,
        );
    }
}

proof fn lemma_arranged(places: Seq<Place>, moves: Seq<Place>, id: Seq<char>)
    requires
        in_order(places),
    ensures
        in_order(arranged(places, moves)),
        placed(places, id) matches Some(p) ==> placed(arranged(places, moves), id) is Some
            && placed(arranged(places, moves), id)->0.enabled == p.enabled,
        placed(places, id) is None && placed(arranged(places, moves), id) is Some ==> placed(
            arranged(places, moves),
            id,
        )->0.enabled,
        (forall|i: int| 0 <= i < moves.len() ==> (#[trigger] moves[i]).id@ != id) ==> placed(
            arranged(places, moves),
            id,
        ) == placed(places, id),
        forall|i: int|
            0 <= i < moves.len() && (#[trigger] moves[i]).id@ == id && (forall|j: int|
                i < j < moves.len() ==> (#[trigger] moves[j]).id@ != id) ==> placed(
                arranged(places, moves),
                id,
            ) is Some && placed(arranged(places, moves), id)->0.offset == moves[i].placement.offset,
    decreases moves.len(),
{
    if moves.len() > 0 {
        let front = moves.drop_last();
        let last = moves.last();
        lemma_arranged(places, front, id);
        let before = arranged(places, front);
        let placement = MachinePlacement {
            offset: last.placement.offset,
            enabled: match placed(before, last.id@) {
                Some(p) => p.enabled,
                None => true,
            },
        };
        setting_a_place_keeps_the_others(before, last.id, placement, id);
        if forall|i: int| 0 <= i < moves.len() ==> (#[trigger] moves[i]).id@ != id {
            assert(moves[moves.len() - 1].id@ != id);
            assert forall|i: int| 0 <= i < front.len() implies (#[trigger] front[i]).id@ != id by {
                assert(moves[i].id@ != id);
            }
        }
        assert forall|i: int|
            0 <= i < moves.len() && (#[trigger] moves[i]).id@ == id && (forall|j: int|
                i < j < moves.len() ==> (#[trigger] moves[j]).id@ != id) implies placed(
            arranged(places, moves),
            id,
        ) is Some && placed(arranged(places, moves), id)->0.offset == moves[i].placement.offset by {
            if i < front.len() {
                assert(moves[moves.len() - 1].id@ != id);
                assert(front[i].id@ == id);
                assert forall|j: int| i < j < front.len() implies (#[trigger] front[j]).id@
                    != id by {
                    assert(moves[j].id@ != id);
                }
            }
        }
    }
}

/// An arrangement that someone asks for puts every machine that it names where it was last
/// put, up to the repair; every other machine stays where it was, this machine at least at
/// the origin. Nobody is switched on or off by it, and who is new takes part. Names that are
/// empty, or offsets beyond a million pixels, change nothing at all.
pub proof fn machines_stand_where_they_are_put(
    before: Mind,
    moves: Seq<Place>,
    now: u64,
    after: Mind,
) -> (all: Seq<Place>)
    requires
        rearranged(before, moves, now, after),
        in_order(before.places()),
    ensures
        (exists|i: int|
            0 <= i < moves.len() && ((#[trigger] moves[i]).id@.len() == 0
                || moves[i].placement.offset.x < -1_000_000 || moves[i].placement.offset.x
                > 1_000_000 || moves[i].placement.offset.y < -1_000_000
                || moves[i].placement.offset.y > 1_000_000)) ==> after == before,
        (forall|i: int|
            0 <= i < moves.len() ==> (#[trigger] moves[i]).id@.len() > 0 && -1_000_000
                <= moves[i].placement.offset.x <= 1_000_000 && -1_000_000
                <= moves[i].placement.offset.y <= 1_000_000) ==> {
            &&& after.places() == settled(before, all)
            &&& after.factors() == before.factors()
            &&& forall|i: int|
                0 <= i < moves.len() && (forall|j: int|
                    i < j < moves.len() ==> (#[trigger] moves[j]).id@ != moves[i].id@) ==> (
                placed(all, (#[trigger] moves[i]).id@) matches Some(p) && p.offset
                    == moves[i].placement.offset)
            &&& forall|id: Seq<char>|
                (forall|i: int| 0 <= i < moves.len() ==> (#[trigger] moves[i]).id@ != id) && (id
                    != before.me.id@ || placed(before.places(), id) is Some) ==> #[trigger] placed(
                    all,
                    id,
                ) == placed(before.places(), id)
            &&& forall|id: Seq<char>|
                (#[trigger] placed(all, id)) is Some ==> placed(all, id)->0.enabled == (placed(
                    before.places(),
                    id,
                ) matches Some(p) ==> p.enabled)
        },
{
    if super::board::acceptable(moves) {
        let mid = choose|mid: Mind| #[trigger]
            ensured(before, now, mid) && shared(
                mid,
                settled(mid, arranged(mid.places(), moves)),
                mid.factors(),
                now,
                after,
            );
        let all = arranged(mid.places(), moves);
        lemma_ensured(before, now, mid);
        lemma_same_displays(before, mid, all);
        assert forall|i: int|
            0 <= i < moves.len() && (forall|j: int|
                i < j < moves.len() ==> (#[trigger] moves[j]).id@ != moves[i].id@) implies (placed(
            all,
            (#[trigger] moves[i]).id@,
        ) matches Some(p) && p.offset == moves[i].placement.offset) by {
            lemma_arranged(mid.places(), moves, moves[i].id@);
        }
        assert forall|id: Seq<char>|
            (forall|i: int| 0 <= i < moves.len() ==> (#[trigger] moves[i]).id@ != id) && (id
                != before.me.id@ || placed(before.places(), id) is Some) implies #[trigger] placed(
            all,
            id,
        ) == placed(before.places(), id) by {
            lemma_arranged(mid.places(), moves, id);
        }
        assert forall|id: Seq<char>| (#[trigger] placed(all, id)) is Some implies placed(
            all,
            id,
        )->0.enabled == (placed(before.places(), id) matches Some(p) ==> p.enabled) by {
            lemma_arranged(mid.places(), moves, id);
            if id == before.me.id@ && placed(before.places(), id) is None {
                setting_a_place_keeps_the_others(
                    before.places(),
                    before.me.id,
                    super::board::at_origin(),
                    id,
                );
            }
        }
        all
    } else {
        Seq::empty()
    }
}

/// Switching a machine on or off does that, leaves it where it stands, and touches no other
/// machine; this machine has a place afterwards.
pub proof fn switching_a_machine_moves_nothing(
    before: Mind,
    id: MachineId,
    enabled: bool,
    now: u64,
    after: Mind,
    other: Seq<char>,
)
    requires
        machine_switched(before, id, enabled, now, after),
        in_order(before.places()),
    ensures
        placed(after.places(), id@) matches Some(p) && p.enabled == enabled,
        placed(before.places(), id@) matches Some(old) ==> placed(after.places(), id@)->0.offset
            == old.offset,
        other != id@ && (other != before.me.id@ || placed(before.places(), other) is Some)
            ==> placed(after.places(), other) == placed(before.places(), other),
        placed(after.places(), before.me.id@) is Some,
        after.factors() == before.factors(),
{
    let mid = choose|mid: Mind| #[trigger]
        ensured(before, now, mid) && shared(
            mid,
            with_place(
                mid.places(),
                id,
                MachinePlacement {
                    offset: match placed(mid.places(), id@) {
                        Some(p) => p.offset,
                        None => crate::geometry::Vec2I { x: 0, y: 0 },
                    },
                    enabled,
                },
            ),
            mid.factors(),
            now,
            after,
        );
    lemma_ensured(before, now, mid);
    let placement = MachinePlacement {
        offset: match placed(mid.places(), id@) {
            Some(p) => p.offset,
            None => crate::geometry::Vec2I { x: 0, y: 0 },
        },
        enabled,
    };
    setting_a_place_keeps_the_others(mid.places(), id, placement, other);
    setting_a_place_keeps_the_others(mid.places(), id, placement, before.me.id@);
}

/// A machine that has no place is given one, beside what is placed already: up to the repair
/// every machine with a place keeps it, and the new one takes part.
pub proof fn a_new_machine_gets_a_place(
    before: Mind,
    id: MachineId,
    now: u64,
    after: Mind,
) -> (all: Seq<Place>)
    requires
        auto_placed(before, id, now, after),
        in_order(before.places()),
    ensures
        placed(before.places(), id@) is Some || id@ == before.me.id@ ==> after == before,
        placed(before.places(), id@) is None && id@ != before.me.id@ ==> {
            &&& after.places() == settled(before, all)
            &&& after.factors() == before.factors()
            &&& placed(all, id@) matches Some(p) && p.enabled
            &&& placed(after.places(), id@) matches Some(p) && p.enabled
            &&& forall|other: Seq<char>|
                placed(before.places(), other) is Some ==> #[trigger] placed(all, other) == placed(
                    before.places(),
                    other,
                )
        },
{
    if placed(before.places(), id@) is None && id@ != before.me.id@ {
        let mid = choose|mid: Mind| #[trigger]
            ensured(before, now, mid) && shared(
                mid,
                settled(
                    mid,
                    with_place(
                        mid.places(),
                        id,
                        MachinePlacement {
                            offset: super::board::newcomer(mid, mid.places(), id@),
                            enabled: true,
                        },
                    ),
                ),
                mid.factors(),
                now,
                after,
            );
        let placement = MachinePlacement {
            offset: super::board::newcomer(mid, mid.places(), id@),
            enabled: true,
        };
        let all = with_place(mid.places(), id, placement);
        lemma_ensured(before, now, mid);
        lemma_same_displays(before, mid, all);
        setting_a_place_keeps_the_others(mid.places(), id, placement, id@);
        lemma_settled_enabled(before, all, id@);
        assert forall|other: Seq<char>|
            placed(before.places(), other) is Some implies #[trigger] placed(all, other) == placed(
            before.places(),
            other,
        ) by {
            setting_a_place_keeps_the_others(mid.places(), id, placement, other);
        }
        all
    } else {
        Seq::empty()
    }
}

proof fn lemma_with_factor(factors: Seq<Factor>, factor: Factor, a: Seq<char>, b: Seq<char>)
    ensures
        factor_between(with_factor(factors, factor), a, b) == if is_between(factor, a, b) {
            factor.factor
        } else {
            factor_between(factors, a, b)
        },
    decreases factors.len(),
{
    let after = with_factor(factors, factor);
    if factors.len() == 0 {
        assert(after.last() == factor);
        assert(after.drop_last() =~= Seq::empty());
        assert(factor_between(after.drop_last(), a, b) == factor_between(Seq::empty(), a, b));
    } else if is_between(factors.last(), factor.a@, factor.b@) {
        assert(after.last() == factor);
        assert(after.drop_last() =~= factors.drop_last());
    } else {
        lemma_with_factor(factors.drop_last(), factor, a, b);
        assert(after.last() == factors.last());
        assert(after.drop_last() =~= with_factor(factors.drop_last(), factor));
    }
}

/// Setting how fast the pointer is between two machines sets it in both directions, from a
/// quarter to four times as fast, and changes neither the speed between any two others nor
/// where anyone stands.
pub proof fn a_speed_holds_both_ways(
    before: Mind,
    factor: Factor,
    now: u64,
    after: Mind,
    a: Seq<char>,
    b: Seq<char>,
    id: Seq<char>,
)
    requires
        sped(before, factor, now, after),
        in_order(before.places()),
    ensures
        !(0x4000 <= factor.factor <= 0x4_0000) ==> after == before,
        0x4000 <= factor.factor <= 0x4_0000 ==> {
            &&& factor_between(after.factors(), factor.a@, factor.b@) == factor.factor
            &&& factor_between(after.factors(), factor.b@, factor.a@) == factor.factor
            &&& !(a == factor.a@ && b == factor.b@) && !(a == factor.b@ && b == factor.a@)
                ==> factor_between(after.factors(), a, b) == factor_between(before.factors(), a, b)
            &&& id != before.me.id@ || placed(before.places(), id) is Some ==> placed(
                after.places(),
                id,
            ) == placed(before.places(), id)
        },
{
    if 0x4000 <= factor.factor <= 0x4_0000 {
        let mid = choose|mid: Mind| #[trigger]
            ensured(before, now, mid) && shared(
                mid,
                mid.places(),
                with_factor(mid.factors(), factor),
                now,
                after,
            );
        lemma_ensured(before, now, mid);
        lemma_with_factor(mid.factors(), factor, factor.a@, factor.b@);
        lemma_with_factor(mid.factors(), factor, factor.b@, factor.a@);
        lemma_with_factor(mid.factors(), factor, a, b);
    }
}

proof fn lemma_shape_moves(displays: Seq<DisplayRect>, offset: Vec2I, by: Vec2I, to: Vec2I)
    requires
        to.x == offset.x + by.x,
        to.y == offset.y + by.y,
    ensures
        shape_of(displays, to) == moved(shape_of(displays, offset), by.x as int, by.y as int),
    decreases displays.len(),
{
    if displays.len() > 0 {
        lemma_shape_moves(displays.drop_last(), offset, by, to);
        assert(shape_of(displays, to) =~= moved(
            shape_of(displays, offset),
            by.x as int,
            by.y as int,
        ));
    } else {
        assert(shape_of(displays, to) =~= moved(
            shape_of(displays, offset),
            by.x as int,
            by.y as int,
        ));
    }
}

/// Repairing an arrangement puts every machine where the joined canvas has its displays, and
/// changes nothing of it but where it stands; machines keep their order. Nothing moves as
/// long as the displays of some machine are not known. Left out are offsets that would leave
/// their range.
pub proof fn a_repair_puts_machines_onto_the_canvas(mind: Mind, places: Seq<Place>, i: int)
    requires
        0 <= i < places.len(),
        places.len() <= usize::MAX,
        ({
            let by = repairs(mind, places)[i];
            &&& i32::MIN <= places[i].placement.offset.x + by.x <= i32::MAX
            &&& i32::MIN <= places[i].placement.offset.y + by.y <= i32::MAX
        }),
    ensures
        settled(mind, places).len() == places.len(),
        settled(mind, places)[i].id == places[i].id,
        settled(mind, places)[i].placement.enabled == places[i].placement.enabled,
        (exists|k: int| 0 <= k < places.len() && mind.displays((#[trigger] places[k]).id@).len() == 0)
            ==> settled(mind, places) == places,
        (forall|k: int| 0 <= k < places.len() ==> mind.displays((#[trigger] places[k]).id@).len() > 0)
            ==> shape_of(
            mind.displays(places[i].id@),
            settled(mind, places)[i].placement.offset,
        ) == joined_canvas(
            Seq::new(
                places.len(),
                |k: int| shape_of(mind.displays(places[k].id@), places[k].placement.offset),
            ),
            usual_rules(),
        ).placed[i],
{
    let all = body_shapes(mind, places);
    assert(all =~= Seq::new(
        places.len(),
        |k: int| shape_of(mind.displays(places[k].id@), places[k].placement.offset),
    ));
    lemma_shape_of(mind.displays(places[i].id@), places[i].placement.offset);
    assert(bounded(all[i], REACH as int)) by {
        assert forall|n: int| 0 <= n < all[i].len() implies (#[trigger] all[i][n]).bounded(
            REACH as int,
        ) by {
            assert(all[i][n].bounded(0x2_0000_0000));
        }
    }
    translations_lead_to_the_repair(all, usual_rules(), i);
    let by = repairs(mind, places)[i];
    let offset = places[i].placement.offset;
    let to = Vec2I { x: (offset.x + by.x) as i32, y: (offset.y + by.y) as i32 };
    lemma_shape_moves(mind.displays(places[i].id@), offset, by, to);
    if super::board::all_known(mind, places) && !stirs(mind, places) {
        assert(by == Vec2I { x: 0, y: 0 });
    }
}

} // verus!
