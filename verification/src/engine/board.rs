//! The arrangement that all machines share, and what follows from it.

use super::pointer::{contains_link, has_link};
use super::state::{
    find_place, is_between, lemma_room_is, lies_between, placed, set_place, with_place, Act, Engine,
    Factor, Focus, Frame, LayoutDoc, Mind, Place, LATEST,
};
use crate::arrange::bounds::{
    bounded, hull_of, lemma_shape_of, shape_of, Body, Bounds, Rules, MIN_SEAM, REACH,
};
use crate::arrange::place::{
    all_bounded, clamp_i32, placement_of, resolve, shapes, to_i32, Scene,
};
use crate::arrange::settle::{as_translations, joined_canvas, normalize, CANVAS};
use crate::geometry::{DisplayRect, Vec2I, PIXEL};
use crate::layout::{
    compute_links, edge_specs_for, links_of, specs_of, EdgeLink, EdgeSpec, MachineGeom,
    MachinePlacement,
};
use crate::machine::{supersedes, MachineId, Stamp};
use std::sync::Arc;
use vstd::prelude::*;

verus! {

/// The farthest that a machine may be put on the canvas, in pixels.
pub const MAX_COORDINATE: i32 = 1_000_000;

/// Where a machine stands at first.
pub open spec fn at_origin() -> MachinePlacement {
    MachinePlacement { offset: Vec2I { x: 0, y: 0 }, enabled: true }
}

pub open spec fn usual_rules() -> Rules {
    Rules { min_seam: MIN_SEAM, align_tolerance: 0 }
}

/// A document made of its parts.
pub open spec fn is_doc(
    doc: Arc<LayoutDoc>,
    stamp: Stamp,
    machines: Seq<Place>,
    factors: Seq<Factor>,
) -> bool {
    doc.stamp == stamp && doc.machines@ == machines && doc.sensitivity@ == factors
}

pub open spec fn shifted(offset: Vec2I, by: Vec2I) -> Vec2I {
    Vec2I { x: clamp_i32(offset.x + by.x), y: clamp_i32(offset.y + by.y) }
}

fn shift(offset: Vec2I, by: Vec2I) -> (r: Vec2I)
    ensures
        r == shifted(offset, by),
{
    Vec2I {
        x: to_i32(offset.x as i64 + by.x as i64),
        y: to_i32(offset.y as i64 + by.y as i64),
    }
}

/// The bodies that placed machines make on the canvas.
pub open spec fn body_shapes(mind: Mind, places: Seq<Place>) -> Seq<Seq<Bounds>> {
    Seq::new(
        places.len(),
        |i: int| shape_of(mind.displays(places[i].id@), places[i].placement.offset),
    )
}

/// The displays of every placed machine are known.
pub open spec fn all_known(mind: Mind, places: Seq<Place>) -> bool {
    forall|i: int| 0 <= i < places.len() ==> mind.displays((#[trigger] places[i]).id@).len() > 0
}

/// The moves that make one cluster of the machines.
pub open spec fn repairs(mind: Mind, places: Seq<Place>) -> Seq<Vec2I> {
    as_translations(joined_canvas(body_shapes(mind, places), usual_rules()).deltas)
}

/// The arrangement has to be repaired, and can be.
pub open spec fn stirs(mind: Mind, places: Seq<Place>) -> bool {
    &&& all_known(mind, places)
    &&& exists|i: int|
        0 <= i < repairs(mind, places).len() && (#[trigger] repairs(mind, places)[i]) != (Vec2I {
            x: 0,
            y: 0,
        })
}

/// The places after a repair.
pub open spec fn settled(mind: Mind, places: Seq<Place>) -> Seq<Place> {
    if !stirs(mind, places) {
        places
    } else {
        let moves = repairs(mind, places);
        Seq::new(
            places.len(),
            |i: int|
                if i < moves.len() {
                    Place {
                        id: places[i].id,
                        placement: MachinePlacement {
                            offset: shifted(places[i].placement.offset, moves[i]),
                            ..places[i].placement
                        },
                    }
                } else {
                    places[i]
                },
        )
    }
}

/// The right end of all machines, or the origin.
pub open spec fn rightmost(all: Seq<Seq<Bounds>>) -> int
    decreases all.len(),
{
    if all.len() == 0 {
        i64::MIN as int
    } else {
        let before = rightmost(all.drop_last());
        match hull_of(all.last()) {
            Some(hull) => if hull.right > before {
                hull.right as int
            } else {
                before
            },
            None => before,
        }
    }
}

/// Where a machine that is new starts out: to the right of all others, then touching them.
pub open spec fn newcomer(mind: Mind, places: Seq<Place>, id: Seq<char>) -> Vec2I {
    let all = body_shapes(mind, places);
    let end = rightmost(all);
    let start = Vec2I {
        x: if end == i64::MIN {
            0
        } else {
            clamp_i32(end)
        },
        y: 0,
    };
    let moving = shape_of(mind.displays(id), start);
    let rest = if moving.len() == 0 {
        None
    } else {
        placement_of(
            Scene {
                moving,
                blocking: all,
                rules: usual_rules(),
                desired: Vec2I { x: 0, y: 0 },
            },
            all,
            None,
        )
    };
    match rest {
        Some(placement) => shifted(start, placement.delta),
        None => start,
    }
}

/// Places of one arrangement, and those of another that it lacks.
pub open spec fn combined(places: Seq<Place>, more: Seq<Place>) -> Seq<Place>
    decreases more.len(),
{
    if more.len() == 0 {
        places
    } else {
        let before = combined(places, more.drop_last());
        let last = more.last();
        if placed(before, last.id@) is Some {
            before
        } else {
            with_place(before, last.id, last.placement)
        }
    }
}

/// Places with some set anew; who had none is enabled.
pub open spec fn arranged(places: Seq<Place>, moves: Seq<Place>) -> Seq<Place>
    decreases moves.len(),
{
    if moves.len() == 0 {
        places
    } else {
        let before = arranged(places, moves.drop_last());
        let last = moves.last();
        with_place(
            before,
            last.id,
            MachinePlacement {
                offset: last.placement.offset,
                enabled: match placed(before, last.id@) {
                    Some(p) => p.enabled,
                    None => true,
                },
            },
        )
    }
}

/// Speeds with one set anew.
pub open spec fn with_factor(factors: Seq<Factor>, factor: Factor) -> Seq<Factor>
    decreases factors.len(),
{
    if factors.len() == 0 {
        seq![factor]
    } else if is_between(factors.last(), factor.a@, factor.b@) {
        factors.drop_last().push(factor)
    } else {
        with_factor(factors.drop_last(), factor).push(factors.last())
    }
}

/// The arrangement is changed, stamped and shared.
pub open spec fn shared(
    before: Mind,
    machines: Seq<Place>,
    factors: Seq<Factor>,
    now: u64,
    after: Mind,
) -> bool {
    exists|doc: Arc<LayoutDoc>| #[trigger]
        is_doc(
            doc,
            Stamp { lamport: (before.layout_lamport + 1) as u64, writer: before.me.id },
            machines,
            factors,
        ) && after == (Mind {
            doc: Some(doc),
            layout_lamport: (before.layout_lamport + 1) as u64,
            ..before
        }).doing(Act::Broadcast(Frame::LayoutSync(doc))).dirty(now).touched(now)
}

/// This machine has a place in the arrangement.
pub open spec fn ensured(before: Mind, now: u64, after: Mind) -> bool {
    if placed(before.places(), before.me.id@) is Some {
        after == before
    } else {
        shared(
            before,
            with_place(before.places(), before.me.id, at_origin()),
            before.factors(),
            now,
            after,
        )
    }
}

/// The arrangement is repaired, and shared where that moved anything.
pub open spec fn repaired(before: Mind, now: u64, after: Mind) -> bool {
    if before.doc is Some && stirs(before, before.places()) {
        shared(before, settled(before, before.places()), before.factors(), now, after)
    } else {
        after == before
    }
}

/// A machine that has no place is given one.
pub open spec fn auto_placed(before: Mind, id: MachineId, now: u64, after: Mind) -> bool {
    if id@ == before.me.id@ || placed(before.places(), id@) is Some {
        after == before
    } else {
        exists|mid: Mind| #[trigger]
            ensured(before, now, mid) && shared(
                mid,
                settled(
                    mid,
                    with_place(
                        mid.places(),
                        id,
                        MachinePlacement {
                            offset: newcomer(mid, mid.places(), id@),
                            enabled: true,
                        },
                    ),
                ),
                mid.factors(),
                now,
                after,
            )
    }
}

/// A machine is switched on or off.
pub open spec fn machine_switched(
    before: Mind,
    id: MachineId,
    enabled: bool,
    now: u64,
    after: Mind,
) -> bool {
    exists|mid: Mind| #[trigger]
        ensured(before, now, mid) && shared(
            mid,
            with_place(
                mid.places(),
                id,
                MachinePlacement {
                    offset: match placed(mid.places(), id@) {
                        Some(p) => p.offset,
                        None => Vec2I { x: 0, y: 0 },
                    },
                    enabled,
                },
            ),
            mid.factors(),
            now,
            after,
        )
}

/// An arrangement that someone may ask for.
pub open spec fn acceptable(moves: Seq<Place>) -> bool {
    forall|i: int|
        0 <= i < moves.len() ==> (#[trigger] moves[i]).id@.len() > 0 && -MAX_COORDINATE
            <= moves[i].placement.offset.x <= MAX_COORDINATE && -MAX_COORDINATE
            <= moves[i].placement.offset.y <= MAX_COORDINATE
}

/// Whether someone may ask for an arrangement.
pub fn is_acceptable(moves: &Vec<Place>) -> (r: bool)
    ensures
        r == acceptable(moves@),
{
    for i in 0..moves.len()
        invariant
            forall|k: int|
                0 <= k < i ==> (#[trigger] moves@[k]).id@.len() > 0 && -MAX_COORDINATE
                    <= moves@[k].placement.offset.x <= MAX_COORDINATE && -MAX_COORDINATE
                    <= moves@[k].placement.offset.y <= MAX_COORDINATE,
    {
        let offset = moves[i].placement.offset;
        let named: bool = moves[i].id.0.as_str().unicode_len() > 0;
        if !named || offset.x < -MAX_COORDINATE || offset.x > MAX_COORDINATE || offset.y
            < -MAX_COORDINATE || offset.y > MAX_COORDINATE {
            return false;
        }
    }
    true
}

/// Machines are put somewhere, all at once.
pub open spec fn rearranged(before: Mind, moves: Seq<Place>, now: u64, after: Mind) -> bool {
    if !acceptable(moves) {
        after == before
    } else {
        exists|mid: Mind| #[trigger]
            ensured(before, now, mid) && shared(
                mid,
                settled(mid, arranged(mid.places(), moves)),
                mid.factors(),
                now,
                after,
            )
    }
}

/// The pointer's speed between two machines is set.
pub open spec fn sped(before: Mind, factor: Factor, now: u64, after: Mind) -> bool {
    if !(PIXEL / 4 <= factor.factor <= 4 * PIXEL) {
        after == before
    } else {
        exists|mid: Mind| #[trigger]
            ensured(before, now, mid) && shared(
                mid,
                mid.places(),
                with_factor(mid.factors(), factor),
                now,
                after,
            )
    }
}

/// Another machine's arrangement is later than the one known.
pub open spec fn is_newer(mind: Mind, doc: Arc<LayoutDoc>) -> bool {
    mind.doc is None || supersedes(doc.stamp, mind.doc->0.stamp)
}

/// The later of two arrangements.
pub open spec fn winner(mind: Mind, doc: Arc<LayoutDoc>) -> Arc<LayoutDoc> {
    if is_newer(mind, doc) {
        doc
    } else {
        mind.doc->0
    }
}

/// The places of the earlier one.
pub open spec fn loser(mind: Mind, doc: Arc<LayoutDoc>) -> Seq<Place> {
    if is_newer(mind, doc) {
        mind.places()
    } else {
        doc.machines@
    }
}

impl Mind {
    /// Another machine's count of changes is heard of.
    pub open spec fn counted(self, doc: Arc<LayoutDoc>) -> Mind {
        Mind {
            layout_lamport: if doc.stamp.lamport > self.layout_lamport {
                doc.stamp.lamport
            } else {
                self.layout_lamport
            },
            ..self
        }
    }

    /// The later arrangement is adopted.
    pub open spec fn adopting(self, doc: Arc<LayoutDoc>) -> Mind {
        Mind { doc: Some(winner(self, doc)), ..self.counted(doc) }
    }
}

/// Another machine's arrangement: the later one counts, and no machine is lost.
pub open spec fn layout_heard(before: Mind, doc: Arc<LayoutDoc>, now: u64, after: Mind) -> bool {
    let kept = winner(before, doc);
    let all = combined(kept.machines@, loser(before, doc));
    let grown = all != kept.machines@;
    let current = before.adopting(doc);
    if !is_newer(before, doc) && !grown {
        after == before.counted(doc)
    } else if grown || stirs(current, all) {
        shared(current, settled(current, all), kept.sensitivity@, now, after)
    } else {
        after == current.dirty(now).doing(Act::Broadcast(Frame::LayoutSync(doc))).touched(now)
    }
}

/// The machines as the links between them are reckoned: all of them, or those that take
/// part and can be reached.
pub open spec fn are_geoms(mind: Mind, geoms: Seq<MachineGeom>, active: bool) -> bool {
    &&& geoms.len() == mind.places().len()
    &&& forall|i: int|
        0 <= i < geoms.len() ==> {
            let place = mind.places()[i];
            let geom = #[trigger] geoms[i];
            &&& geom.id == place.id
            &&& geom.displays@ == mind.displays(place.id@)
            &&& geom.placement.offset == place.placement.offset
            &&& geom.placement.enabled == (!active || place.placement.enabled)
            &&& geom.reachable == (!active || place.id@ == mind.me.id@ || mind.usable(place.id@))
        }
}

/// The links that leave a machine.
pub open spec fn leaving(links: Seq<EdgeLink>, id: Seq<char>) -> Seq<EdgeLink>
    decreases links.len(),
{
    if links.len() == 0 {
        Seq::empty()
    } else if links.last().from@ == id {
        leaving(links.drop_last(), id).push(links.last())
    } else {
        leaving(links.drop_last(), id)
    }
}

impl Mind {
    /// Links and sessions follow the arrangement and what can be reached.
    pub open spec fn relinked(
        self,
        geo: Seq<EdgeLink>,
        links: Seq<EdgeLink>,
        specs: Arc<Vec<EdgeSpec>>,
        now: u64,
    ) -> Mind {
        let linked = Mind { geo_links: geo, links, ..self };
        let pressed = if self.crossing matches Some(c) && !has_link(links, c.link) {
            Mind { crossing: None, ..linked }.touched(now)
        } else {
            linked
        };
        let valid = pressed.reconciled(now);
        Mind {
            armed: leaving(geo, self.me.id@),
            factor: match valid.focus {
                Focus::Remote(target) => self.speed(target@),
                _ => PIXEL,
            },
            ..valid.doing(Act::SetEdges(specs))
        }
    }
}

/// What follows from the arrangement is worked out anew.
pub open spec fn recomputed(before: Mind, now: u64, after: Mind) -> bool {
    exists|geo: Seq<MachineGeom>, active: Seq<MachineGeom>, specs: Arc<Vec<EdgeSpec>>|
        {
            &&& #[trigger] are_geoms(before, geo, false)
            &&& #[trigger] are_geoms(before, active, true)
            &&& #[trigger] specs@ == specs_of(
                links_of(geo, geo.len()),
                before.me.id@,
                links_of(geo, geo.len()).len(),
            )
            &&& after == before.relinked(
                links_of(geo, geo.len()),
                links_of(active, active.len()),
                specs,
                now,
            )
        }
}

pub(crate) fn copied_places(places: &Vec<Place>) -> (r: Vec<Place>)
    ensures
        r@ == places@,
{
    let mut out: Vec<Place> = Vec::new();
    for i in 0..places.len()
        invariant
            out@ =~= places@.take(i as int),
    {
        out.push(places[i].clone());
    }
    out
}

pub(crate) fn copied_factors(factors: &Vec<Factor>) -> (r: Vec<Factor>)
    ensures
        r@ == factors@,
{
    let mut out: Vec<Factor> = Vec::new();
    for i in 0..factors.len()
        invariant
            out@ =~= factors@.take(i as int),
    {
        out.push(factors[i].clone());
    }
    out
}

fn copied_displays(displays: &Vec<DisplayRect>) -> (r: Vec<DisplayRect>)
    ensures
        r@ == displays@,
{
    let mut out: Vec<DisplayRect> = Vec::new();
    for i in 0..displays.len()
        invariant
            out@ =~= displays@.take(i as int),
    {
        out.push(displays[i].clone());
    }
    out
}

impl Engine {
    pub(crate) fn places(&self) -> (r: Vec<Place>)
        ensures
            r@ == self@.places(),
    {
        match &self.doc {
            Some(doc) => copied_places(&doc.machines),
            None => Vec::new(),
        }
    }

    pub(crate) fn factors(&self) -> (r: Vec<Factor>)
        ensures
            r@ == self@.factors(),
    {
        match &self.doc {
            Some(doc) => copied_factors(&doc.sensitivity),
            None => Vec::new(),
        }
    }

    fn body_of(&self, id: &MachineId, offset: Vec2I) -> (r: Body)
        ensures
            r@ == shape_of(self@.displays(id@), offset),
    {
        match self.info_of(id) {
            Some(info) => Body::new(info.displays.as_slice(), offset),
            None => {
                let r = Body::default();
                assert(r@ =~= shape_of(Seq::<DisplayRect>::empty(), offset));
                r
            },
        }
    }

    fn bodies(&self, places: &Vec<Place>) -> (r: Vec<Body>)
        ensures
            shapes(r@) == body_shapes(self@, places@),
            all_bounded(shapes(r@), 0x2_0000_0000),
    {
        let mut out: Vec<Body> = Vec::new();
        for i in 0..places.len()
            invariant
                out@.len() == i,
                forall|k: int|
                    0 <= k < i ==> (#[trigger] out@[k])@ == shape_of(
                        self@.displays(places@[k].id@),
                        places@[k].placement.offset,
                    ),
        {
            out.push(self.body_of(&places[i].id, places[i].placement.offset));
        }
        assert(shapes(out@) =~= body_shapes(self@, places@));
        assert forall|i: int| 0 <= i < shapes(out@).len() implies bounded(
            #[trigger] shapes(out@)[i],
            0x2_0000_0000,
        ) by {
            lemma_shape_of(self@.displays(places@[i].id@), places@[i].placement.offset);
        }
        out
    }

    fn knows_all(&self, places: &Vec<Place>) -> (r: bool)
        ensures
            r == all_known(self@, places@),
    {
        for i in 0..places.len()
            invariant
                forall|k: int|
                    0 <= k < i ==> self@.displays((#[trigger] places@[k]).id@).len() > 0,
        {
            let known: bool = match self.info_of(&places[i].id) {
                Some(info) => info.displays.len() > 0,
                None => false,
            };
            if !known {
                assert(self@.displays(places@[i as int].id@).len() == 0);
                return false;
            }
        }
        true
    }

    /// Repairs an arrangement into one cluster without overlaps; whether anything moved.
    pub fn settle_layout(&self, places: &mut Vec<Place>) -> (r: bool)
        ensures
            final(places)@ == settled(self@, old(places)@),
            r == stirs(self@, old(places)@),
    {
        let ghost given = places@;
        if !self.knows_all(places) {
            return false;
        }
        let bodies = self.bodies(places);
        let ghost all = shapes(bodies@);
        assert forall|i: int| 0 <= i < all.len() implies bounded(
            #[trigger] all[i],
            CANVAS as int,
        ) by {
            assert(bounded(all[i], 0x2_0000_0000));
            lemma_wider_shape(all[i]);
        }
        assert(bodies.len() <= usize::MAX);
        let rules = Rules::default();
        let moves = normalize(bodies.as_slice(), &rules);
        assert(moves@ == repairs(self@, given));
        let mut stirred: bool = false;
        for i in 0..moves.len()
            invariant
                stirred == exists|k: int| 0 <= k < i && (#[trigger] moves@[k]) != (Vec2I {
                    x: 0,
                    y: 0,
                }),
        {
            if moves[i].x != 0 || moves[i].y != 0 {
                assert(moves@[i as int] != (Vec2I { x: 0, y: 0 }));
                stirred = true;
            }
        }
        if !stirred {
            return false;
        }
        let mut i: usize = 0;
        while i < places.len()
            invariant
                places@.len() == given.len(),
                i <= given.len(),
                moves@ == repairs(self@, given),
                stirs(self@, given),
                forall|k: int| 0 <= k < i ==> (#[trigger] places@[k]) == settled(self@, given)[k],
                forall|k: int| i <= k < given.len() ==> (#[trigger] places@[k]) == given[k],
            decreases given.len() - i,
        {
            if i < moves.len() {
                let id = places[i].id.clone();
                let placement = MachinePlacement {
                    offset: shift(places[i].placement.offset, moves[i]),
                    enabled: places[i].placement.enabled,
                };
                places.set(i, Place { id, placement });
            }
            i = i + 1;
        }
        assert(places@ =~= settled(self@, given));
        true
    }

    pub(crate) fn share_layout(&mut self, machines: Vec<Place>, factors: Vec<Factor>, now: u64)
        requires
            old(self).wf(),
            old(self)@.layout_lamport < u64::MAX,
            now <= LATEST,
        ensures
            final(self).wf(),
            shared(old(self)@, machines@, factors@, now, final(self)@),
    {
        self.layout_lamport = self.layout_lamport + 1;
        let stamp = Stamp { lamport: self.layout_lamport, writer: self.me.id.clone() };
        let doc = Arc::new(LayoutDoc { stamp, machines, sensitivity: factors });
        self.doc = Some(doc.clone());
        assert(is_doc(doc, stamp, machines@, factors@));
        self.act(Act::Broadcast(Frame::LayoutSync(doc)));
        self.mark_dirty(now);
        self.touch_ui(now);
    }

    /// Gives this machine a place in the arrangement.
    pub fn ensure_doc(&mut self, now: u64)
        requires
            old(self).wf(),
            old(self)@.layout_lamport < u64::MAX,
            now <= LATEST,
        ensures
            final(self).wf(),
            ensured(old(self)@, now, final(self)@),
            final(self)@.layout_lamport <= old(self)@.layout_lamport + 1,
    {
        let mut machines = self.places();
        if find_place(&machines, &self.me.id).is_some() {
            return ;
        }
        set_place(
            &mut machines,
            &self.me.id,
            MachinePlacement { offset: Vec2I { x: 0, y: 0 }, enabled: true },
        );
        let factors = self.factors();
        self.share_layout(machines, factors, now);
    }

    /// Repairs the arrangement, and shares it where that moved anything.
    pub fn repair_layout(&mut self, now: u64)
        requires
            old(self).wf(),
            old(self)@.layout_lamport < u64::MAX,
            now <= LATEST,
        ensures
            final(self).wf(),
            repaired(old(self)@, now, final(self)@),
            final(self)@.layout_lamport <= old(self)@.layout_lamport + 1,
    {
        if self.doc.is_none() {
            return ;
        }
        let mut machines = self.places();
        if self.settle_layout(&mut machines) {
            let factors = self.factors();
            self.share_layout(machines, factors, now);
        }
    }

    fn newcomer_offset(&self, places: &Vec<Place>, id: &MachineId) -> (r: Vec2I)
        ensures
            r == newcomer(self@, places@, id@),
    {
        let bodies = self.bodies(places);
        let ghost all = shapes(bodies@);
        let mut end: i64 = i64::MIN;
        assert(all.take(0) =~= Seq::empty());
        for i in 0..bodies.len()
            invariant
                all == shapes(bodies@),
                end == rightmost(all.take(i as int)),
        {
            assert(all.take(i + 1).drop_last() =~= all.take(i as int));
            if let Some(hull) = bodies[i].bounds() {
                if hull.right > end {
                    end = hull.right;
                }
            }
        }
        assert(all.take(all.len() as int) =~= all);
        let start = Vec2I {
            x: if end == i64::MIN {
                0
            } else {
                to_i32(end)
            },
            y: 0,
        };
        let moving = self.body_of(id, start);
        let rules = Rules::default();
        proof {
            lemma_shape_of(self@.displays(id@), start);
            lemma_wider_reach(moving@);
            assert forall|i: int| 0 <= i < all.len() implies bounded(
                #[trigger] all[i],
                REACH as int,
            ) by {
                assert(bounded(all[i], 0x2_0000_0000));
                lemma_wider_reach(all[i]);
            }
        }
        match resolve(&moving, Vec2I { x: 0, y: 0 }, bodies.as_slice(), &rules, None) {
            Some(placement) => shift(start, placement.delta),
            None => start,
        }
    }

    /// Gives a machine that has no place one, beside the others.
    pub fn auto_place(&mut self, id: &MachineId, now: u64)
        requires
            old(self).wf(),
            old(self)@.layout_lamport < u64::MAX - 1,
            now <= LATEST,
        ensures
            final(self).wf(),
            auto_placed(old(self)@, *id, now, final(self)@),
            final(self)@.layout_lamport <= old(self)@.layout_lamport + 2,
    {
        if id.same(&self.me.id) {
            return ;
        }
        let known = self.places();
        if find_place(&known, id).is_some() {
            return ;
        }
        self.ensure_doc(now);
        let ghost mid = self@;
        assert(ensured(old(self)@, now, mid));
        let mut machines = self.places();
        let offset = self.newcomer_offset(&machines, id);
        set_place(&mut machines, id, MachinePlacement { offset, enabled: true });
        let _ = self.settle_layout(&mut machines);
        let factors = self.factors();
        self.share_layout(machines, factors, now);
    }

    pub(crate) fn set_machine_enabled(&mut self, id: &MachineId, enabled: bool, now: u64)
        requires
            old(self).wf(),
            old(self)@.layout_lamport < u64::MAX - 1,
            now <= LATEST,
        ensures
            final(self).wf(),
            machine_switched(old(self)@, *id, enabled, now, final(self)@),
    {
        self.ensure_doc(now);
        let ghost mid = self@;
        assert(ensured(old(self)@, now, mid));
        let mut machines = self.places();
        let offset = match find_place(&machines, id) {
            Some(p) => p.offset,
            None => Vec2I { x: 0, y: 0 },
        };
        set_place(&mut machines, id, MachinePlacement { offset, enabled });
        let factors = self.factors();
        self.share_layout(machines, factors, now);
    }

    pub(crate) fn set_arrangement(&mut self, moves: &Vec<Place>, now: u64)
        requires
            old(self).wf(),
            old(self)@.layout_lamport < u64::MAX - 1,
            now <= LATEST,
        ensures
            final(self).wf(),
            rearranged(old(self)@, moves@, now, final(self)@),
    {
        if !is_acceptable(moves) {
            return ;
        }
        self.ensure_doc(now);
        let ghost mid = self@;
        assert(ensured(old(self)@, now, mid));
        let mut machines = self.places();
        assert(moves@.take(0) =~= Seq::empty());
        for i in 0..moves.len()
            invariant
                machines@ == arranged(mid.places(), moves@.take(i as int)),
        {
            assert(moves@.take(i + 1).drop_last() =~= moves@.take(i as int));
            let enabled: bool = match find_place(&machines, &moves[i].id) {
                Some(p) => p.enabled,
                None => true,
            };
            set_place(
                &mut machines,
                &moves[i].id,
                MachinePlacement { offset: moves[i].placement.offset, enabled },
            );
        }
        assert(moves@.take(moves@.len() as int) =~= moves@);
        let _ = self.settle_layout(&mut machines);
        let factors = self.factors();
        self.share_layout(machines, factors, now);
    }

    pub(crate) fn set_sensitivity(&mut self, factor: Factor, now: u64)
        requires
            old(self).wf(),
            old(self)@.layout_lamport < u64::MAX - 1,
            now <= LATEST,
        ensures
            final(self).wf(),
            sped(old(self)@, factor, now, final(self)@),
    {
        if factor.factor < PIXEL / 4 || factor.factor > 4 * PIXEL {
            return ;
        }
        self.ensure_doc(now);
        let ghost mid = self@;
        assert(ensured(old(self)@, now, mid));
        let machines = self.places();
        let mut factors = self.factors();
        set_factor(&mut factors, factor);
        self.share_layout(machines, factors, now);
    }

    fn combine(places: &mut Vec<Place>, more: &Vec<Place>) -> (r: bool)
        ensures
            final(places)@ == combined(old(places)@, more@),
            r == (final(places)@ != old(places)@),
    {
        let ghost given = places@;
        let mut grown: bool = false;
        assert(more@.take(0) =~= Seq::empty());
        for i in 0..more.len()
            invariant
                places@ == combined(given, more@.take(i as int)),
                grown ==> places@.len() > given.len(),
                !grown ==> places@ == given,
        {
            assert(more@.take(i + 1).drop_last() =~= more@.take(i as int));
            if find_place(places, &more[i].id).is_none() {
                proof {
                    lemma_room_is(places@, more@[i as int].id@);
                }
                set_place(places, &more[i].id, more[i].placement);
                grown = true;
            }
        }
        assert(more@.take(more@.len() as int) =~= more@);
        grown
    }

    /// Another machine's arrangement.
    pub fn hear_layout(&mut self, doc: Arc<LayoutDoc>, now: u64)
        requires
            old(self).wf(),
            old(self)@.layout_lamport < u64::MAX,
            doc.stamp.lamport < u64::MAX,
            now <= LATEST,
        ensures
            final(self).wf(),
            layout_heard(old(self)@, doc, now, final(self)@),
    {
        if doc.stamp.lamport > self.layout_lamport {
            self.layout_lamport = doc.stamp.lamport;
        }
        let newer: bool = match &self.doc {
            None => true,
            Some(known) => doc.stamp.after(&known.stamp),
        };
        let lost: Vec<Place> = if newer {
            self.places()
        } else {
            copied_places(&doc.machines)
        };
        let winner: Arc<LayoutDoc> = if newer {
            doc.clone()
        } else {
            match &self.doc {
                Some(known) => known.clone(),
                None => doc.clone(),
            }
        };
        let mut all = copied_places(&winner.machines);
        let grown: bool = Engine::combine(&mut all, &lost);
        if !newer && !grown {
            return ;
        }
        self.doc = Some(winner.clone());
        let stirred: bool = self.settle_layout(&mut all);
        if grown || stirred {
            let factors = copied_factors(&winner.sensitivity);
            self.share_layout(all, factors, now);
        } else {
            self.mark_dirty(now);
            self.act(Act::Broadcast(Frame::LayoutSync(doc)));
            self.touch_ui(now);
        }
    }

    fn geoms(&self, places: &Vec<Place>, active: bool) -> (r: Vec<MachineGeom>)
        requires
            places@ == self@.places(),
        ensures
            are_geoms(self@, r@, active),
    {
        let mut out: Vec<MachineGeom> = Vec::new();
        for i in 0..places.len()
            invariant
                places@ == self@.places(),
                out@.len() == i,
                forall|k: int|
                    0 <= k < i ==> {
                        let place = places@[k];
                        let geom = #[trigger] out@[k];
                        &&& geom.id == place.id
                        &&& geom.displays@ == self@.displays(place.id@)
                        &&& geom.placement.offset == place.placement.offset
                        &&& geom.placement.enabled == (!active || place.placement.enabled)
                        &&& geom.reachable == (!active || place.id@ == self@.me.id@
                            || self@.usable(place.id@))
                    },
        {
            let place = &places[i];
            let displays = match self.info_of(&place.id) {
                Some(info) => copied_displays(&info.displays),
                None => Vec::new(),
            };
            out.push(
                MachineGeom {
                    id: place.id.clone(),
                    displays,
                    placement: MachinePlacement {
                        offset: place.placement.offset,
                        enabled: !active || place.placement.enabled,
                    },
                    reachable: !active || place.id.same(&self.me.id) || self.peer_usable(
                        &place.id,
                    ),
                },
            );
        }
        out
    }

    fn leaving_links(&self, links: &Vec<EdgeLink>) -> (r: Vec<EdgeLink>)
        ensures
            r@ == leaving(links@, self@.me.id@),
    {
        let mut out: Vec<EdgeLink> = Vec::new();
        assert(links@.take(0) =~= Seq::empty());
        for i in 0..links.len()
            invariant
                out@ == leaving(links@.take(i as int), self@.me.id@),
        {
            assert(links@.take(i + 1).drop_last() =~= links@.take(i as int));
            if links[i].from.same(&self.me.id) {
                out.push(links[i].clone());
            }
        }
        assert(links@.take(links@.len() as int) =~= links@);
        out
    }

    fn relink(&mut self, geo: Vec<EdgeLink>, links: Vec<EdgeLink>, specs: Arc<Vec<EdgeSpec>>, now: u64)
        requires
            old(self).wf(),
            now <= LATEST,
        ensures
            final(self).wf(),
            final(self)@ == old(self)@.relinked(geo@, links@, specs, now),
    {
        let armed = self.leaving_links(&geo);
        self.geo_links = geo;
        self.links = links;
        let gone: bool = match &self.crossing {
            Some(c) => !contains_link(&self.links, &c.link),
            None => false,
        };
        if gone {
            self.crossing = None;
            self.touch_ui(now);
        }
        self.reconcile_focus(now);
        self.armed = armed;
        self.act(Act::SetEdges(specs));
        self.factor = match self.focus.clone() {
            Focus::Remote(target) => self.sensitivity(&target),
            _ => PIXEL,
        };
    }

    /// Works out anew what follows from the arrangement and from what can be reached.
    pub fn recompute(&mut self, now: u64)
        requires
            old(self).wf(),
            now <= LATEST,
        ensures
            final(self).wf(),
            recomputed(old(self)@, now, final(self)@),
    {
        let places = self.places();
        let geo = self.geoms(&places, false);
        let active = self.geoms(&places, true);
        let geo_links = compute_links(geo.as_slice());
        let links = compute_links(active.as_slice());
        let specs = Arc::new(edge_specs_for(geo_links.as_slice(), &self.me.id));
        proof {
            assert(are_geoms(self@, geo@, false));
            assert(are_geoms(self@, active@, true));
            assert(specs@ == specs_of(
                links_of(geo@, geo@.len()),
                self@.me.id@,
                links_of(geo@, geo@.len()).len(),
            ));
        }
        self.relink(geo_links, links, specs, now);
    }
}

fn set_factor(factors: &mut Vec<Factor>, factor: Factor)
    ensures
        final(factors)@ == with_factor(old(factors)@, factor),
{
    let ghost given = factors@;
    let mut i: usize = factors.len();
    assert(given.take(i as int) =~= given);
    assert(given.skip(i as int) =~= Seq::empty());
    while i > 0
        invariant
            factors@ == given,
            given == old(factors)@,
            i <= given.len(),
            with_factor(given, factor) =~= with_factor(given.take(i as int), factor) + given.skip(
                i as int,
            ),
        decreases i,
    {
        assert(given.take(i as int).drop_last() =~= given.take(i - 1));
        assert(given.take(i as int).last() == given[i - 1]);
        if lies_between(&factors[i - 1], &factor.a, &factor.b) {
            assert(with_factor(given.take(i as int), factor) == given.take(i - 1).push(factor));
            factors.set(i - 1, factor);
            assert(factors@ =~= given.take(i - 1).push(factor) + given.skip(i as int));
            return ;
        }
        assert(given.skip(i - 1) =~= seq![given[i - 1]] + given.skip(i as int));
        i = i - 1;
    }
    assert(given.take(0) =~= Seq::empty());
    assert(given.skip(0) =~= given);
    factors.insert(0, factor);
    assert(factors@ =~= seq![factor] + given);
}

proof fn lemma_wider_shape(shape: Seq<Bounds>)
    requires
        bounded(shape, 0x2_0000_0000),
    ensures
        bounded(shape, CANVAS as int),
{
    assert forall|i: int| 0 <= i < shape.len() implies (#[trigger] shape[i]).bounded(
        CANVAS as int,
    ) by {
        assert(shape[i].bounded(0x2_0000_0000));
    }
}

proof fn lemma_wider_reach(shape: Seq<Bounds>)
    requires
        bounded(shape, 0x2_0000_0000),
    ensures
        bounded(shape, REACH as int),
{
    assert forall|i: int| 0 <= i < shape.len() implies (#[trigger] shape[i]).bounded(
        REACH as int,
    ) by {
        assert(shape[i].bounded(0x2_0000_0000));
    }
}

/// Machines that know the same displays repair an arrangement alike.
pub proof fn every_machine_repairs_alike(one: Mind, other: Mind, places: Seq<Place>)
    requires
        forall|i: int|
            0 <= i < places.len() ==> one.displays((#[trigger] places[i]).id@) == other.displays(
                places[i].id@,
            ),
    ensures
        settled(one, places) == settled(other, places),
        stirs(one, places) == stirs(other, places),
{
    assert(body_shapes(one, places) =~= body_shapes(other, places));
    assert(all_known(one, places) == all_known(other, places));
    assert(repairs(one, places) == repairs(other, places));
    assert(stirs(one, places) == stirs(other, places)) by {
        let moves = repairs(one, places);
        if stirs(one, places) {
            let i = choose|i: int|
                0 <= i < repairs(one, places).len() && (#[trigger] repairs(one, places)[i]) != (
                Vec2I { x: 0, y: 0 });
            assert(repairs(other, places)[i] == moves[i]);
        }
        if stirs(other, places) {
            let i = choose|i: int|
                0 <= i < repairs(other, places).len() && (#[trigger] repairs(other, places)[i]) != (
                Vec2I { x: 0, y: 0 });
            assert(repairs(one, places)[i] == moves[i]);
        }
    }
    assert(settled(one, places) =~= settled(other, places));
}

} // verus!
