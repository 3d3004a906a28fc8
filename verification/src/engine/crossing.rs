//! How the pointer crosses from machine to machine.

use super::focus::presses_of;
use super::notice::{just, plain, Trouble};
use super::pointer::{
    along_edge, along_of, amid, amid_edge, contains_link, crossing_of, edge_position,
    find_crossing, gestured, has_link, inside_from, inside_to, keep_within, move_by, moved_by,
    on_edge, position_inside_from_edge, position_inside_to_edge, scale, scaled, to_gesture, within,
};
use super::state::{
    Act, Crossing, Engine, Focus, Frame, LeaveReason, Mind, Os, Place, LATEST,
};
use crate::edge_policy::{after_motion, outcome_of, outward_of, Gesture, Outcome, Progress};
use crate::geometry::{Vec2, PIXEL, POINT_REACH};
use crate::input::InputEvent;
use crate::input_settings::CrossingPolicy;
use crate::layout::{clamped_into, on_display, union_contains, EdgeLink};
use crate::ledger::{after_event, changes};
use crate::machine::MachineId;
use vstd::prelude::*;

verus! {

/// Where the pointer starts on a machine that was selected, in pixels.
pub const SELECTED_AT: i64 = 100;

/// No progress at all.
pub open spec fn no_progress() -> Progress {
    Progress { done: 0, whole: 1 }
}

/// A gesture that begins at a link's edge.
pub open spec fn beginning(link: EdgeLink, pos: Vec2, edge: Option<u32>, policy: CrossingPolicy, now: u64) -> Crossing {
    Crossing {
        link,
        pos,
        local_edge: edge,
        gesture: Gesture { policy, side: link.side, started: now, updated: now, distance: 0 },
        progress: no_progress(),
    }
}

impl Mind {
    pub open spec fn immediate(self) -> bool {
        self.settings.crossing == CrossingPolicy::Immediate
    }

    /// A link can be crossed from here.
    pub open spec fn crossable(self, link: EdgeLink, now: u64) -> bool {
        &&& self.focus is Local
        &&& !(self.grace_until matches Some(until) && now < until)
        &&& self.master_enabled
        &&& self.enabled(self.me.id@)
        &&& self.enabled(link.to@)
        &&& self.usable(link.to@)
        &&& has_link(self.links, link)
    }

    /// The pointer touches an edge where it takes a gesture to cross.
    pub open spec fn contact(self, link: EdgeLink, edge: u32, along: i64, now: u64) -> Mind {
        if !(self.me.os is Macos) {
            self.raw_trouble(plain(Trouble::PassiveEdges)).doing(
                Act::EndCapture(Some(self.last_local)),
            ).touched(now)
        } else {
            Mind {
                crossing: Some(
                    beginning(link, on_edge(link, along), Some(edge), self.settings.crossing, now),
                ),
                ..self
            }.touched(now)
        }
    }

    /// The pointer is at a capture edge.
    pub open spec fn edge_begun(self, edge: u32, along: i64, committed: bool, now: u64) -> Mind {
        if edge >= self.armed.len() {
            self.doing(Act::EndCapture(None))
        } else {
            let link = self.armed[edge as int];
            let local = on_edge(link, along);
            if !self.crossable(link, now) {
                self.doing(Act::EndCapture(Some(inside_from(link, local))))
            } else {
                let ready = Mind { last_local: inside_from(link, local), ..self.claiming(now) };
                if !committed && !self.immediate() {
                    ready.contact(link, edge, along, now)
                } else {
                    let pos = clamped_into(self.displays(link.to@), within(inside_to(link, local)));
                    if self.raw_mode(link.to@) {
                        ready.raw_started(link.to, pos, Some(edge), now)
                    } else {
                        ready.desktop_started(link.to, pos, false, now)
                    }
                }
            }
        }
    }

    /// The pointer crosses a link away from the machine that is driven.
    pub open spec fn crossed(self, link: EdgeLink, pos: Vec2, now: u64) -> Mind {
        let inside = within(inside_to(link, pos));
        if link.to@ == self.me.id@ {
            let home = self.left(link.from, LeaveReason::Crossed, false).doing(
                Act::EndCapture(Some(clamped_into(self.me.displays@, inside))),
            );
            Mind { focus: Focus::Local, factor: PIXEL, ..home }.touched(now)
        } else if self.raw_mode(link.to@) {
            self.handed_off(link.to, inside, now)
        } else {
            let land = clamped_into(self.displays(link.to@), inside);
            let number = (self.session + 1) as u64;
            let gone = Mind {
                session: number,
                active_session: number,
                ..self.left(link.from, LeaveReason::Crossed, false)
            };
            if !self.sends(link.to@) {
                Mind {
                    focus: Focus::Local,
                    factor: PIXEL,
                    ..gone.doing(Act::EndCapture(Some(self.last_local)))
                }.touched(now)
            } else {
                let there = gone.posted(
                    link.to,
                    Frame::Enter { session: number, pos: land },
                ).doing(Act::SetActive { peer: link.to, active: true }).posted_inputs(
                    link.to,
                    number,
                    presses_of(self.source),
                );
                Mind {
                    source: self.source,
                    focus: Focus::Remote(link.to),
                    pos: land,
                    factor: self.speed(link.to@),
                    ..there
                }.touched(now)
            }
        }
    }

    /// What a gesture comes to.
    pub open spec fn gesture_came_to(self, outcome: Outcome, now: u64) -> Mind {
        match outcome {
            Outcome::Waiting(progress) => Mind {
                crossing: match self.crossing {
                    Some(c) => Some(Crossing { progress, ..c }),
                    None => None,
                },
                ..self
            }.touched(now),
            Outcome::Cancel => Mind { crossing: None, ..self }.touched(now),
            Outcome::Cross => match self.crossing {
                None => self,
                Some(c) => {
                    let taken = Mind { crossing: None, ..self };
                    match c.local_edge {
                        Some(edge) => taken.edge_begun(edge, along_edge(c.link, c.pos), true, now),
                        None => taken.crossed(c.link, c.pos, now),
                    }.touched(now)
                },
            },
        }
    }

    /// The pointer moves at a capture edge.
    pub open spec fn edge_moved(self, edge: u32, along: i64, dx: i64, dy: i64, now: u64) -> Mind {
        if !(self.focus is Local) || self.raw.preparing is Some {
            self
        } else {
            match self.crossing {
                None => if edge < self.armed.len() && !self.immediate() && outward_of(
                    self.armed[edge as int].side,
                    dx as int,
                    dy as int,
                ) > 0 {
                    self.edge_begun(edge, along, false, now)
                } else {
                    self
                },
                Some(c) => if c.local_edge != Some(edge) {
                    Mind { crossing: None, ..self }.touched(now)
                } else {
                    let x = gestured(dx) as int;
                    let y = gestured(dy) as int;
                    Mind {
                        crossing: Some(
                            Crossing {
                                pos: on_edge(c.link, along),
                                gesture: after_motion(c.gesture, x, y, now),
                                ..c
                            },
                        ),
                        ..self
                    }.gesture_came_to(outcome_of(c.gesture, x, y, now), now)
                },
            }
        }
    }

    /// Time passes at an edge.
    pub open spec fn edge_ticked(self, now: u64) -> Mind {
        match self.crossing {
            None => self,
            Some(c) => Mind {
                crossing: Some(Crossing { gesture: after_motion(c.gesture, 0, 0, now), ..c }),
                ..self
            }.gesture_came_to(outcome_of(c.gesture, 0, 0, now), now),
        }
    }

    /// The pointer stays at the boundary of the machine that is driven.
    pub open spec fn at_boundary_of(self, next: Vec2) -> Mind {
        match self.focus {
            Focus::Remote(target) => {
                let p = clamped_into(self.displays(target@), next);
                Mind { pos: p, ..self }.posted(
                    target,
                    Frame::Input {
                        session: self.active_session,
                        event: InputEvent::Motion {
                            dx: (p.x - self.pos.x) as i64,
                            dy: (p.y - self.pos.y) as i64,
                        },
                    },
                )
            },
            _ => self,
        }
    }

    /// The pointer begins to press against a link's edge on the machine that is driven.
    pub open spec fn pressing(self, link: EdgeLink, pos: Vec2, now: u64) -> Mind {
        Mind {
            crossing: Some(beginning(link, pos, None, self.settings.crossing, now)),
            ..self
        }.at_boundary_of(pos).touched(now)
    }

    /// Whether motion belongs to a gesture on the machine that is driven.
    pub open spec fn gesture_goes_on(self, dx: i64, dy: i64, now: u64) -> bool {
        match self.crossing {
            None => false,
            Some(c) => {
                let next = self.next(dx, dy);
                &&& c.local_edge is None
                &&& amid(c.link, along_edge(c.link, next), self.corner_dead_zone)
                &&& !(outcome_of(
                    c.gesture,
                    gestured(dx) as int,
                    gestured(dy) as int,
                    now,
                ) is Cancel)
            },
        }
    }

    /// Where motion leads to on the machine that is driven.
    pub open spec fn next(self, dx: i64, dy: i64) -> Vec2 {
        moved_by(self.pos, scaled(dx, self.factor), scaled(dy, self.factor))
    }

    /// A gesture that motion ends before it came to anything.
    pub open spec fn gesture_dropped(self, now: u64) -> Mind {
        match self.crossing {
            Some(c) => if c.local_edge is None {
                Mind { crossing: None, ..self }.touched(now)
            } else {
                self
            },
            None => self,
        }
    }

    /// The gesture goes on from a point of the edge.
    pub open spec fn gesture_set(self, next: Vec2, gesture: Gesture) -> Mind {
        let c = self.crossing->0;
        Mind {
            crossing: Some(
                Crossing { pos: on_edge(c.link, along_edge(c.link, next)), gesture, ..c },
            ),
            ..self
        }
    }

    pub open spec fn gesture_moved(self, dx: i64, dy: i64, now: u64) -> Mind {
        let c = self.crossing->0;
        let next = self.next(dx, dy);
        let x = gestured(dx) as int;
        let y = gestured(dy) as int;
        let outcome = outcome_of(c.gesture, x, y, now);
        let moved = self.gesture_set(next, after_motion(c.gesture, x, y, now));
        if outcome is Waiting {
            moved.at_boundary_of(next).gesture_came_to(outcome, now)
        } else {
            moved.gesture_came_to(outcome, now)
        }
    }

    /// The pointer moves on the machine that is driven, or off it.
    pub open spec fn moved_freely(self, dx: i64, dy: i64, now: u64) -> Mind {
        match self.focus {
            Focus::Remote(target) => {
                let next = self.next(dx, dy);
                let displays = self.displays(target@);
                let inside = exists|i: int|
                    0 <= i < displays.len() && on_display(#[trigger] displays[i], next);
                let through = if inside || self.settings.focus_lock {
                    None
                } else {
                    crossing_of(self.links, target@, next, self.corner_dead_zone)
                };
                match through {
                    Some(link) => if self.immediate() {
                        self.crossed(link, next, now)
                    } else {
                        self.pressing(link, next, now)
                    },
                    None => Mind {
                        pos: if inside {
                            next
                        } else {
                            clamped_into(displays, next)
                        },
                        ..self
                    }.posted(
                        target,
                        Frame::Input {
                            session: self.active_session,
                            event: InputEvent::Motion {
                                dx: scaled(dx, self.factor),
                                dy: scaled(dy, self.factor),
                            },
                        },
                    ),
                }
            },
            _ => self,
        }
    }

    pub open spec fn remote_moved(self, dx: i64, dy: i64, now: u64) -> Mind {
        if self.gesture_goes_on(dx, dy, now) {
            self.gesture_moved(dx, dy, now)
        } else {
            self.gesture_dropped(now).moved_freely(dx, dy, now)
        }
    }

    /// Input that was captured here.
    pub open spec fn input_captured(self, event: InputEvent, now: u64) -> Mind {
        if self.raw.active || self.raw.preparing is Some {
            self
        } else {
            match event {
                InputEvent::Motion { dx, dy } => self.remote_moved(dx, dy, now),
                _ => match self.focus {
                    Focus::Remote(target) => if changes(self.source, event) {
                        Mind { source: after_event(self.source, event), ..self }.posted(
                            target,
                            Frame::Input { session: self.active_session, event },
                        )
                    } else {
                        self
                    },
                    _ => self,
                },
            }
        }
    }

    /// Someone chose the machine to drive.
    pub open spec fn selected(self, target: MachineId, now: u64) -> Mind {
        if target@ == self.me.id@ {
            match self.focus {
                Focus::Remote(old) => self.remote_ended(
                    old,
                    LeaveReason::Crossed,
                    Some(self.last_local),
                    true,
                    now,
                ),
                _ => self,
            }
        } else if self.me.os is Linux && !(self.focus is Remote) {
            self.raw_trouble(plain(Trouble::CrossEdgeFirst)).touched(now)
        } else if self.focus is Driven || !self.master_enabled || !self.enabled(self.me.id@)
            || !self.enabled(target@) || !self.usable(target@) {
            let free = match self.focus {
                Focus::Remote(old) => self.remote_ended(
                    old,
                    LeaveReason::CaptureLost,
                    Some(self.last_local),
                    true,
                    now,
                ),
                _ => self,
            };
            free.raw_trouble(plain(Trouble::NotSelectable)).touched(now)
        } else {
            self.handed_off(
                target,
                clamped_into(
                    self.displays(target@),
                    Vec2 {
                        x: (SELECTED_AT * PIXEL) as i64,
                        y: (SELECTED_AT * PIXEL) as i64,
                    },
                ),
                now,
            )
        }
    }

    /// A machine that can be switched to.
    pub open spec fn switchable(self, place: Place) -> bool {
        place.placement.enabled && (place.id@ == self.me.id@ || self.usable(place.id@))
    }

    /// The machine whose turn it is when switching.
    pub open spec fn current(self) -> MachineId {
        match self.focus {
            Focus::Remote(target) => target,
            _ => self.me.id,
        }
    }

    /// Switches to the next machine, in the order of their places.
    pub open spec fn switched(self, now: u64) -> Mind {
        let free = Mind { source: chord_released(self.source), ..self };
        match turn_of(self, self.places(), self.current()@) {
            Some(next) => free.selected(next, now),
            None => match self.focus {
                Focus::Remote(old) => free.remote_ended(
                    old,
                    LeaveReason::Crossed,
                    Some(self.last_local),
                    true,
                    now,
                ),
                _ => free,
            },
        }
    }
}

/// What is held once the keys of the switching chord are let go.
pub open spec fn chord_released(held: crate::ledger::Holding) -> crate::ledger::Holding {
    after_event(
        after_event(
            after_event(held, InputEvent::Key { code: 29, pressed: false }),
            InputEvent::Key { code: 56, pressed: false },
        ),
        InputEvent::Key { code: 88, pressed: false },
    )
}

/// A place that comes earlier when switching: further left, then further up, then by
/// identity.
pub open spec fn earlier(a: Place, b: Place) -> bool {
    let (x, y) = (a.placement.offset.x, a.placement.offset.y);
    let (u, v) = (b.placement.offset.x, b.placement.offset.y);
    x < u || (x == u && (y < v || (y == v && crate::machine::text_before(a.id@, b.id@))))
}

/// The place that comes before all others, of those that can be switched to and come
/// behind `after`.
pub open spec fn first_behind(mind: Mind, places: Seq<Place>, after: Option<Place>) -> Option<Place>
    decreases places.len(),
{
    if places.len() == 0 {
        None
    } else {
        let before = first_behind(mind, places.drop_last(), after);
        let last = places.last();
        let counts = mind.switchable(last) && match after {
            Some(a) => earlier(a, last),
            None => true,
        };
        if !counts {
            before
        } else {
            match before {
                Some(best) => if earlier(last, best) {
                    Some(last)
                } else {
                    Some(best)
                },
                None => Some(last),
            }
        }
    }
}

/// Where a machine stands among those that can be switched to, or the number of places.
pub open spec fn switch_place(mind: Mind, places: Seq<Place>, id: Seq<char>) -> int
    decreases places.len(),
{
    if places.len() == 0 {
        0
    } else if mind.switchable(places[0]) && places[0].id@ == id {
        0
    } else {
        1 + switch_place(mind, places.skip(1), id)
    }
}

/// The machine that follows one when switching; the first follows the last.
pub open spec fn turn_of(mind: Mind, places: Seq<Place>, id: Seq<char>) -> Option<MachineId> {
    let at = switch_place(mind, places, id);
    if at >= places.len() {
        None
    } else {
        match first_behind(mind, places, Some(places[at])) {
            Some(next) => Some(next.id),
            None => match first_behind(mind, places, None) {
                Some(first) => Some(first.id),
                None => None,
            },
        }
    }
}

fn is_earlier(a: &Place, b: &Place) -> (r: bool)
    ensures
        r == earlier(*a, *b),
{
    let p = a.placement.offset;
    let q = b.placement.offset;
    p.x < q.x || (p.x == q.x && (p.y < q.y || (p.y == q.y && a.id.before(&b.id))))
}

proof fn lemma_switch_place(mind: Mind, places: Seq<Place>, id: Seq<char>, at: int)
    requires
        0 <= at <= places.len(),
        forall|i: int|
            0 <= i < at ==> !(mind.switchable(#[trigger] places[i]) && places[i].id@ == id),
        at < places.len() ==> mind.switchable(places[at]) && places[at].id@ == id,
    ensures
        switch_place(mind, places, id) == at,
    decreases places.len(),
{
    if places.len() > 0 && at > 0 {
        assert(!(mind.switchable(places[0]) && places[0].id@ == id));
        let rest = places.skip(1);
        assert forall|i: int| 0 <= i < at - 1 implies !(mind.switchable(#[trigger] rest[i])
            && rest[i].id@ == id) by {
            assert(rest[i] == places[i + 1]);
        }
        lemma_switch_place(mind, rest, id, at - 1);
    }
}

impl Engine {
    fn is_immediate(&self) -> (r: bool)
        ensures
            r == self@.immediate(),
    {
        self.settings.crossing == CrossingPolicy::Immediate
    }

    fn is_crossable(&self, link: &EdgeLink, now: u64) -> (r: bool)
        ensures
            r == self@.crossable(*link, now),
    {
        let recently: bool = match self.grace_until {
            Some(until) => now < until,
            None => false,
        };
        self.focus.is_local() && !recently && self.master_enabled && self.machine_enabled(
            &self.me.id,
        ) && self.machine_enabled(&link.to) && self.peer_usable(&link.to) && contains_link(
            &self.links,
            link,
        )
    }

    fn contact_gesture(&mut self, link: &EdgeLink, edge: u32, along: i64, now: u64)
        requires
            old(self).wf(),
            -POINT_REACH <= along <= POINT_REACH,
            now <= LATEST,
        ensures
            final(self).wf(),
            final(self)@ == old(self)@.contact(*link, edge, along, now),
    {
        if self.me.os != Os::Macos {
            self.set_raw_error(just(Trouble::PassiveEdges));
            self.act(Act::EndCapture(Some(self.last_local)));
            self.touch_ui(now);
            return ;
        }
        self.crossing = Some(
            Crossing {
                link: link.clone(),
                pos: edge_position(link, along),
                local_edge: Some(edge),
                gesture: Gesture::new(self.settings.crossing, link.side, now),
                progress: Progress { done: 0, whole: 1 },
            },
        );
        self.touch_ui(now);
    }

    /// The pointer is at a capture edge.
    pub fn begin_edge(&mut self, edge: u32, along: i64, committed: bool, now: u64)
        requires
            old(self).wf(),
            old(self)@.counts(),
            -POINT_REACH <= along <= POINT_REACH,
            now <= LATEST,
        ensures
            final(self).wf(),
            final(self)@ == old(self)@.edge_begun(edge, along, committed, now),
    {
        if edge as usize >= self.armed.len() {
            self.act(Act::EndCapture(None));
            return ;
        }
        let link = self.armed[edge as usize].clone();
        let local = edge_position(&link, along);
        let inside = position_inside_from_edge(&link, local);
        if !self.is_crossable(&link, now) {
            self.act(Act::EndCapture(Some(inside)));
            return ;
        }
        let immediate: bool = self.is_immediate();
        let raw: bool = self.is_raw_mode(&link.to);
        let pos = self.clamp_for(&link.to, keep_within(position_inside_to_edge(&link, local)));
        self.claim_source(now);
        self.last_local = inside;
        if !committed && !immediate {
            self.contact_gesture(&link, edge, along, now);
            return ;
        }
        if raw {
            self.start_raw(&link.to, pos, Some(edge), now);
        } else {
            self.start_desktop(&link.to, pos, false, now);
        }
    }

    /// The pointer crosses a link away from the machine that is driven.
    pub fn cross_link(&mut self, link: &EdgeLink, pos: Vec2, now: u64)
        requires
            old(self).wf(),
            old(self)@.counts(),
            pos.bounded(),
            now <= LATEST,
        ensures
            final(self).wf(),
            final(self)@ == old(self)@.crossed(*link, pos, now),
    {
        let inside = keep_within(position_inside_to_edge(link, pos));
        if link.to.same(&self.me.id) {
            let warp = crate::layout::clamp_into_displays(self.me.displays.as_slice(), inside);
            self.send_leave(&link.from, LeaveReason::Crossed, false);
            self.act(Act::EndCapture(Some(warp)));
            self.focus = Focus::Local;
            self.factor = PIXEL;
            self.touch_ui(now);
            return ;
        }
        if self.is_raw_mode(&link.to) {
            self.handoff_remote(&link.to, inside, now);
            return ;
        }
        let land = self.clamp_for(&link.to, inside);
        self.cross_onward(link, land, now);
    }

    fn cross_onward(&mut self, link: &EdgeLink, land: Vec2, now: u64)
        requires
            old(self).wf(),
            old(self)@.counts(),
            land.bounded(),
            now <= LATEST,
        ensures
            final(self).wf(),
            ({
                let m = old(self)@;
                let number = (m.session + 1) as u64;
                let gone = Mind {
                    session: number,
                    active_session: number,
                    ..m.left(link.from, LeaveReason::Crossed, false)
                };
                final(self)@ == if !m.sends(link.to@) {
                    Mind {
                        focus: Focus::Local,
                        factor: PIXEL,
                        ..gone.doing(Act::EndCapture(Some(m.last_local)))
                    }.touched(now)
                } else {
                    let there = gone.posted(
                        link.to,
                        Frame::Enter { session: number, pos: land },
                    ).doing(Act::SetActive { peer: link.to, active: true }).posted_inputs(
                        link.to,
                        number,
                        presses_of(m.source),
                    );
                    Mind {
                        source: m.source,
                        focus: Focus::Remote(link.to),
                        pos: land,
                        factor: m.speed(link.to@),
                        ..there
                    }.touched(now)
                }
            }),
    {
        let held = self.source.clone();
        let events = self.source.presses();
        let speed: i64 = self.sensitivity(&link.to);
        self.send_leave(&link.from, LeaveReason::Crossed, false);
        self.session = self.session + 1;
        self.active_session = self.session;
        let session: u64 = self.active_session;
        if !self.send(&link.to, Frame::Enter { session, pos: land }) {
            self.act(Act::EndCapture(Some(self.last_local)));
            self.focus = Focus::Local;
            self.factor = PIXEL;
            self.touch_ui(now);
            return ;
        }
        self.act(Act::SetActive { peer: link.to.clone(), active: true });
        self.send_inputs(&link.to, session, &events);
        self.source = held;
        self.focus = Focus::Remote(link.to.clone());
        self.pos = land;
        self.factor = speed;
        self.touch_ui(now);
    }

    fn crossing_outcome(&mut self, outcome: Outcome, now: u64)
        requires
            old(self).wf(),
            old(self)@.counts(),
            now <= LATEST,
        ensures
            final(self).wf(),
            final(self)@ == old(self)@.gesture_came_to(outcome, now),
    {
        match outcome {
            Outcome::Waiting(progress) => {
                if let Some(c) = &mut self.crossing {
                    c.progress = progress;
                }
            },
            Outcome::Cancel => {
                self.crossing = None;
            },
            Outcome::Cross => {
                let Some(c) = self.crossing.take() else {
                    return ;
                };
                match c.local_edge {
                    Some(edge) => {
                        let along: i64 = along_of(&c.link, c.pos);
                        self.begin_edge(edge, along, true, now);
                    },
                    None => {
                        self.cross_link(&c.link, c.pos, now);
                    },
                }
            },
        }
        self.touch_ui(now);
    }

    /// The pointer moves at a capture edge.
    pub fn edge_motion(&mut self, edge: u32, along: i64, dx: i64, dy: i64, now: u64)
        requires
            old(self).wf(),
            old(self)@.counts(),
            -POINT_REACH <= along <= POINT_REACH,
            now <= LATEST,
        ensures
            final(self).wf(),
            final(self)@ == old(self)@.edge_moved(edge, along, dx, dy, now),
    {
        if !self.focus.is_local() || self.raw.preparing.is_some() {
            return ;
        }
        let immediate: bool = self.is_immediate();
        let Some(c) = &mut self.crossing else {
            if edge as usize >= self.armed.len() {
                return ;
            }
            if !immediate && Gesture::outward(self.armed[edge as usize].side, dx, dy) > 0 {
                self.begin_edge(edge, along, false, now);
            }
            return ;
        };
        let here: bool = match c.local_edge {
            Some(at) => at == edge,
            None => false,
        };
        if !here {
            self.crossing = None;
            self.touch_ui(now);
            return ;
        }
        c.pos = edge_position(&c.link, along);
        let outcome = c.gesture.update(Some(to_gesture(dx)), Some(to_gesture(dy)), now);
        self.crossing_outcome(outcome, now);
    }

    /// Time passes at an edge.
    pub fn crossing_tick(&mut self, now: u64)
        requires
            old(self).wf(),
            old(self)@.counts(),
            now <= LATEST,
        ensures
            final(self).wf(),
            final(self)@ == old(self)@.edge_ticked(now),
    {
        let Some(c) = &mut self.crossing else {
            return ;
        };
        let outcome = c.gesture.update(Some(0), Some(0), now);
        self.crossing_outcome(outcome, now);
    }

    fn move_to_boundary(&mut self, next: Vec2)
        requires
            old(self).wf(),
            next.bounded(),
        ensures
            final(self).wf(),
            final(self)@ == old(self)@.at_boundary_of(next),
    {
        let Focus::Remote(target) = self.focus.clone() else {
            return ;
        };
        let p = self.clamp_for(&target, next);
        let event = InputEvent::Motion { dx: p.x - self.pos.x, dy: p.y - self.pos.y };
        self.pos = p;
        self.send(&target, Frame::Input { session: self.active_session, event });
    }

    fn press_edge(&mut self, link: EdgeLink, pos: Vec2, now: u64)
        requires
            old(self).wf(),
            pos.bounded(),
            now <= LATEST,
        ensures
            final(self).wf(),
            final(self)@ == old(self)@.pressing(link, pos, now),
    {
        let gesture = Gesture::new(self.settings.crossing, link.side, now);
        self.crossing = Some(
            Crossing {
                link,
                pos,
                local_edge: None,
                gesture,
                progress: Progress { done: 0, whole: 1 },
            },
        );
        self.move_to_boundary(pos);
        self.touch_ui(now);
    }

    fn next_pos(&self, dx: i64, dy: i64) -> (r: Vec2)
        requires
            self.wf(),
        ensures
            r == self@.next(dx, dy),
            r.bounded(),
    {
        move_by(self.pos, scale(dx, self.factor), scale(dy, self.factor))
    }

    /// What motion makes of a gesture, where it belongs to one.
    fn judge_gesture(&self, next: Vec2, dx: i64, dy: i64, now: u64) -> (r: Option<(Gesture, Outcome)>)
        requires
            self.wf(),
            next == self@.next(dx, dy),
        ensures
            r is Some == self@.gesture_goes_on(dx, dy, now),
            r matches Some((gesture, outcome)) ==> {
                let c = self@.crossing->0;
                &&& gesture.wf()
                &&& gesture == after_motion(
                    c.gesture,
                    gestured(dx) as int,
                    gestured(dy) as int,
                    now,
                )
                &&& outcome == outcome_of(
                    c.gesture,
                    gestured(dx) as int,
                    gestured(dy) as int,
                    now,
                )
            },
    {
        let Some(c) = &self.crossing else {
            return None;
        };
        if c.local_edge.is_some() || !amid_edge(
            &c.link,
            along_of(&c.link, next),
            self.corner_dead_zone,
        ) {
            return None;
        }
        let mut gesture = c.gesture;
        let outcome = gesture.update(Some(to_gesture(dx)), Some(to_gesture(dy)), now);
        if outcome == Outcome::Cancel {
            None
        } else {
            Some((gesture, outcome))
        }
    }

    fn drop_gesture(&mut self, now: u64)
        requires
            old(self).wf(),
            now <= LATEST,
        ensures
            final(self).wf(),
            final(self)@ == old(self)@.gesture_dropped(now),
    {
        let remote: bool = match &self.crossing {
            Some(c) => c.local_edge.is_none(),
            None => false,
        };
        if remote {
            self.crossing = None;
            self.touch_ui(now);
        }
    }

    fn set_gesture(&mut self, next: Vec2, gesture: Gesture)
        requires
            old(self).wf(),
            old(self)@.crossing is Some,
            gesture.wf(),
            next.bounded(),
        ensures
            final(self).wf(),
            final(self)@ == old(self)@.gesture_set(next, gesture),
    {
        if let Some(c) = &mut self.crossing {
            c.pos = edge_position(&c.link, along_of(&c.link, next));
            c.gesture = gesture;
        }
    }

    fn press_on(&mut self, next: Vec2, gesture: Gesture, outcome: Outcome, now: u64)
        requires
            old(self).wf(),
            old(self)@.counts(),
            old(self)@.crossing is Some,
            gesture.wf(),
            next.bounded(),
            now <= LATEST,
        ensures
            final(self).wf(),
            ({
                let moved = old(self)@.gesture_set(next, gesture);
                final(self)@ == if outcome is Waiting {
                    moved.at_boundary_of(next).gesture_came_to(outcome, now)
                } else {
                    moved.gesture_came_to(outcome, now)
                }
            }),
    {
        self.set_gesture(next, gesture);
        let waiting: bool = match outcome {
            Outcome::Waiting(_) => true,
            _ => false,
        };
        if waiting {
            self.move_to_boundary(next);
        }
        self.crossing_outcome(outcome, now);
    }

    /// Motion that belongs to a gesture; otherwise the gesture ends.
    fn remote_gesture_motion(&mut self, dx: i64, dy: i64, now: u64) -> (r: bool)
        requires
            old(self).wf(),
            old(self)@.counts(),
            now <= LATEST,
        ensures
            final(self).wf(),
            r == old(self)@.gesture_goes_on(dx, dy, now),
            r ==> final(self)@ == old(self)@.gesture_moved(dx, dy, now),
            !r ==> final(self)@ == old(self)@.gesture_dropped(now),
    {
        let next = self.next_pos(dx, dy);
        match self.judge_gesture(next, dx, dy, now) {
            Some((gesture, outcome)) => {
                self.press_on(next, gesture, outcome, now);
                true
            },
            None => {
                self.drop_gesture(now);
                false
            },
        }
    }

    fn contains_point(&self, target: &MachineId, p: Vec2) -> (r: bool)
        ensures
            r == exists|i: int|
                0 <= i < self@.displays(target@).len() && on_display(
                    #[trigger] self@.displays(target@)[i],
                    p,
                ),
    {
        match self.info_of(target) {
            Some(info) => union_contains(info.displays.as_slice(), p),
            None => false,
        }
    }

    fn move_freely(&mut self, dx: i64, dy: i64, now: u64)
        requires
            old(self).wf(),
            old(self)@.counts(),
            now <= LATEST,
        ensures
            final(self).wf(),
            final(self)@ == old(self)@.moved_freely(dx, dy, now),
    {
        let Focus::Remote(target) = self.focus.clone() else {
            return ;
        };
        let x: i64 = scale(dx, self.factor);
        let y: i64 = scale(dy, self.factor);
        let next = move_by(self.pos, x, y);
        let inside: bool = self.contains_point(&target, next);
        let through: Option<EdgeLink> = if inside || self.settings.focus_lock {
            None
        } else {
            find_crossing(self.links.as_slice(), &target, next, self.corner_dead_zone)
        };
        if let Some(link) = through {
            if self.is_immediate() {
                self.cross_link(&link, next, now);
            } else {
                self.press_edge(link, next, now);
            }
            return ;
        }
        self.pos = if inside {
            next
        } else {
            self.clamp_for(&target, next)
        };
        let session: u64 = self.active_session;
        self.send(
            &target,
            Frame::Input { session, event: InputEvent::Motion { dx: x, dy: y } },
        );
    }

    /// The pointer moves while another machine is driven.
    pub fn on_remote_motion(&mut self, dx: i64, dy: i64, now: u64)
        requires
            old(self).wf(),
            old(self)@.counts(),
            now <= LATEST,
        ensures
            final(self).wf(),
            final(self)@ == old(self)@.remote_moved(dx, dy, now),
    {
        if self.remote_gesture_motion(dx, dy, now) {
            return ;
        }
        self.move_freely(dx, dy, now);
    }

    /// Input was captured here.
    pub fn on_capture_input(&mut self, event: InputEvent, now: u64)
        requires
            old(self).wf(),
            old(self)@.counts(),
            now <= LATEST,
        ensures
            final(self).wf(),
            final(self)@ == old(self)@.input_captured(event, now),
    {
        if self.raw.active || self.raw.preparing.is_some() {
            return ;
        }
        match event {
            InputEvent::Motion { dx, dy } => {
                self.on_remote_motion(dx, dy, now);
            },
            event => {
                let Focus::Remote(target) = self.focus.clone() else {
                    return ;
                };
                if !self.source.observe(&event) {
                    proof {
                        lemma_unchanged(old(self)@.source, event);
                    }
                    return ;
                }
                let session: u64 = self.active_session;
                self.send(&target, Frame::Input { session, event });
            },
        }
    }

    /// Someone chose the machine to drive.
    pub fn select_target(&mut self, target: &MachineId, now: u64)
        requires
            old(self).wf(),
            old(self)@.counts(),
            now <= LATEST,
        ensures
            final(self).wf(),
            final(self)@ == old(self)@.selected(*target, now),
    {
        let warp = Some(self.last_local);
        if target.same(&self.me.id) {
            if let Focus::Remote(old) = self.focus.clone() {
                self.end_remote(&old, LeaveReason::Crossed, warp, true, now);
            }
            return ;
        }
        if self.me.os == Os::Linux && !self.focus.is_remote() {
            self.set_raw_error(just(Trouble::CrossEdgeFirst));
            self.touch_ui(now);
            return ;
        }
        let driven: bool = match &self.focus {
            Focus::Driven(_) => true,
            _ => false,
        };
        if driven || !self.master_enabled || !self.machine_enabled(&self.me.id)
            || !self.machine_enabled(target) || !self.peer_usable(target) {
            if let Focus::Remote(old) = self.focus.clone() {
                self.end_remote(&old, LeaveReason::CaptureLost, warp, true, now);
            }
            self.set_raw_error(just(Trouble::NotSelectable));
            self.touch_ui(now);
            return ;
        }
        let pos = self.clamp_for(
            target,
            Vec2 { x: SELECTED_AT * PIXEL, y: SELECTED_AT * PIXEL },
        );
        self.handoff_remote(target, pos, now);
    }

    fn is_switchable(&self, place: &Place) -> (r: bool)
        ensures
            r == self@.switchable(*place),
    {
        place.placement.enabled && (place.id.same(&self.me.id) || self.peer_usable(&place.id))
    }

    fn find_first_behind(&self, places: &Vec<Place>, after: Option<&Place>) -> (r: Option<Place>)
        ensures
            r == first_behind(
                self@,
                places@,
                match after {
                    Some(a) => Some(*a),
                    None => None,
                },
            ),
    {
        let mut best: Option<Place> = None;
        let ghost limit = match after {
            Some(a) => Some(*a),
            None => None,
        };
        assert(places@.take(0) =~= Seq::empty());
        for i in 0..places.len()
            invariant
                limit == (match after {
                    Some(a) => Some(*a),
                    None => None,
                }),
                best == first_behind(self@, places@.take(i as int), limit),
        {
            assert(places@.take(i + 1).drop_last() =~= places@.take(i as int));
            let place = &places[i];
            let behind: bool = match after {
                Some(a) => is_earlier(a, place),
                None => true,
            };
            if self.is_switchable(place) && behind {
                let better: bool = match &best {
                    Some(current) => is_earlier(place, current),
                    None => true,
                };
                if better {
                    best = Some(place.clone());
                }
            }
        }
        assert(places@.take(places@.len() as int) =~= places@);
        best
    }

    fn find_turn(&self, places: &Vec<Place>, id: &MachineId) -> (r: Option<MachineId>)
        ensures
            r == turn_of(self@, places@, id@),
    {
        let mut at: usize = 0;
        while at < places.len() && !(self.is_switchable(&places[at]) && places[at].id.same(id))
            invariant
                at <= places@.len(),
                forall|i: int|
                    0 <= i < at ==> !(self@.switchable(#[trigger] places@[i]) && places@[i].id@
                        == id@),
            ensures
                at <= places@.len(),
                forall|i: int|
                    0 <= i < at ==> !(self@.switchable(#[trigger] places@[i]) && places@[i].id@
                        == id@),
                at < places@.len() ==> self@.switchable(places@[at as int])
                    && places@[at as int].id@ == id@,
            decreases places@.len() - at,
        {
            at = at + 1;
        }
        proof {
            lemma_switch_place(self@, places@, id@, at as int);
        }
        if at >= places.len() {
            return None;
        }
        match self.find_first_behind(places, Some(&places[at])) {
            Some(next) => Some(next.id),
            None => match self.find_first_behind(places, None) {
                Some(first) => Some(first.id),
                None => None,
            },
        }
    }

    fn release_chord(&mut self)
        requires
            old(self).wf(),
        ensures
            final(self).wf(),
            final(self)@ == (Mind { source: chord_released(old(self)@.source), ..old(self)@ }),
    {
        self.source.observe(&InputEvent::Key { code: 29, pressed: false });
        self.source.observe(&InputEvent::Key { code: 56, pressed: false });
        self.source.observe(&InputEvent::Key { code: 88, pressed: false });
    }

    /// Switches to the next machine.
    pub fn switch_target(&mut self, now: u64)
        requires
            old(self).wf(),
            old(self)@.counts(),
            now <= LATEST,
        ensures
            final(self).wf(),
            final(self)@ == old(self)@.switched(now),
    {
        let current = match &self.focus {
            Focus::Remote(target) => target.clone(),
            _ => self.me.id.clone(),
        };
        let next: Option<MachineId> = match &self.doc {
            Some(doc) => self.find_turn(&doc.machines, &current),
            None => None,
        };
        self.release_chord();
        match next {
            Some(next) => {
                self.select_target(&next, now);
            },
            None => {
                if let Focus::Remote(old) = self.focus.clone() {
                    let warp = Some(self.last_local);
                    self.end_remote(&old, LeaveReason::Crossed, warp, true, now);
                }
            },
        }
    }
}

proof fn lemma_unchanged(held: crate::ledger::Holding, event: InputEvent)
    requires
        !changes(held, event),
    ensures
        after_event(held, event) == held,
{
    match event {
        InputEvent::Key { code, pressed } => {
            lemma_same_codes(held.keys, code, pressed);
        },
        InputEvent::Button { button, pressed } => {
            lemma_same_codes(held.buttons, crate::ledger::code_of_button(button), pressed);
        },
        _ => {},
    }
}

proof fn lemma_same_codes(codes: Seq<u32>, code: u32, pressed: bool)
    requires
        codes.contains(code) == pressed,
    ensures
        pressed ==> crate::codes::with_code(codes, code) == codes,
        !pressed ==> crate::codes::without_code(codes, code) == codes,
{
}

} // verus!
