//! Where the pointer arrives when it crosses an edge, and where it goes on the machine that
//! is driven.

use super::board::leaving;
use super::crossing::{first_behind, switch_place, turn_of};
use super::pointer::{crosses, crossing_of, crossing_place, has_link, inside_to, on_edge, within};
use super::state::{Act, Awaiting, Focus, Frame, LeaveReason, Mind, Place};
use crate::edge_policy::Outcome;
use crate::geometry::{DisplayRect, EdgeSide, Vec2, PIXEL};
use crate::input::InputEvent;
use crate::input_settings::CrossingPolicy;
use crate::arrange::bounds::quotient;
use crate::codes::{ascending, lemma_with_code, lemma_without_code};
use crate::layout::{
    a_clamped_position_is_on_a_display, any_area, clamped_into, in_union, on_display, specs_of,
    EdgeLink,
};
use crate::ledger::code_of_button;
use crate::machine::{text_before, texts_stand_in_one_order};
use vstd::prelude::*;

verus! {

/// The point, in parts of a pixel, is one pixel beyond a link's edge on the machine that it
/// leads to, as far along the shared stretch as `along` is on the machine that is left.
pub open spec fn lies_across(link: EdgeLink, along: int, x: int, y: int) -> bool {
    let far = along - link.from_range.0 * 0x1_0000 + link.to_range.0 * 0x1_0000;
    match link.side {
        EdgeSide::Left => x == (link.to_at - 1) * 0x1_0000 && y == far,
        EdgeSide::Right => x == (link.to_at + 1) * 0x1_0000 && y == far,
        EdgeSide::Top => x == far && y == (link.to_at - 1) * 0x1_0000,
        EdgeSide::Bottom => x == far && y == (link.to_at + 1) * 0x1_0000,
    }
}

/// The point lies on one of the displays.
pub open spec fn is_shown(displays: Seq<DisplayRect>, x: int, y: int) -> bool {
    exists|i: int|
        0 <= i < displays.len() && (#[trigger] displays[i]).x * 0x1_0000 <= x < (displays[i].x
            + displays[i].w) * 0x1_0000 && displays[i].y * 0x1_0000 <= y < (displays[i].y
            + displays[i].h) * 0x1_0000
}

proof fn lemma_shown(displays: Seq<DisplayRect>, x: int, y: int)
    requires
        is_shown(displays, x, y),
    ensures
        i64::MIN <= x <= i64::MAX,
        i64::MIN <= y <= i64::MAX,
        within(Vec2 { x: x as i64, y: y as i64 }) == (Vec2 { x: x as i64, y: y as i64 }),
        clamped_into(displays, Vec2 { x: x as i64, y: y as i64 }) == (Vec2 {
            x: x as i64,
            y: y as i64,
        }),
{
    reveal(clamped_into);
    let i = choose|i: int|
        0 <= i < displays.len() && (#[trigger] displays[i]).x * 0x1_0000 <= x < (displays[i].x
            + displays[i].w) * 0x1_0000 && displays[i].y * 0x1_0000 <= y < (displays[i].y
            + displays[i].h) * 0x1_0000;
    assert(on_display(displays[i], Vec2 { x: x as i64, y: y as i64 }));
    assert(in_union(displays, Vec2 { x: x as i64, y: y as i64 }));
}

pub(crate) proof fn lemma_across(link: EdgeLink, displays: Seq<DisplayRect>, pos: Vec2, along: i64, x: int, y: int)
    requires
        along == if link.side is Left || link.side is Right {
            pos.y
        } else {
            pos.x
        },
        lies_across(link, along as int, x, y),
        is_shown(displays, x, y),
    ensures
        within(inside_to(link, pos)) == (Vec2 { x: x as i64, y: y as i64 }),
        clamped_into(displays, within(inside_to(link, pos))) == (Vec2 { x: x as i64, y: y as i64 }),
{
    lemma_shown(displays, x, y);
    assert(inside_to(link, pos) == Vec2 { x: x as i64, y: y as i64 });
}

/// A pointer that crosses a capture edge arrives at the corresponding point: one pixel inside
/// the edge that is entered, and as far along the shared stretch as it left, wherever that
/// point is on a display. There the machine is told to take it up, and there raw input is to
/// begin. It crosses where nothing forbids it: this machine has the pointer, no pause is on,
/// both machines take part, the other can be reached and the link still stands.
pub proof fn a_crossing_arrives_opposite(
    before: Mind,
    edge: u32,
    along: i64,
    committed: bool,
    now: u64,
    x: int,
    y: int,
)
    requires
        edge < before.armed.len(),
        before.focus is Local,
        before.grace_until matches Some(until) ==> now >= until,
        before.master_enabled,
        before.enabled(before.me.id@),
        before.enabled(before.armed[edge as int].to@),
        before.usable(before.armed[edge as int].to@),
        has_link(before.links, before.armed[edge as int]),
        committed || before.settings.crossing == CrossingPolicy::Immediate,
        lies_across(before.armed[edge as int], along as int, x, y),
        is_shown(before.displays(before.armed[edge as int].to@), x, y),
    ensures
        ({
            let to = before.armed[edge as int].to;
            let pos = Vec2 { x: x as i64, y: y as i64 };
            let after = before.edge_begun(edge, along, committed, now);
            &&& before.raw_mode(to@) && before.raw_obstacle(to@) is None ==> after.awaiting == Some(
                Awaiting::RawCapture { target: to, pos, edge: Some(edge) },
            ) && after.outbox.last() is PrepareRawCapture
            &&& !before.raw_mode(to@) && before.sends(to@) ==> {
                &&& after.awaiting == Some(Awaiting::Capture { target: to, pos, held: false })
                &&& after.session == (before.session + 1) as u64
                &&& after.active_session == after.session
                &&& after.outbox.len() >= before.outbox.len() + 2
                &&& after.outbox[after.outbox.len() - 2] == (Act::Send {
                    to,
                    frame: Frame::Enter { session: after.session, pos },
                })
                &&& after.outbox.last() is BeginCapture
            }
        }),
{
    let link = before.armed[edge as int];
    assert(before.crossable(link, now));
    lemma_across(link, before.displays(link.to@), on_edge(link, along), along, x, y);
}

/// A gesture that comes to its end at a capture edge crosses to the corresponding point, just
/// as an immediate crossing at the same height would.
pub proof fn a_finished_gesture_arrives_opposite(before: Mind, now: u64, x: int, y: int)
    requires
        before.crossing matches Some(c) && c.local_edge matches Some(edge) && edge
            < before.armed.len() && before.armed[edge as int] == c.link && has_link(
            before.links,
            c.link,
        ),
        before.focus is Local,
        before.grace_until matches Some(until) ==> now >= until,
        before.master_enabled,
        before.enabled(before.me.id@),
        before.enabled(before.crossing->0.link.to@),
        before.usable(before.crossing->0.link.to@),
        lies_across(
            before.crossing->0.link,
            if before.crossing->0.link.side is Left || before.crossing->0.link.side is Right {
                before.crossing->0.pos.y as int
            } else {
                before.crossing->0.pos.x as int
            },
            x,
            y,
        ),
        is_shown(before.displays(before.crossing->0.link.to@), x, y),
        !before.raw_mode(before.crossing->0.link.to@),
        before.sends(before.crossing->0.link.to@),
    ensures
        ({
            let to = before.crossing->0.link.to;
            let pos = Vec2 { x: x as i64, y: y as i64 };
            let after = before.gesture_came_to(Outcome::Cross, now);
            &&& after.crossing is None
            &&& after.awaiting == Some(Awaiting::Capture { target: to, pos, held: false })
            &&& after.outbox[after.outbox.len() - 2] == (Act::Send {
                to,
                frame: Frame::Enter { session: (before.session + 1) as u64, pos },
            })
            &&& after.outbox.last() is BeginCapture
        }),
{
    let c = before.crossing->0;
    let taken = Mind { crossing: None, ..before };
    let along = if c.link.side is Left || c.link.side is Right {
        c.pos.y
    } else {
        c.pos.x
    };
    assert(taken.places() == before.places());
    assert(taken.knows(c.link.to@) == before.knows(c.link.to@));
    assert(taken.displays(c.link.to@) == before.displays(c.link.to@));
    a_crossing_arrives_opposite(taken, c.local_edge->0, along, true, now, x, y);
}

/// Where an edge cannot be crossed, the pointer is handed back one pixel inside the edge it
/// touched, at the height where it did.
pub proof fn a_refused_crossing_stays_inside(
    before: Mind,
    edge: u32,
    along: i64,
    committed: bool,
    now: u64,
)
    requires
        edge < before.armed.len(),
        ({
            ||| !(before.focus is Local)
            ||| !before.master_enabled
            ||| before.grace_until matches Some(until) && now < until
            ||| !before.enabled(before.me.id@)
            ||| !before.enabled(before.armed[edge as int].to@)
            ||| !before.usable(before.armed[edge as int].to@)
            ||| !has_link(before.links, before.armed[edge as int])
        }),
    ensures
        ({
            let link = before.armed[edge as int];
            let after = before.edge_begun(edge, along, committed, now);
            &&& after == (Mind { outbox: after.outbox, ..before })
            &&& after.outbox == before.outbox.push(
                Act::EndCapture(
                    Some(
                        match link.side {
                            EdgeSide::Left => Vec2 {
                                x: ((link.at + 1) * 0x1_0000) as i64,
                                y: along,
                            },
                            EdgeSide::Right => Vec2 {
                                x: ((link.at - 1) * 0x1_0000) as i64,
                                y: along,
                            },
                            EdgeSide::Top => Vec2 {
                                x: along,
                                y: ((link.at + 1) * 0x1_0000) as i64,
                            },
                            EdgeSide::Bottom => Vec2 {
                                x: along,
                                y: ((link.at - 1) * 0x1_0000) as i64,
                            },
                        },
                    ),
                ),
            )
        }),
{
}

/// A pointer that crosses from the machine that is driven to a third one arrives at the
/// corresponding point there: the machine that is left is let go of, and the other one is
/// told to take the pointer up at the very point where it is from now on.
pub proof fn crossing_on_arrives_opposite(
    before: Mind,
    link: EdgeLink,
    pos: Vec2,
    now: u64,
    x: int,
    y: int,
)
    requires
        link.to@ != before.me.id@,
        !before.raw_mode(link.to@),
        before.sends(link.to@),
        lies_across(
            link,
            if link.side is Left || link.side is Right {
                pos.y as int
            } else {
                pos.x as int
            },
            x,
            y,
        ),
        is_shown(before.displays(link.to@), x, y),
    ensures
        ({
            let number = (before.session + 1) as u64;
            let after = before.crossed(link, pos, now);
            &&& after.focus == Focus::Remote(link.to)
            &&& after.pos == (Vec2 { x: x as i64, y: y as i64 })
            &&& after.session == number
            &&& after.active_session == number
            &&& after.factor == before.speed(link.to@)
            &&& after.source == before.source
            &&& after.outbox.contains(
                Act::Send {
                    to: link.to,
                    frame: Frame::Enter { session: number, pos: Vec2 { x: x as i64, y: y as i64 } },
                },
            )
            &&& after.outbox.contains(Act::SetActive { peer: link.to, active: true })
            &&& before.connected(link.from@) && before.sends(link.from@) ==> after.outbox.contains(
                Act::Send {
                    to: link.from,
                    frame: Frame::Leave {
                        session: before.active_session,
                        reason: LeaveReason::Crossed,
                    },
                },
            )
        }),
{
    let along = if link.side is Left || link.side is Right {
        pos.y
    } else {
        pos.x
    };
    lemma_across(link, before.displays(link.to@), pos, along, x, y);
    let gone = before.left(link.from, LeaveReason::Crossed, false);
    let after = before.crossed(link, pos, now);
    let n = gone.outbox.len() as int;
    assert(gone.outbox.last() == Act::SetActive { peer: link.from, active: false });
    assert(after.outbox[n] == Act::Send {
        to: link.to,
        frame: Frame::Enter {
            session: (before.session + 1) as u64,
            pos: Vec2 { x: x as i64, y: y as i64 },
        },
    });
    assert(after.outbox[n + 1] == Act::SetActive { peer: link.to, active: true });
    if before.connected(link.from@) && before.sends(link.from@) {
        let leave = Act::Send {
            to: link.from,
            frame: Frame::Leave { session: before.active_session, reason: LeaveReason::Crossed },
        };
        assert(gone.outbox[n - 2] == leave);
        assert(after.outbox[n - 2] == leave);
    }
}

/// A pointer that crosses back to this machine arrives at the corresponding point of this
/// machine's displays, and this machine has it again.
pub proof fn crossing_home_arrives_opposite(
    before: Mind,
    link: EdgeLink,
    pos: Vec2,
    now: u64,
    x: int,
    y: int,
)
    requires
        link.to@ == before.me.id@,
        lies_across(
            link,
            if link.side is Left || link.side is Right {
                pos.y as int
            } else {
                pos.x as int
            },
            x,
            y,
        ),
        is_shown(before.me.displays@, x, y),
    ensures
        ({
            let after = before.crossed(link, pos, now);
            &&& after.focus is Local
            &&& after.outbox.last() == Act::EndCapture(
                Some(Vec2 { x: x as i64, y: y as i64 }),
            )
        }),
{
    let along = if link.side is Left || link.side is Right {
        pos.y
    } else {
        pos.x
    };
    lemma_across(link, before.me.displays@, pos, along, x, y);
}

/// `out` is the motion of `delta` at a speed of `factor` parts of one, rounded toward zero.
pub open spec fn goes_by(delta: int, factor: int, out: int) -> bool {
    let whole = delta * factor;
    ||| 0 <= out * 0x1_0000 <= whole < out * 0x1_0000 + 0x1_0000
    ||| 0 >= out * 0x1_0000 >= whole > out * 0x1_0000 - 0x1_0000
}

proof fn lemma_goes_by(delta: i64, factor: i64, out: int)
    requires
        goes_by(delta as int, factor as int, out),
    ensures
        quotient(delta * factor, PIXEL as int) == out,
{
    let whole = delta * factor;
    if whole >= 0 {
        assert(whole / 0x1_0000 == out);
    } else {
        assert((-whole) / 0x1_0000 == -out);
    }
}

/// Motion moves the pointer on the machine that is driven by as much as it is told to move,
/// at the speed between the two machines, as long as it stays on that machine's displays.
pub proof fn motion_goes_where_the_pointer_goes(
    before: Mind,
    dx: i64,
    dy: i64,
    now: u64,
    x: int,
    y: int,
)
    requires
        before.focus is Remote,
        before.sends(before.focus->Remote_0@),
        -0x1000_0000_0000_0000 <= x <= 0x1000_0000_0000_0000,
        -0x1000_0000_0000_0000 <= y <= 0x1000_0000_0000_0000,
        goes_by(dx as int, before.factor as int, x),
        goes_by(dy as int, before.factor as int, y),
        is_shown(before.displays(before.focus->Remote_0@), before.pos.x + x, before.pos.y + y),
    ensures
        ({
            let after = before.moved_freely(dx, dy, now);
            &&& after.focus == before.focus
            &&& after.pos == (Vec2 {
                x: (before.pos.x + x) as i64,
                y: (before.pos.y + y) as i64,
            })
            &&& after.outbox == before.outbox.push(
                Act::Send {
                    to: before.focus->Remote_0,
                    frame: Frame::Input {
                        session: before.active_session,
                        event: InputEvent::Motion { dx: x as i64, dy: y as i64 },
                    },
                },
            )
        }),
{
    let displays = before.displays(before.focus->Remote_0@);
    lemma_goes_by(dx, before.factor, x);
    lemma_goes_by(dy, before.factor, y);
    lemma_shown(displays, before.pos.x + x, before.pos.y + y);
    let next = Vec2 { x: (before.pos.x + x) as i64, y: (before.pos.y + y) as i64 };
    assert(before.next(dx, dy) == next);
    let i = choose|i: int|
        0 <= i < displays.len() && (#[trigger] displays[i]).x * 0x1_0000 <= next.x < (displays[i].x
            + displays[i].w) * 0x1_0000 && displays[i].y * 0x1_0000 <= next.y < (displays[i].y
            + displays[i].h) * 0x1_0000;
    assert(on_display(displays[i], next));
}

/// Motion that would leave the displays of the machine that is driven, with no link there to
/// cross, or while the focus is locked, leaves the pointer on one of its displays.
pub proof fn the_pointer_stays_on_the_machine(before: Mind, dx: i64, dy: i64, now: u64)
    requires
        before.focus is Remote,
        any_area(before.displays(before.focus->Remote_0@)),
        before.settings.focus_lock || (forall|i: int|
            0 <= i < before.links.len() ==> (#[trigger] before.links[i]).from@
                != before.focus->Remote_0@),
    ensures
        ({
            let after = before.moved_freely(dx, dy, now);
            &&& after.focus == before.focus
            &&& is_shown(
                before.displays(before.focus->Remote_0@),
                after.pos.x as int,
                after.pos.y as int,
            )
        }),
{
    let target = before.focus->Remote_0;
    let displays = before.displays(target@);
    let next = before.next(dx, dy);
    a_clamped_position_is_on_a_display(displays, next);
    lemma_no_crossing(before.links, target@, next, before.corner_dead_zone);
    let after = before.moved_freely(dx, dy, now);
    reveal(clamped_into);
    assert(in_union(displays, after.pos));
    let i = choose|i: int| 0 <= i < displays.len() && on_display(#[trigger] displays[i], after.pos);
    assert(displays[i].x * 0x1_0000 <= after.pos.x < (displays[i].x + displays[i].w) * 0x1_0000);
}

proof fn lemma_no_crossing(links: Seq<EdgeLink>, from: Seq<char>, pos: Vec2, zone: u32)
    ensures
        0 <= crossing_place(links, from, pos, zone) <= links.len(),
        crossing_place(links, from, pos, zone) < links.len() ==> crosses(
            links[crossing_place(links, from, pos, zone)],
            from,
            pos,
            zone,
        ),
        forall|i: int|
            0 <= i < crossing_place(links, from, pos, zone) ==> !crosses(
                #[trigger] links[i],
                from,
                pos,
                zone,
            ),
    decreases links.len(),
{
    if links.len() > 0 && !crosses(links[0], from, pos, zone) {
        let rest = links.skip(1);
        lemma_no_crossing(rest, from, pos, zone);
        assert forall|i: int| 0 <= i < crossing_place(links, from, pos, zone) implies !crosses(
            #[trigger] links[i],
            from,
            pos,
            zone,
        ) by {
            if i > 0 {
                assert(rest[i - 1] == links[i]);
            }
        }
    }
}

/// A pointer leaves a machine only through a link of that machine, at or beyond the link's
/// edge and within the stretch that both machines share. Where it is beyond such an edge,
/// farther from the ends of the stretch than the dead zone and than a quarter of it, some
/// link is found.
pub proof fn a_pointer_leaves_through_a_shared_edge(
    links: Seq<EdgeLink>,
    from: Seq<char>,
    pos: Vec2,
    zone: u32,
    i: int,
)
    requires
        0 <= i < links.len(),
    ensures
        crossing_of(links, from, pos, zone) matches Some(link) ==> {
            &&& links.contains(link)
            &&& link.from@ == from
            &&& match link.side {
                EdgeSide::Left => pos.x <= link.at * 0x1_0000,
                EdgeSide::Right => pos.x >= link.at * 0x1_0000,
                EdgeSide::Top => pos.y <= link.at * 0x1_0000,
                EdgeSide::Bottom => pos.y >= link.at * 0x1_0000,
            }
            &&& link.from_range.0 <= link.from_range.1 ==> link.from_range.0 * 0x1_0000 < if link.side is Left
                || link.side is Right {
                pos.y
            } else {
                pos.x
            } < link.from_range.1 * 0x1_0000
        },
        ({
            let link = links[i];
            let along = if link.side is Left || link.side is Right {
                pos.y
            } else {
                pos.x
            };
            let start = along - link.from_range.0 * 0x1_0000;
            let end = link.from_range.1 * 0x1_0000 - along;
            &&& link.from@ == from
            &&& match link.side {
                EdgeSide::Left => pos.x <= link.at * 0x1_0000,
                EdgeSide::Right => pos.x >= link.at * 0x1_0000,
                EdgeSide::Top => pos.y <= link.at * 0x1_0000,
                EdgeSide::Bottom => pos.y >= link.at * 0x1_0000,
            }
            &&& start > zone * 0x1_0000 || start * 4 > start + end
            &&& end > zone * 0x1_0000 || end * 4 > start + end
        }) ==> crossing_of(links, from, pos, zone) is Some,
{
    lemma_no_crossing(links, from, pos, zone);
    let at = crossing_place(links, from, pos, zone);
    if at < links.len() {
        assert(links.contains(links[at]));
    } else {
        assert(!crosses(links[i], from, pos, zone));
    }
}

/// Input that was captured reaches the machine that is driven as it is: a key or button that
/// goes down or up for the first time, and whatever is neither, is sent in the running
/// session. A press of what is down already, and a release of what is not, is not.
pub proof fn captured_input_is_handed_on(before: Mind, event: InputEvent, now: u64)
    requires
        before.focus is Remote,
        before.sends(before.focus->Remote_0@),
        !before.raw.active,
        before.raw.preparing is None,
        !(event is Motion),
        ascending(before.source.keys),
        ascending(before.source.buttons),
    ensures
        ({
            let after = before.input_captured(event, now);
            let fresh = match event {
                InputEvent::Key { code, pressed } => before.source.keys.contains(code) != pressed,
                InputEvent::Button { button, pressed } => before.source.buttons.contains(
                    code_of_button(button),
                ) != pressed,
                _ => true,
            };
            &&& fresh ==> after.outbox == before.outbox.push(
                Act::Send {
                    to: before.focus->Remote_0,
                    frame: Frame::Input { session: before.active_session, event },
                },
            )
            &&& !fresh ==> after == before
            &&& event matches InputEvent::Key { code, pressed } ==> after.source.keys.contains(code)
                == pressed
            &&& event matches InputEvent::Button { button, pressed }
                ==> after.source.buttons.contains(code_of_button(button)) == pressed
            &&& after.focus == before.focus
            &&& after.pos == before.pos
        }),
{
    match event {
        InputEvent::Key { code, .. } => {
            lemma_with_code(before.source.keys, code);
            lemma_without_code(before.source.keys, code);
        },
        InputEvent::Button { button, .. } => {
            lemma_with_code(before.source.buttons, code_of_button(button));
            lemma_without_code(before.source.buttons, code_of_button(button));
        },
        _ => {},
    }
}

/// Input that the driving machine sends in the running session is injected here as it is;
/// what comes from another machine, or belongs to another session, is not.
pub proof fn heard_input_is_injected(before: Mind, from: Seq<char>, session: u64, event: InputEvent)
    requires
        ascending(before.target.keys),
        ascending(before.target.buttons),
    ensures
        ({
            let after = before.input_heard(from, session, event);
            let rightful = before.focus matches Focus::Driven(source) && source@ == from
                && before.active_session == session && !before.raw.active;
            &&& !rightful ==> after == before
            &&& rightful ==> after.outbox == before.outbox.push(Act::Inject(event))
            &&& rightful ==> (event matches InputEvent::Key { code, pressed }
                ==> after.target.keys.contains(code) == pressed)
            &&& rightful ==> (event matches InputEvent::Button { button, pressed }
                ==> after.target.buttons.contains(code_of_button(button)) == pressed)
        }),
{
    match event {
        InputEvent::Key { code, .. } => {
            lemma_with_code(before.target.keys, code);
            lemma_without_code(before.target.keys, code);
        },
        InputEvent::Button { button, .. } => {
            lemma_with_code(before.target.buttons, code_of_button(button));
            lemma_without_code(before.target.buttons, code_of_button(button));
        },
        _ => {},
    }
}

/// The capture edges are the links that leave this machine, one for one and in one order:
/// what is hit under a number is the link armed under that number, with its side, its place
/// and its stretch.
pub proof fn capture_edges_are_armed_links(links: Seq<EdgeLink>, id: Seq<char>, n: nat, k: int)
    requires
        n <= links.len(),
        n <= u32::MAX,
        0 <= k < specs_of(links, id, n).len(),
    ensures
        specs_of(links, id, n).len() == leaving(links.take(n as int), id).len(),
        specs_of(links, id, n).len() <= n,
        ({
            let edge = specs_of(links, id, n)[k];
            let link = leaving(links.take(n as int), id)[k];
            &&& edge.id == k
            &&& edge.side == link.side
            &&& edge.at == link.at
            &&& edge.from == link.from_range.0
            &&& edge.to == link.from_range.1
            &&& link.from@ == id
            &&& links.contains(link)
        }),
    decreases n,
{
    if n > 0 {
        let front = links.take(n as int).drop_last();
        assert(front =~= links.take(n - 1));
        assert(links.take(n as int).last() == links[n - 1]);
        lemma_armed_len(links, id, (n - 1) as nat);
        if k < specs_of(links, id, (n - 1) as nat).len() {
            capture_edges_are_armed_links(links, id, (n - 1) as nat, k);
        } else {
            assert(links.contains(links[n - 1]));
        }
    }
}

proof fn lemma_armed_len(links: Seq<EdgeLink>, id: Seq<char>, n: nat)
    requires
        n <= links.len(),
    ensures
        specs_of(links, id, n).len() == leaving(links.take(n as int), id).len(),
        specs_of(links, id, n).len() <= n,
    decreases n,
{
    if n > 0 {
        assert(links.take(n as int).drop_last() =~= links.take(n - 1));
        assert(links.take(n as int).last() == links[n - 1]);
        lemma_armed_len(links, id, (n - 1) as nat);
    }
}

/// A place comes before another when switching: further left, then further up, then by
/// identity.
pub open spec fn stands_before(a: Place, b: Place) -> bool {
    ||| a.placement.offset.x < b.placement.offset.x
    ||| a.placement.offset.x == b.placement.offset.x && a.placement.offset.y
        < b.placement.offset.y
    ||| a.placement.offset.x == b.placement.offset.x && a.placement.offset.y
        == b.placement.offset.y && text_before(a.id@, b.id@)
}

proof fn lemma_first_behind(mind: Mind, places: Seq<Place>, after: Option<Place>, i: int)
    ensures
        first_behind(mind, places, after) matches Some(first) ==> {
            &&& places.contains(first)
            &&& mind.switchable(first)
            &&& after matches Some(a) ==> stands_before(a, first)
            &&& 0 <= i < places.len() && mind.switchable(places[i]) && (after matches Some(a)
                ==> stands_before(a, places[i])) ==> !stands_before(places[i], first)
        },
        first_behind(mind, places, after) is None && 0 <= i < places.len() && mind.switchable(
            places[i],
        ) ==> (after matches Some(a) && !stands_before(a, places[i])),
    decreases places.len(),
{
    if places.len() > 0 {
        let front = places.drop_last();
        lemma_first_behind(mind, front, after, i);
        let last = places.last();
        assert(places[places.len() - 1] == last);
        assert(places.contains(last));
        if let Some(best) = first_behind(mind, front, after) {
            let k = choose|k: int| 0 <= k < front.len() && front[k] == best;
            assert(places[k] == best);
            if 0 <= i < front.len() {
                assert(front[i] == places[i]);
                texts_stand_in_one_order(places[i].id@, last.id@, best.id@);
                texts_stand_in_one_order(best.id@, last.id@, places[i].id@);
            }
            texts_stand_in_one_order(last.id@, best.id@, last.id@);
        } else if 0 <= i < front.len() {
            assert(front[i] == places[i]);
        }
        texts_stand_in_one_order(last.id@, last.id@, last.id@);
    }
}

/// Switching goes round all machines that can be switched to, from left to right, then from
/// top to bottom: from a machine it leads to the one that stands next behind it, and from the
/// last one back to the first.
pub proof fn switching_goes_round(mind: Mind, places: Seq<Place>, at: int, i: int)
    requires
        0 <= at < places.len(),
        switch_place(mind, places, places[at].id@) == at,
        0 <= i < places.len(),
        mind.switchable(places[i]),
    ensures
        turn_of(mind, places, places[at].id@) is Some,
        exists|k: int|
            0 <= k < places.len() && (#[trigger] places[k]).id == turn_of(
                mind,
                places,
                places[at].id@,
            )->0 && mind.switchable(places[k]) && if stands_before(places[at], places[k]) {
                !(stands_before(places[at], places[i]) && stands_before(places[i], places[k]))
            } else {
                !stands_before(places[at], places[i]) && !stands_before(places[i], places[k])
            },
{
    lemma_first_behind(mind, places, Some(places[at]), i);
    lemma_first_behind(mind, places, None, i);
    match first_behind(mind, places, Some(places[at])) {
        Some(next) => {
            let k = choose|k: int| 0 <= k < places.len() && places[k] == next;
            assert(places[k].id == next.id);
        },
        None => {
            let first = first_behind(mind, places, None)->0;
            let k = choose|k: int| 0 <= k < places.len() && places[k] == first;
            assert(places[k].id == first.id);
            lemma_first_behind(mind, places, Some(places[at]), k);
        },
    }
}

/// A pointer that crosses to another machine is remembered one pixel inside the edge that it
/// left, at the height where it left: that is where it comes back to when the session ends.
pub proof fn a_crossing_remembers_where_it_left(
    before: Mind,
    edge: u32,
    along: i64,
    committed: bool,
    now: u64,
)
    requires
        edge < before.armed.len(),
        before.crossable(before.armed[edge as int], now),
    ensures
        before.edge_begun(edge, along, committed, now).last_local
            == match before.armed[edge as int].side {
            EdgeSide::Left => Vec2 {
                x: ((before.armed[edge as int].at + 1) * 0x1_0000) as i64,
                y: along,
            },
            EdgeSide::Right => Vec2 {
                x: ((before.armed[edge as int].at - 1) * 0x1_0000) as i64,
                y: along,
            },
            EdgeSide::Top => Vec2 {
                x: along,
                y: ((before.armed[edge as int].at + 1) * 0x1_0000) as i64,
            },
            EdgeSide::Bottom => Vec2 {
                x: along,
                y: ((before.armed[edge as int].at - 1) * 0x1_0000) as i64,
            },
        },
{
}

/// Motion that leads off the machine that is driven through a link, with crossing immediate
/// and the focus not locked, leads on to the other machine at the corresponding point.
pub proof fn motion_off_a_machine_leads_on(
    before: Mind,
    dx: i64,
    dy: i64,
    now: u64,
    link: EdgeLink,
    x: int,
    y: int,
)
    requires
        before.focus is Remote,
        !before.settings.focus_lock,
        before.settings.crossing == CrossingPolicy::Immediate,
        !is_shown(
            before.displays(before.focus->Remote_0@),
            before.next(dx, dy).x as int,
            before.next(dx, dy).y as int,
        ),
        crossing_of(
            before.links,
            before.focus->Remote_0@,
            before.next(dx, dy),
            before.corner_dead_zone,
        ) == Some(link),
        link.to@ != before.me.id@,
        !before.raw_mode(link.to@),
        before.sends(link.to@),
        lies_across(
            link,
            if link.side is Left || link.side is Right {
                before.next(dx, dy).y as int
            } else {
                before.next(dx, dy).x as int
            },
            x,
            y,
        ),
        is_shown(before.displays(link.to@), x, y),
    ensures
        ({
            let after = before.moved_freely(dx, dy, now);
            &&& after.focus == Focus::Remote(link.to)
            &&& after.pos == (Vec2 { x: x as i64, y: y as i64 })
            &&& after.outbox.contains(
                Act::Send {
                    to: link.to,
                    frame: Frame::Enter {
                        session: after.active_session,
                        pos: Vec2 { x: x as i64, y: y as i64 },
                    },
                },
            )
        }),
{
    let next = before.next(dx, dy);
    let displays = before.displays(before.focus->Remote_0@);
    assert forall|i: int| 0 <= i < displays.len() implies !on_display(
        #[trigger] displays[i],
        next,
    ) by {
        if on_display(displays[i], next) {
            assert(displays[i].x * 0x1_0000 <= next.x < (displays[i].x + displays[i].w) * 0x1_0000);
        }
    }
    crossing_on_arrives_opposite(before, link, next, now, x, y);
    assert(before.moved_freely(dx, dy, now) == before.crossed(link, next, now));
}

/// A gesture that comes to its end at an edge of the machine that is driven leads on through
/// the link that it presses against, to the corresponding point of the other machine.
pub proof fn a_finished_gesture_leads_on(before: Mind, now: u64, x: int, y: int)
    requires
        before.crossing matches Some(c) && c.local_edge is None,
        before.crossing->0.link.to@ != before.me.id@,
        !before.raw_mode(before.crossing->0.link.to@),
        before.sends(before.crossing->0.link.to@),
        lies_across(
            before.crossing->0.link,
            if before.crossing->0.link.side is Left || before.crossing->0.link.side is Right {
                before.crossing->0.pos.y as int
            } else {
                before.crossing->0.pos.x as int
            },
            x,
            y,
        ),
        is_shown(before.displays(before.crossing->0.link.to@), x, y),
    ensures
        ({
            let after = before.gesture_came_to(Outcome::Cross, now);
            &&& after.crossing is None
            &&& after.focus == Focus::Remote(before.crossing->0.link.to)
            &&& after.pos == (Vec2 { x: x as i64, y: y as i64 })
        }),
{
    let c = before.crossing->0;
    let taken = Mind { crossing: None, ..before };
    assert(taken.displays(c.link.to@) == before.displays(c.link.to@)) by {
        assert(taken.knows(c.link.to@) == before.knows(c.link.to@));
    }
    crossing_on_arrives_opposite(taken, c.link, c.pos, now, x, y);
}

} // verus!
