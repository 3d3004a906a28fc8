//! Where the pointer is, where it crosses an edge, and where it lands.

use crate::arrange::bounds::quotient;
use crate::geometry::{DisplayRect, EdgeSide, Vec2, PIXEL, POINT_REACH};
use crate::input_settings::POINT;
use crate::layout::{
    a_clamped_position_is_on_a_display, any_area, clamp_between, clamp_into_displays, clamp_int,
    clamped_into, on_display, EdgeLink,
};
use crate::machine::MachineId;
use vstd::prelude::*;

verus! {

/// Pixels that a raw pointer keeps from the edges of its display.
pub const RAW_INSET: i64 = 8;

/// Where the first display that holds a point stands, or the number of displays.
pub open spec fn holding(displays: Seq<DisplayRect>, p: Vec2) -> int
    decreases displays.len(),
{
    if displays.len() == 0 {
        0
    } else if on_display(displays[0], p) {
        0
    } else {
        1 + holding(displays.skip(1), p)
    }
}

proof fn lemma_holding(displays: Seq<DisplayRect>, p: Vec2, at: int)
    requires
        0 <= at <= displays.len(),
        forall|i: int| 0 <= i < at ==> !on_display(#[trigger] displays[i], p),
        at < displays.len() ==> on_display(displays[at], p),
    ensures
        holding(displays, p) == at,
    decreases displays.len(),
{
    if displays.len() > 0 && at > 0 {
        assert(!on_display(displays[0], p));
        let rest = displays.skip(1);
        assert forall|i: int| 0 <= i < at - 1 implies !on_display(#[trigger] rest[i], p) by {
            assert(rest[i] == displays[i + 1]);
        }
        lemma_holding(rest, p, at - 1);
    }
}

/// How far from its sides a stretch is kept clear: half of it at most.
pub open spec fn inset(length: int) -> int {
    if length * PIXEL / 2 < RAW_INSET * PIXEL {
        length * PIXEL / 2
    } else {
        RAW_INSET * PIXEL
    }
}

pub open spec fn inset_into(start: int, length: int, value: int) -> int {
    clamp_int(
        value,
        start * PIXEL + inset(length),
        (start + length) * PIXEL - inset(length),
    )
}

/// Where a raw pointer lands: on a display, and not at its very edge.
pub open spec fn landed(displays: Seq<DisplayRect>, pos: Vec2) -> Vec2 {
    let p = clamped_into(displays, pos);
    let at = holding(displays, p);
    if at < displays.len() {
        let d = displays[at];
        Vec2 {
            x: inset_into(d.x as int, d.w as int, p.x as int) as i64,
            y: inset_into(d.y as int, d.h as int, p.y as int) as i64,
        }
    } else {
        p
    }
}

fn keep_inside(start: i32, length: u32, value: i64) -> (r: i64)
    ensures
        r == inset_into(start as int, length as int, value as int),
{
    let half: i64 = length as i64 * PIXEL / 2;
    let pad: i64 = if half < RAW_INSET * PIXEL {
        half
    } else {
        RAW_INSET * PIXEL
    };
    let low: i64 = start as i64 * PIXEL;
    clamp_between(value, low + pad, low + length as i64 * PIXEL - pad)
}

fn is_on(display: &DisplayRect, p: Vec2) -> (r: bool)
    ensures
        r == on_display(*display, p),
{
    let left: i64 = display.x as i64 * PIXEL;
    let top: i64 = display.y as i64 * PIXEL;
    p.x >= left && p.x < left + display.w as i64 * PIXEL && p.y >= top && p.y < top
        + display.h as i64 * PIXEL
}

/// Where a raw pointer lands.
pub fn raw_landing(displays: &[DisplayRect], pos: Vec2) -> (r: Vec2)
    requires
        pos.bounded(),
    ensures
        r == landed(displays@, pos),
{
    let p = clamp_into_displays(displays, pos);
    let mut at: usize = 0;
    while at < displays.len() && !is_on(&displays[at], p)
        invariant
            at <= displays@.len(),
            forall|i: int| 0 <= i < at ==> !on_display(#[trigger] displays@[i], p),
        ensures
            at <= displays@.len(),
            forall|i: int| 0 <= i < at ==> !on_display(#[trigger] displays@[i], p),
            at < displays@.len() ==> on_display(displays@[at as int], p),
        decreases displays@.len() - at,
    {
        at = at + 1;
    }
    proof {
        lemma_holding(displays@, p, at as int);
    }
    if at >= displays.len() {
        return p;
    }
    let d = &displays[at];
    Vec2 { x: keep_inside(d.x, d.w, p.x), y: keep_inside(d.y, d.h, p.y) }
}

/// A point on a link's edge.
pub open spec fn on_edge(link: EdgeLink, along: i64) -> Vec2 {
    if link.side.is_vertical() {
        Vec2 { x: (link.at * PIXEL) as i64, y: along }
    } else {
        Vec2 { x: along, y: (link.at * PIXEL) as i64 }
    }
}

pub fn edge_position(link: &EdgeLink, along: i64) -> (r: Vec2)
    ensures
        r == on_edge(*link, along),
{
    let at: i64 = link.at as i64 * PIXEL;
    if link.side.vertical() {
        Vec2 { x: at, y: along }
    } else {
        Vec2 { x: along, y: at }
    }
}

/// The coordinate that runs along a link's edge.
pub open spec fn along_edge(link: EdgeLink, pos: Vec2) -> i64 {
    if link.side.is_vertical() {
        pos.y
    } else {
        pos.x
    }
}

pub fn along_of(link: &EdgeLink, pos: Vec2) -> (r: i64)
    ensures
        r == along_edge(*link, pos),
{
    if link.side.vertical() {
        pos.y
    } else {
        pos.x
    }
}

/// One pixel inside a link's edge, on the side that is left.
pub open spec fn inside_from(link: EdgeLink, pos: Vec2) -> Vec2 {
    match link.side {
        EdgeSide::Left => Vec2 { x: ((link.at + 1) * PIXEL) as i64, y: pos.y },
        EdgeSide::Right => Vec2 { x: ((link.at - 1) * PIXEL) as i64, y: pos.y },
        EdgeSide::Top => Vec2 { x: pos.x, y: ((link.at + 1) * PIXEL) as i64 },
        EdgeSide::Bottom => Vec2 { x: pos.x, y: ((link.at - 1) * PIXEL) as i64 },
    }
}

pub fn position_inside_from_edge(link: &EdgeLink, pos: Vec2) -> (r: Vec2)
    ensures
        r == inside_from(*link, pos),
{
    let at: i64 = link.at as i64;
    match link.side {
        EdgeSide::Left => Vec2 { x: (at + 1) * PIXEL, y: pos.y },
        EdgeSide::Right => Vec2 { x: (at - 1) * PIXEL, y: pos.y },
        EdgeSide::Top => Vec2 { x: pos.x, y: (at + 1) * PIXEL },
        EdgeSide::Bottom => Vec2 { x: pos.x, y: (at - 1) * PIXEL },
    }
}

/// Where a crossing leads to: the same distance along the shared stretch.
pub open spec fn landing(link: EdgeLink, pos: Vec2) -> Vec2 {
    let along = link.to_range.0 * PIXEL + (along_edge(link, pos) - link.from_range.0 * PIXEL);
    if link.side.is_vertical() {
        Vec2 { x: (link.to_at * PIXEL) as i64, y: along as i64 }
    } else {
        Vec2 { x: along as i64, y: (link.to_at * PIXEL) as i64 }
    }
}

pub fn landing_pos(link: &EdgeLink, pos: Vec2) -> (r: Vec2)
    requires
        pos.bounded(),
    ensures
        r == landing(*link, pos),
{
    let along: i64 = along_of(link, pos);
    let to_along: i64 = link.to_range.0 as i64 * PIXEL + (along - link.from_range.0 as i64 * PIXEL);
    let to_at: i64 = link.to_at as i64 * PIXEL;
    if link.side.vertical() {
        Vec2 { x: to_at, y: to_along }
    } else {
        Vec2 { x: to_along, y: to_at }
    }
}

/// One pixel inside a link's edge, on the side that is entered.
pub open spec fn inside_to(link: EdgeLink, pos: Vec2) -> Vec2 {
    let p = landing(link, pos);
    match link.side {
        EdgeSide::Left => Vec2 { x: (p.x - PIXEL) as i64, y: p.y },
        EdgeSide::Right => Vec2 { x: (p.x + PIXEL) as i64, y: p.y },
        EdgeSide::Top => Vec2 { x: p.x, y: (p.y - PIXEL) as i64 },
        EdgeSide::Bottom => Vec2 { x: p.x, y: (p.y + PIXEL) as i64 },
    }
}

pub fn position_inside_to_edge(link: &EdgeLink, pos: Vec2) -> (r: Vec2)
    requires
        pos.bounded(),
    ensures
        r == inside_to(*link, pos),
{
    let p = landing_pos(link, pos);
    match link.side {
        EdgeSide::Left => Vec2 { x: p.x - PIXEL, y: p.y },
        EdgeSide::Right => Vec2 { x: p.x + PIXEL, y: p.y },
        EdgeSide::Top => Vec2 { x: p.x, y: p.y - PIXEL },
        EdgeSide::Bottom => Vec2 { x: p.x, y: p.y + PIXEL },
    }
}

/// The part of a link's edge at each end that no crossing happens in: the dead zone, but
/// no more than a quarter of the edge.
pub open spec fn dead(link: EdgeLink, zone: u32) -> int {
    let quarter = (link.from_range.1 - link.from_range.0) * PIXEL / 4;
    if quarter < zone * PIXEL {
        quarter
    } else {
        zone * PIXEL
    }
}

/// Inside a link's edge, away from the corners.
pub open spec fn amid(link: EdgeLink, along: i64, zone: u32) -> bool {
    link.from_range.0 * PIXEL + dead(link, zone) < along < link.from_range.1 * PIXEL - dead(
        link,
        zone,
    )
}

pub fn amid_edge(link: &EdgeLink, along: i64, zone: u32) -> (r: bool)
    ensures
        r == amid(*link, along, zone),
{
    let span: i64 = link.from_range.1 as i64 - link.from_range.0 as i64;
    let quarter: i64 = span * (PIXEL / 4);
    let whole: i64 = zone as i64 * PIXEL;
    let margin: i64 = if quarter < whole {
        quarter
    } else {
        whole
    };
    assert(span * PIXEL / 4 == quarter) by {
        assert(span * PIXEL == quarter * 4);
    }
    along > link.from_range.0 as i64 * PIXEL + margin && along < link.from_range.1 as i64 * PIXEL
        - margin
}

/// At or beyond a link's edge.
pub open spec fn reaches(link: EdgeLink, pos: Vec2) -> bool {
    match link.side {
        EdgeSide::Left => pos.x <= link.at * PIXEL,
        EdgeSide::Right => pos.x >= link.at * PIXEL,
        EdgeSide::Top => pos.y <= link.at * PIXEL,
        EdgeSide::Bottom => pos.y >= link.at * PIXEL,
    }
}

pub fn reaches_edge(link: &EdgeLink, pos: Vec2) -> (r: bool)
    ensures
        r == reaches(*link, pos),
{
    let at: i64 = link.at as i64 * PIXEL;
    match link.side {
        EdgeSide::Left => pos.x <= at,
        EdgeSide::Right => pos.x >= at,
        EdgeSide::Top => pos.y <= at,
        EdgeSide::Bottom => pos.y >= at,
    }
}

/// A position leaves a machine through a link.
pub open spec fn crosses(link: EdgeLink, from: Seq<char>, pos: Vec2, zone: u32) -> bool {
    link.from@ == from && reaches(link, pos) && amid(link, along_edge(link, pos), zone)
}

/// The first of the links that a position crosses, or their number.
pub open spec fn crossing_place(links: Seq<EdgeLink>, from: Seq<char>, pos: Vec2, zone: u32) -> int
    decreases links.len(),
{
    if links.len() == 0 {
        0
    } else if crosses(links[0], from, pos, zone) {
        0
    } else {
        1 + crossing_place(links.skip(1), from, pos, zone)
    }
}

proof fn lemma_crossing_place(
    links: Seq<EdgeLink>,
    from: Seq<char>,
    pos: Vec2,
    zone: u32,
    at: int,
)
    requires
        0 <= at <= links.len(),
        forall|i: int| 0 <= i < at ==> !crosses(#[trigger] links[i], from, pos, zone),
        at < links.len() ==> crosses(links[at], from, pos, zone),
    ensures
        crossing_place(links, from, pos, zone) == at,
    decreases links.len(),
{
    if links.len() > 0 && at > 0 {
        assert(!crosses(links[0], from, pos, zone));
        let rest = links.skip(1);
        assert forall|i: int| 0 <= i < at - 1 implies !crosses(
            #[trigger] rest[i],
            from,
            pos,
            zone,
        ) by {
            assert(rest[i] == links[i + 1]);
        }
        lemma_crossing_place(rest, from, pos, zone, at - 1);
    }
}

/// The link through which a position leaves a machine.
pub open spec fn crossing_of(links: Seq<EdgeLink>, from: Seq<char>, pos: Vec2, zone: u32) -> Option<
    EdgeLink,
> {
    let at = crossing_place(links, from, pos, zone);
    if at < links.len() {
        Some(links[at])
    } else {
        None
    }
}

pub fn find_crossing(links: &[EdgeLink], from: &MachineId, pos: Vec2, zone: u32) -> (r: Option<
    EdgeLink,
>)
    ensures
        r == crossing_of(links@, from@, pos, zone),
{
    for i in 0..links.len()
        invariant
            forall|k: int| 0 <= k < i ==> !crosses(#[trigger] links@[k], from@, pos, zone),
    {
        let link = &links[i];
        if link.from.same(from) && reaches_edge(link, pos) && amid_edge(
            link,
            along_of(link, pos),
            zone,
        ) {
            proof {
                lemma_crossing_place(links@, from@, pos, zone, i as int);
            }
            return Some(link.clone());
        }
    }
    proof {
        lemma_crossing_place(links@, from@, pos, zone, links@.len() as int);
    }
    None
}

/// A point no farther out than arithmetic is carried out for.
pub open spec fn within(p: Vec2) -> Vec2 {
    Vec2 {
        x: clamp_int(p.x as int, -POINT_REACH as int, POINT_REACH as int) as i64,
        y: clamp_int(p.y as int, -POINT_REACH as int, POINT_REACH as int) as i64,
    }
}

pub fn keep_within(p: Vec2) -> (r: Vec2)
    ensures
        r == within(p),
        r.bounded(),
{
    Vec2 {
        x: clamp_between(p.x, -POINT_REACH, POINT_REACH),
        y: clamp_between(p.y, -POINT_REACH, POINT_REACH),
    }
}

/// Motion at a speed, rounded toward zero.
pub open spec fn scaled(delta: i64, factor: i64) -> i64 {
    clamp_int(
        quotient(delta * factor, PIXEL as int),
        -POINT_REACH as int,
        POINT_REACH as int,
    ) as i64
}

pub fn scale(delta: i64, factor: i64) -> (r: i64)
    ensures
        r == scaled(delta, factor),
        -POINT_REACH <= r <= POINT_REACH,
{
    assert(-0x4000_0000_0000_0000_0000_0000_0000_0000 <= delta * factor
        <= 0x4000_0000_0000_0000_0000_0000_0000_0000) by (nonlinear_arith)
        requires
            -0x8000_0000_0000_0000 <= delta <= 0x7fff_ffff_ffff_ffff,
            -0x8000_0000_0000_0000 <= factor <= 0x7fff_ffff_ffff_ffff,
    ;
    let product: i128 = delta as i128 * factor as i128;
    let whole: i128 = if product >= 0 {
        product / PIXEL as i128
    } else {
        -((-product) / PIXEL as i128)
    };
    if whole < -POINT_REACH as i128 {
        -POINT_REACH
    } else if whole > POINT_REACH as i128 {
        POINT_REACH
    } else {
        whole as i64
    }
}

/// A point moved.
pub open spec fn moved_by(p: Vec2, dx: i64, dy: i64) -> Vec2 {
    within(Vec2 { x: (p.x + dx) as i64, y: (p.y + dy) as i64 })
}

pub fn move_by(p: Vec2, dx: i64, dy: i64) -> (r: Vec2)
    requires
        p.bounded(),
        -POINT_REACH <= dx <= POINT_REACH,
        -POINT_REACH <= dy <= POINT_REACH,
    ensures
        r == moved_by(p, dx, dy),
        r.bounded(),
{
    keep_within(Vec2 { x: p.x + dx, y: p.y + dy })
}

/// Motion as a gesture measures it.
pub open spec fn gestured(delta: i64) -> i64 {
    clamp_int(
        delta * (POINT / PIXEL),
        i64::MIN as int,
        i64::MAX as int,
    ) as i64
}

pub fn to_gesture(delta: i64) -> (r: i64)
    ensures
        r == gestured(delta),
{
    let wide: i128 = delta as i128 * (POINT / PIXEL) as i128;
    if wide < i64::MIN as i128 {
        i64::MIN
    } else if wide > i64::MAX as i128 {
        i64::MAX
    } else {
        wide as i64
    }
}

/// The same link: the same machines, the same stretch.
pub open spec fn is_link(a: EdgeLink, b: EdgeLink) -> bool {
    &&& a.from@ == b.from@
    &&& a.to@ == b.to@
    &&& a.side == b.side
    &&& a.at == b.at
    &&& a.from_range == b.from_range
    &&& a.to_range == b.to_range
    &&& a.to_at == b.to_at
}

pub open spec fn has_link(links: Seq<EdgeLink>, link: EdgeLink) -> bool {
    exists|i: int| 0 <= i < links.len() && is_link(#[trigger] links[i], link)
}

pub fn contains_link(links: &Vec<EdgeLink>, link: &EdgeLink) -> (r: bool)
    ensures
        r == has_link(links@, *link),
{
    for i in 0..links.len()
        invariant
            forall|k: int| 0 <= k < i ==> !is_link(#[trigger] links@[k], *link),
    {
        let a = &links[i];
        if a.from.same(&link.from) && a.to.same(&link.to) && a.side == link.side && a.at == link.at
            && a.from_range.0 == link.from_range.0 && a.from_range.1 == link.from_range.1
            && a.to_range.0 == link.to_range.0 && a.to_range.1 == link.to_range.1 && a.to_at
            == link.to_at {
            assert(is_link(links@[i as int], *link));
            return true;
        }
    }
    false
}

/// A raw pointer lands on a display wherever the machine has one, eight pixels off each of
/// its edges, or in the middle where there is no room for that.
pub proof fn a_raw_pointer_lands_on_a_display(displays: Seq<DisplayRect>, pos: Vec2)
    requires
        pos.bounded(),
        any_area(displays),
    ensures
        ({
            let at = holding(displays, clamped_into(displays, pos));
            let d = displays[at];
            let p = landed(displays, pos);
            &&& 0 <= at < displays.len()
            &&& on_display(d, p)
            &&& d.x * PIXEL + inset(d.w as int) <= p.x <= (d.x + d.w) * PIXEL - inset(d.w as int)
            &&& d.y * PIXEL + inset(d.h as int) <= p.y <= (d.y + d.h) * PIXEL - inset(d.h as int)
        }),
{
    let p = clamped_into(displays, pos);
    a_clamped_position_is_on_a_display(displays, pos);
    let i = choose|i: int| 0 <= i < displays.len() && on_display(#[trigger] displays[i], p);
    lemma_holding_is(displays, p);
    lemma_held(displays, p, i);
}

/// A point on some display is held.
proof fn lemma_held(displays: Seq<DisplayRect>, p: Vec2, i: int)
    requires
        0 <= i < displays.len(),
        on_display(displays[i], p),
    ensures
        holding(displays, p) < displays.len(),
    decreases displays.len(),
{
    if !on_display(displays[0], p) {
        lemma_held(displays.skip(1), p, i - 1);
    }
}

proof fn lemma_holding_is(displays: Seq<DisplayRect>, p: Vec2)
    ensures
        0 <= holding(displays, p) <= displays.len(),
        holding(displays, p) < displays.len() ==> on_display(displays[holding(displays, p)], p),
    decreases displays.len(),
{
    if displays.len() > 0 && !on_display(displays[0], p) {
        lemma_holding_is(displays.skip(1), p);
    }
}

/// A crossing keeps the distance along the shared stretch: crossing back leads to where it
/// began, one pixel inside the edge.
pub proof fn crossing_back_leads_home(link: EdgeLink, back: EdgeLink, pos: Vec2)
    requires
        pos.bounded(),
        back.side == link.side.facing(),
        back.from_range == link.to_range,
        back.to_range == link.from_range,
        back.to_at == link.at,
    ensures
        inside_to(back, inside_to(link, pos)) == inside_from(link, pos),
{
}

} // verus!
