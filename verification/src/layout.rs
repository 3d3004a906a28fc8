//! Layout and edge math: place machines' display sets on a shared canvas, compute crossable
//! edge links, map crossing positions, clamp cursor motion into display unions.
//!
//! - Per-display rects, never bounding boxes. Outer-boundary tests respect non-rectangular
//!   unions (dead corners).
//! - Shared edges between machines A and B are the overlapping segments where an outer
//!   edge of A's union touches an outer edge of B's union in canvas coordinates (within a
//!   tolerance of two pixels).
//! - Entry mapping preserves the position along the shared segment 1:1 (segments are the
//!   geometric overlap, equal length by construction).

use crate::arrange::bounds::{abs_int, larger, magnitude, max_int, min_int, smaller};
use crate::geometry::{DisplayRect, EdgeSide, Vec2, Vec2I, PIXEL, POINT_REACH};
use crate::machine::MachineId;
use vstd::prelude::*;

verus! {

pub const EDGE_ALIGNMENT_TOLERANCE: i64 = 2;

pub const MIN_EDGE_OVERLAP: i64 = 32;

/// Where a machine stands on the canvas, and whether it takes part.
#[derive(Clone, Copy, Debug, PartialEq, Eq, Structural)]
pub struct MachinePlacement {
    pub offset: Vec2I,
    pub enabled: bool,
}

/// Everything layout math needs to know about one machine.
#[derive(Debug)]
pub struct MachineGeom {
    pub id: MachineId,
    pub displays: Vec<DisplayRect>,
    pub placement: MachinePlacement,
    /// Machine is online + connected (affects what is crossable, not geometry).
    pub reachable: bool,
}

/// Directed crossable edge: leaving `from` through `side` lands on `to`.
#[derive(Debug, PartialEq)]
pub struct EdgeLink {
    pub from: MachineId,
    pub to: MachineId,
    pub side: EdgeSide,
    /// Boundary coordinate on the crossing axis, in FROM-machine local coords.
    pub at: i32,
    /// Overlap segment along the edge, in FROM-machine local coords.
    pub from_range: (i32, i32),
    /// Same segment in TO-machine local coords (equal length; maps 1:1).
    pub to_range: (i32, i32),
    /// Landing boundary coordinate on the crossing axis, in TO-machine local coords.
    pub to_at: i32,
}

impl Clone for EdgeLink {
    fn clone(&self) -> (r: Self)
        ensures
            r == *self,
    {
        EdgeLink {
            from: self.from.clone(),
            to: self.to.clone(),
            side: self.side,
            at: self.at,
            from_range: self.from_range,
            to_range: self.to_range,
            to_at: self.to_at,
        }
    }
}

/// An edge of the capture area, as the platform is told of it.
#[derive(Clone, Copy, Debug, PartialEq, Eq, Structural)]
pub struct EdgeSpec {
    pub id: u32,
    pub side: EdgeSide,
    pub at: i32,
    pub from: i32,
    pub to: i32,
}

/// A display's rectangle in its machine's own coordinates.
#[derive(Clone, Copy)]
pub struct RectBounds {
    pub left: i64,
    pub right: i64,
    pub top: i64,
    pub bottom: i64,
}

impl RectBounds {
    pub open spec fn of(display: DisplayRect) -> Option<RectBounds> {
        if display.has_area() {
            Some(
                RectBounds {
                    left: display.x as i64,
                    right: (display.x + display.w) as i64,
                    top: display.y as i64,
                    bottom: (display.y + display.h) as i64,
                },
            )
        } else {
            None
        }
    }

    pub fn from_display(display: &DisplayRect) -> (r: Option<Self>)
        ensures
            r == RectBounds::of(*display),
    {
        if display.w == 0 || display.h == 0 {
            return None;
        }
        let left: i64 = display.x as i64;
        let top: i64 = display.y as i64;
        Some(
            RectBounds {
                left,
                right: left + display.w as i64,
                top,
                bottom: top + display.h as i64,
            },
        )
    }
}

/// A piece of the outer boundary of a machine's displays.
#[derive(Clone, Copy, Debug, PartialEq, Eq, Structural)]
pub struct EdgeSegment {
    pub side: EdgeSide,
    pub at: i64,
    pub start: i64,
    pub end: i64,
}

impl EdgeSegment {
    pub open spec fn bounded(self, reach: int) -> bool {
        &&& -reach <= self.at <= reach
        &&& -reach <= self.start <= reach
        &&& -reach <= self.end <= reach
    }

    pub open spec fn moved(self, offset: Vec2I) -> EdgeSegment {
        let (cross, along) = if self.side.is_vertical() {
            (offset.x, offset.y)
        } else {
            (offset.y, offset.x)
        };
        EdgeSegment {
            side: self.side,
            at: (self.at + cross) as i64,
            start: (self.start + along) as i64,
            end: (self.end + along) as i64,
        }
    }

    pub fn translated(self, offset: Vec2I) -> (r: Self)
        requires
            self.bounded(0x1_0000_0000_0000),
        ensures
            r == self.moved(offset),
    {
        match self.side {
            EdgeSide::Left | EdgeSide::Right => EdgeSegment {
                side: self.side,
                at: self.at + offset.x as i64,
                start: self.start + offset.y as i64,
                end: self.end + offset.y as i64,
            },
            EdgeSide::Top | EdgeSide::Bottom => EdgeSegment {
                side: self.side,
                at: self.at + offset.y as i64,
                start: self.start + offset.x as i64,
                end: self.end + offset.x as i64,
            },
        }
    }
}

// ---- outer boundary ----

/// The maximal runs of free points in `[start, end)`, in order, as half-open intervals.
pub open spec fn runs(start: int, end: int, free: spec_fn(int) -> bool) -> Seq<(i64, i64)>
    decreases end - start,
{
    if end <= start {
        Seq::empty()
    } else {
        let before = runs(start, end - 1, free);
        if !free(end - 1) {
            before
        } else if before.len() > 0 && before.last().1 == end - 1 {
            before.drop_last().push((before.last().0, end as i64))
        } else {
            before.push(((end - 1) as i64, end as i64))
        }
    }
}

/// None of the half-open intervals holds `x`.
pub open spec fn uncovered(covered: Seq<(i64, i64)>, x: int) -> bool {
    forall|i: int| 0 <= i < covered.len() ==> !((#[trigger] covered[i]).0 <= x < covered[i].1)
}

/// Runs end at or before where the scan ended.
proof fn lemma_runs_end(start: int, end: int, free: spec_fn(int) -> bool)
    requires
        i64::MIN <= start,
        end <= i64::MAX,
    ensures
        forall|i: int|
            0 <= i < runs(start, end, free).len() ==> start <= (#[trigger] runs(
                start,
                end,
                free,
            )[i]).0 < runs(start, end, free)[i].1 <= end,
    decreases end - start,
{
    if end > start {
        lemma_runs_end(start, end - 1, free);
        let before = runs(start, end - 1, free);
        let after = runs(start, end, free);
        assert forall|i: int| 0 <= i < after.len() implies start <= (#[trigger] after[i]).0
            < after[i].1 <= end by {
            if i < before.len() - 1 {
                assert(after[i] == before[i]);
            } else if i == before.len() - 1 {
                assert(before[i] == before.last());
            }
        }
    }
}

/// Scanning over points that are not free adds nothing.
proof fn lemma_runs_skip(start: int, mid: int, end: int, free: spec_fn(int) -> bool)
    requires
        start <= mid <= end,
        forall|x: int| mid <= x < end ==> !#[trigger] free(x),
    ensures
        runs(start, end, free) == runs(start, mid, free),
    decreases end - mid,
{
    if mid < end {
        lemma_runs_skip(start, mid, end - 1, free);
        assert(!free(end - 1));
    }
}

/// Scanning over a stretch of free points adds one run.
proof fn lemma_runs_add(start: int, mid: int, end: int, free: spec_fn(int) -> bool)
    requires
        i64::MIN <= start <= mid < end <= i64::MAX,
        mid == start || !free(mid - 1),
        forall|x: int| mid <= x < end ==> #[trigger] free(x),
    ensures
        runs(start, end, free) == runs(start, mid, free).push((mid as i64, end as i64)),
    decreases end - mid,
{
    assert(free(end - 1));
    if end == mid + 1 {
        let before = runs(start, mid, free);
        if before.len() > 0 && before.last().1 == mid {
            lemma_runs_end(start, mid - 1, free);
            assert(before == runs(start, mid - 1, free));
            assert(before[before.len() - 1].1 <= mid - 1);
        }
    } else {
        lemma_runs_add(start, mid, end - 1, free);
        let before = runs(start, end - 1, free);
        assert(before.last() == (mid as i64, (end - 1) as i64));
        assert(before.drop_last() =~= runs(start, mid, free));
    }
}

/// Keeps a list of intervals sorted by start.
fn insert_cover(covered: &mut Vec<(i64, i64)>, interval: (i64, i64))
    requires
        forall|i: int, j: int|
            0 <= i <= j < old(covered)@.len() ==> (#[trigger] old(covered)@[i]).0 <= (
            #[trigger] old(covered)@[j]).0,
    ensures
        forall|i: int, j: int|
            0 <= i <= j < final(covered)@.len() ==> (#[trigger] final(covered)@[i]).0 <= (
            #[trigger] final(covered)@[j]).0,
        exists|at: int|
            0 <= at <= old(covered)@.len() && #[trigger] old(covered)@.insert(at, interval)
                == final(covered)@,
{
    let mut at: usize = 0;
    while at < covered.len() && covered[at].0 <= interval.0
        invariant
            at <= covered@.len(),
            covered@ == old(covered)@,
            forall|j: int| 0 <= j < at ==> (#[trigger] covered@[j]).0 <= interval.0,
        decreases covered.len() - at,
    {
        at = at + 1;
    }
    covered.insert(at, interval);
    assert(old(covered)@.insert(at as int, interval) == covered@);
}

/// The parts of `[start, end)` that no interval of `covered` covers, in order.
pub fn uncovered_segments(start: i64, end: i64, covered: &[(i64, i64)]) -> (r: Vec<(i64, i64)>)
    ensures
        r@ == runs(start as int, end as int, |x: int| uncovered(covered@, x)),
{
    let ghost free = |x: int| uncovered(covered@, x);
    let mut clipped: Vec<(i64, i64)> = Vec::new();
    for i in 0..covered.len()
        invariant
            forall|a: int, b: int|
                0 <= a <= b < clipped@.len() ==> (#[trigger] clipped@[a]).0 <= (
                #[trigger] clipped@[b]).0,
            forall|a: int|
                0 <= a < clipped@.len() ==> start <= (#[trigger] clipped@[a]).0 < clipped@[a].1
                    <= end,
            forall|x: int|
                start <= x < end ==> #[trigger] uncovered(clipped@, x) == uncovered(
                    covered@.take(i as int),
                    x,
                ),
    {
        let (covered_start, covered_end) = covered[i];
        let from: i64 = larger(covered_start, start);
        let to: i64 = smaller(covered_end, end);
        let ghost before = clipped@;
        let ghost head = covered@.take(i as int);
        let ghost next = covered@.take(i + 1);
        if from < to {
            insert_cover(&mut clipped, (from, to));
            proof {
                let at = choose|at: int|
                    0 <= at <= before.len() && #[trigger] before.insert(at, (from, to))
                        == clipped@;
                assert forall|a: int| 0 <= a < clipped@.len() implies start <= (
                #[trigger] clipped@[a]).0 < clipped@[a].1 <= end by {
                    if a < at {
                        assert(clipped@[a] == before[a]);
                    } else if a > at {
                        assert(clipped@[a] == before[a - 1]);
                    }
                }
                assert forall|x: int| start <= x < end implies #[trigger] uncovered(clipped@, x)
                    == (uncovered(before, x) && !(from <= x < to)) by {
                    if uncovered(clipped@, x) {
                        assert(clipped@[at] == (from, to));
                        assert forall|k: int| 0 <= k < before.len() implies !((
                        #[trigger] before[k]).0 <= x < before[k].1) by {
                            if k < at {
                                assert(clipped@[k] == before[k]);
                            } else {
                                assert(clipped@[k + 1] == before[k]);
                            }
                        }
                    }
                    if uncovered(before, x) && !(from <= x < to) {
                        assert forall|k: int| 0 <= k < clipped@.len() implies !((
                        #[trigger] clipped@[k]).0 <= x < clipped@[k].1) by {
                            if k < at {
                                assert(clipped@[k] == before[k]);
                            } else if k > at {
                                assert(clipped@[k] == before[k - 1]);
                            }
                        }
                    }
                }
            }
        }
        proof {
            assert forall|x: int| start <= x < end implies #[trigger] uncovered(clipped@, x)
                == uncovered(next, x) by {
                assert(uncovered(next, x) == (uncovered(head, x) && !(covered_start <= x
                    < covered_end))) by {
                    if uncovered(next, x) {
                        assert(next[i as int] == (covered_start, covered_end));
                        assert forall|k: int| 0 <= k < head.len() implies !((
                        #[trigger] head[k]).0 <= x < head[k].1) by {
                            assert(next[k] == head[k]);
                        }
                    }
                    if uncovered(head, x) && !(covered_start <= x < covered_end) {
                        assert forall|k: int| 0 <= k < next.len() implies !((
                        #[trigger] next[k]).0 <= x < next[k].1) by {
                            if k < i {
                                assert(next[k] == head[k]);
                            }
                        }
                    }
                }
                assert(uncovered(before, x) == uncovered(head, x));
            }
        }
    }
    assert(covered@.take(covered@.len() as int) =~= covered@);
    let mut segments: Vec<(i64, i64)> = Vec::new();
    let mut cursor: i64 = start;
    let mut i: usize = 0;
    while i < clipped.len() && cursor < end
        invariant
            i <= clipped@.len(),
            start <= cursor,
            start < end ==> cursor <= end,
            start >= end ==> cursor == start,
            free == (|x: int| uncovered(covered@, x)),
            forall|a: int, b: int|
                0 <= a <= b < clipped@.len() ==> (#[trigger] clipped@[a]).0 <= (
                #[trigger] clipped@[b]).0,
            forall|a: int|
                0 <= a < clipped@.len() ==> start <= (#[trigger] clipped@[a]).0 < clipped@[a].1
                    <= end,
            forall|x: int|
                start <= x < end ==> #[trigger] uncovered(clipped@, x) == uncovered(covered@, x),
            forall|a: int| 0 <= a < i ==> (#[trigger] clipped@[a]).1 <= cursor,
            segments@ == runs(start as int, cursor as int, free),
            cursor == start || !free(cursor - 1),
        decreases clipped.len() - i,
    {
        let (covered_start, covered_end) = clipped[i];
        let ghost reached = max_int(cursor as int, covered_end as int);
        if cursor < covered_start {
            proof {
                assert forall|x: int| cursor <= x < covered_start implies #[trigger] free(x) by {
                    assert(uncovered(clipped@, x)) by {
                        assert forall|k: int| 0 <= k < clipped@.len() implies !((
                        #[trigger] clipped@[k]).0 <= x < clipped@[k].1) by {
                            if k >= i {
                                assert(clipped@[i as int].0 <= clipped@[k].0);
                            }
                        }
                    }
                }
                lemma_runs_add(start as int, cursor as int, covered_start as int, free);
            }
            segments.push((cursor, covered_start));
        }
        proof {
            let mid = max_int(cursor as int, covered_start as int);
            assert forall|x: int| mid <= x < reached implies !#[trigger] free(x) by {
                assert(clipped@[i as int].0 <= x < clipped@[i as int].1);
                assert(!uncovered(clipped@, x));
            }
            if mid <= reached {
                lemma_runs_skip(start as int, mid, reached, free);
            }
            if reached > cursor {
                assert(!free(reached - 1)) by {
                    assert(clipped@[i as int].0 <= reached - 1 < clipped@[i as int].1);
                    assert(!uncovered(clipped@, reached - 1));
                }
            }
        }
        cursor = larger(cursor, covered_end);
        i = i + 1;
    }
    if cursor < end {
        proof {
            assert forall|x: int| cursor <= x < end implies #[trigger] free(x) by {
                assert(uncovered(clipped@, x)) by {
                    assert forall|k: int| 0 <= k < clipped@.len() implies !((
                    #[trigger] clipped@[k]).0 <= x < clipped@[k].1) by {}
                }
            }
            lemma_runs_add(start as int, cursor as int, end as int, free);
        }
        segments.push((cursor, end));
    }
    segments
}

pub open spec fn side_number(i: int) -> EdgeSide {
    if i == 0 {
        EdgeSide::Left
    } else if i == 1 {
        EdgeSide::Right
    } else if i == 2 {
        EdgeSide::Top
    } else {
        EdgeSide::Bottom
    }
}

fn side_of(i: usize) -> (r: EdgeSide)
    ensures
        r == side_number(i as int),
{
    if i == 0 {
        EdgeSide::Left
    } else if i == 1 {
        EdgeSide::Right
    } else if i == 2 {
        EdgeSide::Top
    } else {
        EdgeSide::Bottom
    }
}

/// Where a side of a rectangle lies, and its extent.
pub open spec fn edge_of(rect: RectBounds, side: EdgeSide) -> (i64, i64, i64) {
    match side {
        EdgeSide::Left => (rect.left, rect.top, rect.bottom),
        EdgeSide::Right => (rect.right, rect.top, rect.bottom),
        EdgeSide::Top => (rect.top, rect.left, rect.right),
        EdgeSide::Bottom => (rect.bottom, rect.left, rect.right),
    }
}

/// `other` reaches just outside the line at `at`, on `side`.
pub open spec fn beyond(other: RectBounds, side: EdgeSide, at: i64) -> bool {
    match side {
        EdgeSide::Left => other.left < at && other.right >= at,
        EdgeSide::Right => other.left <= at && other.right > at,
        EdgeSide::Top => other.top < at && other.bottom >= at,
        EdgeSide::Bottom => other.top <= at && other.bottom > at,
    }
}

/// The extent of a rectangle along `side`.
pub open spec fn reach_along(rect: RectBounds, side: EdgeSide) -> (i64, i64) {
    if side.is_vertical() {
        (rect.top, rect.bottom)
    } else {
        (rect.left, rect.right)
    }
}

/// No other display continues past the point `x` of display `index`'s `side`.
pub open spec fn exposed(displays: Seq<DisplayRect>, index: int, side: EdgeSide, x: int) -> bool {
    forall|other: int|
        0 <= other < displays.len() && other != index ==> (RectBounds::of(
            #[trigger] displays[other],
        ) matches Some(rect) ==> !(beyond(
            rect,
            side,
            edge_of(RectBounds::of(displays[index])->0, side).0,
        ) && reach_along(rect, side).0 <= x < reach_along(rect, side).1))
}

/// The exposed pieces of one side of a display.
pub open spec fn side_edges(displays: Seq<DisplayRect>, index: int, side: EdgeSide) -> Seq<
    EdgeSegment,
> {
    match RectBounds::of(displays[index]) {
        Some(rect) => {
            let (at, start, end) = edge_of(rect, side);
            let pieces = runs(
                start as int,
                end as int,
                |x: int| exposed(displays, index, side, x),
            );
            Seq::new(
                pieces.len(),
                |i: int| EdgeSegment { side, at, start: pieces[i].0, end: pieces[i].1 },
            )
        },
        None => Seq::empty(),
    }
}

/// The exposed pieces of the first `n` sides of a display.
pub open spec fn display_edges(displays: Seq<DisplayRect>, index: int, n: nat) -> Seq<EdgeSegment>
    decreases n,
{
    if n == 0 {
        Seq::empty()
    } else {
        display_edges(displays, index, (n - 1) as nat) + side_edges(
            displays,
            index,
            side_number(n - 1),
        )
    }
}

/// The outer boundary of the first `n` displays within the union of all.
pub open spec fn boundary(displays: Seq<DisplayRect>, n: nat) -> Seq<EdgeSegment>
    decreases n,
{
    if n == 0 {
        Seq::empty()
    } else {
        boundary(displays, (n - 1) as nat) + display_edges(displays, n - 1, 4)
    }
}

/// Runs are the same for two ways of saying which points are free.
proof fn lemma_runs_same(
    start: int,
    end: int,
    one: spec_fn(int) -> bool,
    other: spec_fn(int) -> bool,
)
    requires
        forall|x: int| start <= x < end ==> #[trigger] one(x) == other(x),
    ensures
        runs(start, end, one) == runs(start, end, other),
    decreases end - start,
{
    if start < end {
        lemma_runs_same(start, end - 1, one, other);
        assert(one(end - 1) == other(end - 1));
    }
}

/// Adds the exposed pieces of one side of a display.
fn add_side_edges(
    edges: &mut Vec<EdgeSegment>,
    displays: &[DisplayRect],
    index: usize,
    rect: RectBounds,
    side: EdgeSide,
)
    requires
        index < displays@.len(),
        RectBounds::of(displays@[index as int]) == Some(rect),
    ensures
        final(edges)@ == old(edges)@ + side_edges(displays@, index as int, side),
{
    let (at, start, end): (i64, i64, i64) = match side {
        EdgeSide::Left => (rect.left, rect.top, rect.bottom),
        EdgeSide::Right => (rect.right, rect.top, rect.bottom),
        EdgeSide::Top => (rect.top, rect.left, rect.right),
        EdgeSide::Bottom => (rect.bottom, rect.left, rect.right),
    };
    let mut covered: Vec<(i64, i64)> = Vec::new();
    for k in 0..displays.len()
        invariant
            index < displays@.len(),
            RectBounds::of(displays@[index as int]) == Some(rect),
            at == edge_of(rect, side).0,
            forall|x: int|
                #[trigger] uncovered(covered@, x) == (forall|other: int|
                    0 <= other < k && other != index ==> (RectBounds::of(
                        #[trigger] displays@[other],
                    ) matches Some(r) ==> !(beyond(r, side, at) && reach_along(r, side).0 <= x
                        < reach_along(r, side).1))),
    {
        let ghost before = covered@;
        if k != index {
            if let Some(other) = RectBounds::from_display(&displays[k]) {
                let past: bool = match side {
                    EdgeSide::Left => other.left < at && other.right >= at,
                    EdgeSide::Right => other.left <= at && other.right > at,
                    EdgeSide::Top => other.top < at && other.bottom >= at,
                    EdgeSide::Bottom => other.top <= at && other.bottom > at,
                };
                if past {
                    if side.vertical() {
                        covered.push((other.top, other.bottom));
                    } else {
                        covered.push((other.left, other.right));
                    }
                }
            }
        }
        proof {
            assert forall|x: int| #[trigger] uncovered(covered@, x) == (forall|other: int|
                0 <= other < k + 1 && other != index ==> (RectBounds::of(
                    #[trigger] displays@[other],
                ) matches Some(r) ==> !(beyond(r, side, at) && reach_along(r, side).0 <= x
                    < reach_along(r, side).1))) by {
                let fresh = k != index && (RectBounds::of(displays@[k as int]) matches Some(r)
                    && beyond(r, side, at) && reach_along(r, side).0 <= x < reach_along(r, side).1);
                assert(uncovered(covered@, x) == (uncovered(before, x) && !fresh)) by {
                    if covered@.len() > before.len() {
                        let last = covered@[before.len() as int];
                        assert(covered@ =~= before.push(last));
                        if uncovered(covered@, x) {
                            assert forall|i: int| 0 <= i < before.len() implies !((
                            #[trigger] before[i]).0 <= x < before[i].1) by {
                                assert(covered@[i] == before[i]);
                            }
                            assert(!(last.0 <= x < last.1));
                        }
                        if uncovered(before, x) && !(last.0 <= x < last.1) {
                            assert forall|i: int| 0 <= i < covered@.len() implies !((
                            #[trigger] covered@[i]).0 <= x < covered@[i].1) by {
                                if i < before.len() {
                                    assert(covered@[i] == before[i]);
                                }
                            }
                        }
                    }
                }
            }
        }
    }
    let pieces = uncovered_segments(start, end, &covered);
    let ghost before = edges@;
    proof {
        let listed = |x: int| uncovered(covered@, x);
        let shown = |x: int| exposed(displays@, index as int, side, x);
        assert forall|x: int| start <= x < end implies #[trigger] listed(x) == shown(x) by {
            assert(uncovered(covered@, x) == exposed(displays@, index as int, side, x));
        }
        lemma_runs_same(start as int, end as int, listed, shown);
    }
    let ghost whole = side_edges(displays@, index as int, side);
    assert(whole.len() == pieces@.len());
    for i in 0..pieces.len()
        invariant
            whole == side_edges(displays@, index as int, side),
            whole.len() == pieces@.len(),
            forall|k: int|
                0 <= k < pieces@.len() ==> #[trigger] whole[k] == (EdgeSegment {
                    side,
                    at,
                    start: pieces@[k].0,
                    end: pieces@[k].1,
                }),
            edges@ == before + whole.take(i as int),
    {
        let (piece_start, piece_end) = pieces[i];
        edges.push(EdgeSegment { side, at, start: piece_start, end: piece_end });
        assert(whole[i as int] == edges@.last());
        assert(edges@ =~= before + whole.take(i + 1));
    }
    assert(whole.take(whole.len() as int) =~= whole);
}

/// The outer boundary of a machine's displays.
pub fn outer_edges(displays: &[DisplayRect]) -> (r: Vec<EdgeSegment>)
    ensures
        r@ == boundary(displays@, displays@.len()),
{
    let mut edges: Vec<EdgeSegment> = Vec::new();
    for index in 0..displays.len()
        invariant
            edges@ == boundary(displays@, index as nat),
    {
        let ghost before = edges@;
        match RectBounds::from_display(&displays[index]) {
            Some(rect) => {
                assert(before =~= before + display_edges(displays@, index as int, 0));
                for k in 0..4usize
                    invariant
                        index < displays@.len(),
                        RectBounds::of(displays@[index as int]) == Some(rect),
                        edges@ == before + display_edges(displays@, index as int, k as nat),
                {
                    let side = side_of(k);
                    add_side_edges(&mut edges, displays, index, rect, side);
                    assert(edges@ =~= before + display_edges(
                        displays@,
                        index as int,
                        (k + 1) as nat,
                    ));
                }
            },
            None => {
                proof {
                    reveal_with_fuel(display_edges, 5);
                    assert(display_edges(displays@, index as int, 4) =~= Seq::empty());
                    assert(before =~= before + display_edges(displays@, index as int, 4));
                }
            },
        }
    }
    edges
}

// ---- links ----

pub fn opposite_sides(from: EdgeSide, to: EdgeSide) -> (r: bool)
    ensures
        r == (to == from.facing()),
{
    match (from, to) {
        (EdgeSide::Left, EdgeSide::Right) => true,
        (EdgeSide::Right, EdgeSide::Left) => true,
        (EdgeSide::Top, EdgeSide::Bottom) => true,
        (EdgeSide::Bottom, EdgeSide::Top) => true,
        _ => false,
    }
}

/// A placement's offset across an edge on `side`.
pub open spec fn cross_offset(placement: MachinePlacement, side: EdgeSide) -> int {
    if side.is_vertical() {
        placement.offset.x as int
    } else {
        placement.offset.y as int
    }
}

/// A placement's offset along an edge on `side`.
pub open spec fn along_offset(placement: MachinePlacement, side: EdgeSide) -> int {
    if side.is_vertical() {
        placement.offset.y as int
    } else {
        placement.offset.x as int
    }
}

pub open spec fn fits_i32(value: int) -> bool {
    i32::MIN <= value <= i32::MAX
}

/// Two edges face each other closely enough, over a long enough stretch.
pub open spec fn meets(from_edge: EdgeSegment, to_edge: EdgeSegment) -> bool {
    &&& to_edge.side == from_edge.side.facing()
    &&& abs_int(from_edge.at - to_edge.at) <= EDGE_ALIGNMENT_TOLERANCE
    &&& min_int(from_edge.end as int, to_edge.end as int) - max_int(
        from_edge.start as int,
        to_edge.start as int,
    ) >= MIN_EDGE_OVERLAP
}

/// The link from one machine to another through two facing edges (in canvas coordinates),
/// unless they do not meet or a local coordinate does not fit.
pub open spec fn link_of(
    from: MachineGeom,
    from_edge: EdgeSegment,
    to: MachineGeom,
    to_edge: EdgeSegment,
) -> Option<EdgeLink> {
    let side = from_edge.side;
    let start = max_int(from_edge.start as int, to_edge.start as int);
    let end = min_int(from_edge.end as int, to_edge.end as int);
    let at = from_edge.at - cross_offset(from.placement, side);
    let to_at = to_edge.at - cross_offset(to.placement, side);
    let from_start = start - along_offset(from.placement, side);
    let from_end = end - along_offset(from.placement, side);
    let to_start = start - along_offset(to.placement, side);
    let to_end = end - along_offset(to.placement, side);
    if meets(from_edge, to_edge) && fits_i32(at) && fits_i32(to_at) && fits_i32(from_start)
        && fits_i32(from_end) && fits_i32(to_start) && fits_i32(to_end) {
        Some(
            EdgeLink {
                from: from.id,
                to: to.id,
                side,
                at: at as i32,
                from_range: (from_start as i32, from_end as i32),
                to_range: (to_start as i32, to_end as i32),
                to_at: to_at as i32,
            },
        )
    } else {
        None
    }
}

fn narrow(value: i64) -> (r: Option<i32>)
    ensures
        r == (if fits_i32(value as int) {
            Some(value as i32)
        } else {
            None
        }),
{
    if value < i32::MIN as i64 || value > i32::MAX as i64 {
        None
    } else {
        Some(value as i32)
    }
}

pub fn edge_link(
    from: &MachineGeom,
    from_edge: EdgeSegment,
    to: &MachineGeom,
    to_edge: EdgeSegment,
) -> (r: Option<EdgeLink>)
    requires
        from_edge.bounded(0x2_0000_0000_0000),
        to_edge.bounded(0x2_0000_0000_0000),
    ensures
        r == link_of(*from, from_edge, *to, to_edge),
{
    if !opposite_sides(from_edge.side, to_edge.side) || magnitude(from_edge.at - to_edge.at)
        > EDGE_ALIGNMENT_TOLERANCE {
        return None;
    }
    let start: i64 = larger(from_edge.start, to_edge.start);
    let end: i64 = smaller(from_edge.end, to_edge.end);
    if end - start < MIN_EDGE_OVERLAP {
        return None;
    }
    let vertical: bool = from_edge.side.vertical();
    let from_cross: i64 = if vertical {
        from.placement.offset.x as i64
    } else {
        from.placement.offset.y as i64
    };
    let to_cross: i64 = if vertical {
        to.placement.offset.x as i64
    } else {
        to.placement.offset.y as i64
    };
    let from_along: i64 = if vertical {
        from.placement.offset.y as i64
    } else {
        from.placement.offset.x as i64
    };
    let to_along: i64 = if vertical {
        to.placement.offset.y as i64
    } else {
        to.placement.offset.x as i64
    };
    let at = narrow(from_edge.at - from_cross)?;
    let from_start = narrow(start - from_along)?;
    let from_end = narrow(end - from_along)?;
    let to_start = narrow(start - to_along)?;
    let to_end = narrow(end - to_along)?;
    let to_at = narrow(to_edge.at - to_cross)?;
    Some(
        EdgeLink {
            from: from.id.clone(),
            to: to.id.clone(),
            side: from_edge.side,
            at,
            from_range: (from_start, from_end),
            to_range: (to_start, to_end),
            to_at,
        },
    )
}

/// A machine takes part in links.
pub open spec fn linkable(machine: MachineGeom) -> bool {
    machine.placement.enabled && machine.reachable
}

/// A machine's outer boundary in canvas coordinates.
pub open spec fn placed_edges(machine: MachineGeom) -> Seq<EdgeSegment> {
    let local = boundary(machine.displays@, machine.displays@.len());
    Seq::new(local.len(), |i: int| local[i].moved(machine.placement.offset))
}

/// Links from one edge to the first `n` edges of another machine.
pub open spec fn edge_links(
    from: MachineGeom,
    from_edge: EdgeSegment,
    to: MachineGeom,
    n: nat,
) -> Seq<EdgeLink>
    decreases n,
{
    if n == 0 {
        Seq::empty()
    } else {
        let before = edge_links(from, from_edge, to, (n - 1) as nat);
        match link_of(from, from_edge, to, placed_edges(to)[n - 1]) {
            Some(link) => before.push(link),
            None => before,
        }
    }
}

/// Links from the first `n` edges of one machine to another.
pub open spec fn pair_links(from: MachineGeom, to: MachineGeom, n: nat) -> Seq<EdgeLink>
    decreases n,
{
    if n == 0 {
        Seq::empty()
    } else {
        pair_links(from, to, (n - 1) as nat) + edge_links(
            from,
            placed_edges(from)[n - 1],
            to,
            placed_edges(to).len(),
        )
    }
}

/// Links from machine `from` to the first `n` machines.
pub open spec fn machine_links(machines: Seq<MachineGeom>, from: int, n: nat) -> Seq<EdgeLink>
    decreases n,
{
    if n == 0 {
        Seq::empty()
    } else {
        let before = machine_links(machines, from, (n - 1) as nat);
        if n - 1 != from && linkable(machines[n - 1]) {
            before + pair_links(
                machines[from],
                machines[n - 1],
                placed_edges(machines[from]).len(),
            )
        } else {
            before
        }
    }
}

/// Links from the first `n` machines to every other.
pub open spec fn links_of(machines: Seq<MachineGeom>, n: nat) -> Seq<EdgeLink>
    decreases n,
{
    if n == 0 {
        Seq::empty()
    } else {
        let before = links_of(machines, (n - 1) as nat);
        if linkable(machines[n - 1]) {
            before + machine_links(machines, n - 1, machines.len())
        } else {
            before
        }
    }
}

/// Boundary pieces lie within the displays' own coordinates.
proof fn lemma_boundary_bounded(displays: Seq<DisplayRect>, n: nat)
    requires
        n <= displays.len(),
    ensures
        forall|i: int|
            0 <= i < boundary(displays, n).len() ==> (#[trigger] boundary(displays, n)[i]).bounded(
                0x2_0000_0000,
            ) && boundary(displays, n)[i].start < boundary(displays, n)[i].end,
    decreases n,
{
    if n > 0 {
        lemma_boundary_bounded(displays, (n - 1) as nat);
        lemma_display_bounded(displays, n - 1, 4);
        let before = boundary(displays, (n - 1) as nat);
        let after = boundary(displays, n);
        assert forall|i: int| 0 <= i < after.len() implies (#[trigger] after[i]).bounded(
            0x2_0000_0000,
        ) && after[i].start < after[i].end by {
            if i < before.len() {
                assert(after[i] == before[i]);
            } else {
                assert(after[i] == display_edges(displays, n - 1, 4)[i - before.len()]);
            }
        }
    }
}

proof fn lemma_display_bounded(displays: Seq<DisplayRect>, index: int, n: nat)
    requires
        0 <= index < displays.len(),
    ensures
        forall|i: int|
            0 <= i < display_edges(displays, index, n).len() ==> (#[trigger] display_edges(
                displays,
                index,
                n,
            )[i]).bounded(0x2_0000_0000) && display_edges(displays, index, n)[i].start
                < display_edges(displays, index, n)[i].end,
    decreases n,
{
    if n > 0 {
        lemma_display_bounded(displays, index, (n - 1) as nat);
        let before = display_edges(displays, index, (n - 1) as nat);
        let after = display_edges(displays, index, n);
        let side = side_number(n - 1);
        let more = side_edges(displays, index, side);
        assert forall|i: int| 0 <= i < after.len() implies (#[trigger] after[i]).bounded(
            0x2_0000_0000,
        ) && after[i].start < after[i].end by {
            if i < before.len() {
                assert(after[i] == before[i]);
            } else {
                let k = i - before.len();
                assert(after[i] == more[k]);
                let rect = RectBounds::of(displays[index])->0;
                let (at, start, end) = edge_of(rect, side);
                let free = |x: int| exposed(displays, index, side, x);
                lemma_runs_end(start as int, end as int, free);
                let piece = runs(start as int, end as int, free)[k];
                assert(start <= piece.0 < piece.1 <= end);
            }
        }
    }
}

fn edges_on_canvas(machine: &MachineGeom) -> (r: Vec<EdgeSegment>)
    ensures
        r@ == placed_edges(*machine),
        forall|i: int| 0 <= i < r@.len() ==> (#[trigger] r@[i]).bounded(0x4_0000_0000),
{
    let local = outer_edges(&machine.displays);
    proof {
        lemma_boundary_bounded(machine.displays@, machine.displays@.len());
    }
    let mut placed: Vec<EdgeSegment> = Vec::new();
    for i in 0..local.len()
        invariant
            local@ == boundary(machine.displays@, machine.displays@.len()),
            forall|k: int| 0 <= k < local@.len() ==> (#[trigger] local@[k]).bounded(0x2_0000_0000),
            placed@ =~= placed_edges(*machine).take(i as int),
            forall|k: int| 0 <= k < placed@.len() ==> (#[trigger] placed@[k]).bounded(0x4_0000_0000),
    {
        assert(local@[i as int].bounded(0x2_0000_0000));
        placed.push(local[i].translated(machine.placement.offset));
    }
    placed
}

/// Adds every link from one machine to another.
fn add_links(links: &mut Vec<EdgeLink>, from: &MachineGeom, to: &MachineGeom)
    ensures
        final(links)@ == old(links)@ + pair_links(*from, *to, placed_edges(*from).len()),
{
    let from_edges = edges_on_canvas(from);
    let to_edges = edges_on_canvas(to);
    let ghost before = links@;
    assert(before =~= before + pair_links(*from, *to, 0));
    for i in 0..from_edges.len()
        invariant
            from_edges@ == placed_edges(*from),
            to_edges@ == placed_edges(*to),
            forall|k: int| 0 <= k < from_edges@.len() ==> (#[trigger] from_edges@[k]).bounded(0x4_0000_0000),
            forall|k: int| 0 <= k < to_edges@.len() ==> (#[trigger] to_edges@[k]).bounded(0x4_0000_0000),
            links@ == before + pair_links(*from, *to, i as nat),
    {
        let from_edge = from_edges[i];
        assert(from_edges@[i as int].bounded(0x4_0000_0000));
        let ghost at_edge = links@;
        assert(at_edge =~= at_edge + edge_links(*from, from_edge, *to, 0));
        for j in 0..to_edges.len()
            invariant
                to_edges@ == placed_edges(*to),
                from_edge.bounded(0x4_0000_0000),
                forall|k: int| 0 <= k < to_edges@.len() ==> (#[trigger] to_edges@[k]).bounded(0x4_0000_0000),
                links@ == at_edge + edge_links(*from, from_edge, *to, j as nat),
        {
            assert(to_edges@[j as int].bounded(0x4_0000_0000));
            if let Some(link) = edge_link(from, from_edge, to, to_edges[j]) {
                links.push(link);
            }
            assert(links@ =~= at_edge + edge_links(*from, from_edge, *to, (j + 1) as nat));
        }
        assert(links@ =~= before + pair_links(*from, *to, (i + 1) as nat));
    }
}

/// All directed crossable links between enabled, reachable machines, in the order of the
/// machines.
pub fn compute_links(machines: &[MachineGeom]) -> (r: Vec<EdgeLink>)
    ensures
        r@ == links_of(machines@, machines@.len()),
{
    let mut links: Vec<EdgeLink> = Vec::new();
    for i in 0..machines.len()
        invariant
            links@ == links_of(machines@, i as nat),
    {
        let ghost before = links@;
        if machines[i].placement.enabled && machines[i].reachable {
            assert(before =~= before + machine_links(machines@, i as int, 0));
            for j in 0..machines.len()
                invariant
                    i < machines@.len(),
                    links@ == before + machine_links(machines@, i as int, j as nat),
            {
                if i != j && machines[j].placement.enabled && machines[j].reachable {
                    add_links(&mut links, &machines[i], &machines[j]);
                }
                assert(links@ =~= before + machine_links(machines@, i as int, (j + 1) as nat));
            }
        }
    }
    links
}

/// The capture edges of the first `n` links, those that leave `self_id`, numbered.
pub open spec fn specs_of(links: Seq<EdgeLink>, self_id: Seq<char>, n: nat) -> Seq<EdgeSpec>
    decreases n,
{
    if n == 0 {
        Seq::empty()
    } else {
        let before = specs_of(links, self_id, (n - 1) as nat);
        let link = links[n - 1];
        if link.from@ == self_id {
            before.push(
                EdgeSpec {
                    id: before.len() as u32,
                    side: link.side,
                    at: link.at,
                    from: link.from_range.0,
                    to: link.from_range.1,
                },
            )
        } else {
            before
        }
    }
}

/// The links leaving `self_id` as capture edges (one per link, id = index).
pub fn edge_specs_for(links: &[EdgeLink], self_id: &MachineId) -> (r: Vec<EdgeSpec>)
    ensures
        r@ == specs_of(links@, self_id@, links@.len()),
{
    let mut specs: Vec<EdgeSpec> = Vec::new();
    for i in 0..links.len()
        invariant
            specs@.len() <= i,
            specs@ == specs_of(links@, self_id@, i as nat),
    {
        let link = &links[i];
        if link.from.same(self_id) {
            let id: u32 = specs.len() as u32;
            specs.push(
                EdgeSpec {
                    id,
                    side: link.side,
                    at: link.at,
                    from: link.from_range.0,
                    to: link.from_range.1,
                },
            );
        }
    }
    specs
}

// ---- positions ----

/// `p` lies on a display.
pub open spec fn on_display(display: DisplayRect, p: Vec2) -> bool {
    &&& display.x * PIXEL <= p.x < (display.x + display.w) * PIXEL
    &&& display.y * PIXEL <= p.y < (display.y + display.h) * PIXEL
}

fn display_holds(display: &DisplayRect, p: Vec2) -> (r: bool)
    ensures
        r == on_display(*display, p),
{
    let left: i64 = display.x as i64 * PIXEL;
    let top: i64 = display.y as i64 * PIXEL;
    p.x >= left && p.x < left + display.w as i64 * PIXEL && p.y >= top && p.y < top
        + display.h as i64 * PIXEL
}

/// Is `p` inside the union of `displays` (local coords)?
pub fn union_contains(displays: &[DisplayRect], p: Vec2) -> (r: bool)
    ensures
        r == exists|i: int| 0 <= i < displays@.len() && on_display(#[trigger] displays@[i], p),
        r == in_union(displays@, p),
{
    for i in 0..displays.len()
        invariant
            forall|k: int| 0 <= k < i ==> !on_display(#[trigger] displays@[k], p),
    {
        if display_holds(&displays[i], p) {
            assert(on_display(displays@[i as int], p));
            return true;
        }
    }
    false
}

pub open spec fn clamp_int(value: int, low: int, high: int) -> int {
    if value < low {
        low
    } else if value > high {
        high
    } else {
        value
    }
}

pub(crate) fn clamp_between(value: i64, low: i64, high: i64) -> (r: i64)
    ensures
        r == clamp_int(value as int, low as int, high as int),
{
    if value < low {
        low
    } else if value > high {
        high
    } else {
        value
    }
}

/// The point of a display nearest to `p`, the last pixel's own corner at the far sides.
pub open spec fn clamped(display: DisplayRect, p: Vec2) -> Vec2 {
    Vec2 {
        x: clamp_int(
            p.x as int,
            display.x * PIXEL,
            (display.x + display.w - 1) * PIXEL,
        ) as i64,
        y: clamp_int(
            p.y as int,
            display.y * PIXEL,
            (display.y + display.h - 1) * PIXEL,
        ) as i64,
    }
}

pub open spec fn square_between(a: Vec2, b: Vec2) -> int {
    (a.x - b.x) * (a.x - b.x) + (a.y - b.y) * (a.y - b.y)
}

/// `i` is the first of the displays with an area whose clamped point is closest to `p`.
pub open spec fn is_closest(displays: Seq<DisplayRect>, p: Vec2, i: int) -> bool {
    &&& 0 <= i < displays.len()
    &&& displays[i].has_area()
    &&& forall|k: int|
        0 <= k < displays.len() && (#[trigger] displays[k]).has_area() ==> square_between(
            clamped(displays[i], p),
            p,
        ) <= square_between(clamped(displays[k], p), p) && (k < i ==> square_between(
            clamped(displays[i], p),
            p,
        ) < square_between(clamped(displays[k], p), p))
}

pub open spec fn any_area(displays: Seq<DisplayRect>) -> bool {
    exists|i: int| 0 <= i < displays.len() && (#[trigger] displays[i]).has_area()
}

/// Some display holds `p`.
pub open spec fn in_union(displays: Seq<DisplayRect>, p: Vec2) -> bool {
    exists|i: int| 0 <= i < displays.len() && on_display(#[trigger] displays[i], p)
}

/// The point of the union of displays that a position is clamped to: itself where it lies
/// inside.
#[verifier::opaque]
pub open spec fn clamped_into(displays: Seq<DisplayRect>, p: Vec2) -> Vec2 {
    if in_union(displays, p) {
        p
    } else if any_area(displays) {
        clamped(displays[choose|i: int| is_closest(displays, p, i)], p)
    } else {
        p
    }
}

fn clamp_to(display: &DisplayRect, p: Vec2) -> (r: Vec2)
    requires
        display.has_area(),
    ensures
        r == clamped(*display, p),
        -0x8000_0000 * PIXEL <= r.x <= 0x1_8000_0000 * PIXEL,
        -0x8000_0000 * PIXEL <= r.y <= 0x1_8000_0000 * PIXEL,
{
    let left: i64 = display.x as i64 * PIXEL;
    let top: i64 = display.y as i64 * PIXEL;
    Vec2 {
        x: clamp_between(p.x, left, left + (display.w as i64 - 1) * PIXEL),
        y: clamp_between(p.y, top, top + (display.h as i64 - 1) * PIXEL),
    }
}

/// Clamp `p` to the nearest point inside the union (dead-zone aware: pick the display
/// whose clamped point is closest). A point inside stays where it is.
pub fn clamp_into_displays(displays: &[DisplayRect], p: Vec2) -> (r: Vec2)
    requires
        p.bounded(),
    ensures
        r == clamped_into(displays@, p),
        (exists|i: int| 0 <= i < displays@.len() && on_display(#[trigger] displays@[i], p)) ==> r
            == p,
        !in_union(displays@, p) && any_area(displays@) ==> exists|i: int|
            is_closest(displays@, p, i) && r == clamped(displays@[i], p),
        !any_area(displays@) ==> r == p,
{
    proof {
        reveal(clamped_into);
    }
    if union_contains(displays, p) {
        return p;
    }
    let mut nearest: Option<(usize, i128)> = None;
    for i in 0..displays.len()
        invariant
            p.bounded(),
            nearest matches Some((at, best)) ==> at < i && displays@[at as int].has_area() && best
                == square_between(clamped(displays@[at as int], p), p),
            nearest is None ==> forall|k: int| 0 <= k < i ==> !(#[trigger] displays@[k]).has_area(),
            nearest matches Some((at, best)) ==> forall|k: int|
                0 <= k < i && (#[trigger] displays@[k]).has_area() ==> best <= square_between(
                    clamped(displays@[k], p),
                    p,
                ) && (k < at ==> best < square_between(clamped(displays@[k], p), p)),
    {
        let display = &displays[i];
        if display.w > 0 && display.h > 0 {
            let candidate = clamp_to(display, p);
            let dx: i64 = candidate.x - p.x;
            let dy: i64 = candidate.y - p.y;
            assert(0 <= dx * dx <= 0x400_0000_0000_0000_0000_0000_0000_0000 && 0 <= dy * dy
                <= 0x400_0000_0000_0000_0000_0000_0000_0000) by (nonlinear_arith)
                requires
                    -0x2000_0000_0000_0000 <= dx <= 0x2000_0000_0000_0000,
                    -0x2000_0000_0000_0000 <= dy <= 0x2000_0000_0000_0000,
            ;
            let square: i128 = dx as i128 * dx as i128 + dy as i128 * dy as i128;
            assert(square == square_between(clamped(displays@[i as int], p), p));
            let nearer: bool = match &nearest {
                Some((_, best)) => square < *best,
                None => true,
            };
            if nearer {
                nearest = Some((i, square));
            }
        }
    }
    match nearest {
        Some((at, _)) => {
            proof {
                assert(is_closest(displays@, p, at as int));
                lemma_closest_unique(displays@, p, at as int);
            }
            clamp_to(&displays[at], p)
        },
        None => p,
    }
}

proof fn lemma_closest_unique(displays: Seq<DisplayRect>, p: Vec2, i: int)
    requires
        is_closest(displays, p, i),
    ensures
        any_area(displays),
        (choose|k: int| is_closest(displays, p, k)) == i,
{
    let k = choose|k: int| is_closest(displays, p, k);
    assert(is_closest(displays, p, k));
    assert(displays[i].has_area() && displays[k].has_area());
}

/// A machine-local point, on the canvas.
pub open spec fn canvas_point(placement: MachinePlacement, p: Vec2) -> Vec2 {
    Vec2 {
        x: (p.x + placement.offset.x * PIXEL) as i64,
        y: (p.y + placement.offset.y * PIXEL) as i64,
    }
}

/// A canvas point, in machine-local coordinates.
pub open spec fn local_point(placement: MachinePlacement, p: Vec2) -> Vec2 {
    Vec2 {
        x: (p.x - placement.offset.x * PIXEL) as i64,
        y: (p.y - placement.offset.y * PIXEL) as i64,
    }
}

/// Map a point in machine-local coords into canvas coords.
pub fn to_canvas(placement: &MachinePlacement, p: Vec2) -> (r: Vec2)
    requires
        -2 * POINT_REACH <= p.x <= 2 * POINT_REACH,
        -2 * POINT_REACH <= p.y <= 2 * POINT_REACH,
    ensures
        r == canvas_point(*placement, p),
{
    Vec2 {
        x: p.x + placement.offset.x as i64 * PIXEL,
        y: p.y + placement.offset.y as i64 * PIXEL,
    }
}

/// Map a canvas point into machine-local coords.
pub fn to_local(placement: &MachinePlacement, p: Vec2) -> (r: Vec2)
    requires
        -2 * POINT_REACH <= p.x <= 2 * POINT_REACH,
        -2 * POINT_REACH <= p.y <= 2 * POINT_REACH,
    ensures
        r == local_point(*placement, p),
{
    Vec2 {
        x: p.x - placement.offset.x as i64 * PIXEL,
        y: p.y - placement.offset.y as i64 * PIXEL,
    }
}

// ---- laws ----

/// A link maps its segment 1:1: both ranges have the same length, long enough to cross.
pub proof fn a_link_maps_its_segment_evenly(
    from: MachineGeom,
    from_edge: EdgeSegment,
    to: MachineGeom,
    to_edge: EdgeSegment,
)
    ensures
        link_of(from, from_edge, to, to_edge) matches Some(link) ==> link.from_range.1
            - link.from_range.0 == link.to_range.1 - link.to_range.0 && link.from_range.1
            - link.from_range.0 >= MIN_EDGE_OVERLAP,
{
}

/// The way back of a link: it leads from where the link lands.
pub open spec fn way_back(link: EdgeLink) -> EdgeLink {
    EdgeLink {
        from: link.to,
        to: link.from,
        side: link.side.facing(),
        at: link.to_at,
        from_range: link.to_range,
        to_range: link.from_range,
        to_at: link.at,
    }
}

/// Every link has its counterpart: through the same two edges the way back leads from where
/// the way there lands.
pub proof fn links_come_in_pairs(
    from: MachineGeom,
    from_edge: EdgeSegment,
    to: MachineGeom,
    to_edge: EdgeSegment,
)
    ensures
        link_of(from, from_edge, to, to_edge) matches Some(link) ==> link_of(
            to,
            to_edge,
            from,
            from_edge,
        ) == Some(way_back(link)),
{
}

proof fn lemma_edge_source(
    from: MachineGeom,
    edge: EdgeSegment,
    to: MachineGeom,
    n: nat,
    k: int,
) -> (q: int)
    requires
        0 <= k < edge_links(from, edge, to, n).len(),
    ensures
        0 <= q < n,
        link_of(from, edge, to, placed_edges(to)[q]) == Some(edge_links(from, edge, to, n)[k]),
    decreases n,
{
    if n == 0 {
        0
    } else if k < edge_links(from, edge, to, (n - 1) as nat).len() {
        lemma_edge_source(from, edge, to, (n - 1) as nat, k)
    } else {
        n - 1
    }
}

proof fn lemma_pair_source(from: MachineGeom, to: MachineGeom, n: nat, k: int) -> (at: (int, int))
    requires
        0 <= k < pair_links(from, to, n).len(),
    ensures
        0 <= at.0 < n,
        0 <= at.1 < placed_edges(to).len(),
        link_of(from, placed_edges(from)[at.0], to, placed_edges(to)[at.1]) == Some(
            pair_links(from, to, n)[k],
        ),
    decreases n,
{
    if n == 0 {
        (0, 0)
    } else {
        let before = pair_links(from, to, (n - 1) as nat);
        if k < before.len() {
            lemma_pair_source(from, to, (n - 1) as nat, k)
        } else {
            let edge = placed_edges(from)[n - 1];
            let q = lemma_edge_source(from, edge, to, placed_edges(to).len(), k - before.len());
            (n - 1, q)
        }
    }
}

proof fn lemma_machine_source(machines: Seq<MachineGeom>, from: int, n: nat, k: int) -> (at: (
    int,
    int,
    int,
))
    requires
        n <= machines.len(),
        0 <= k < machine_links(machines, from, n).len(),
    ensures
        0 <= at.0 < n,
        at.0 != from,
        linkable(machines[at.0]),
        0 <= at.1 < placed_edges(machines[from]).len(),
        0 <= at.2 < placed_edges(machines[at.0]).len(),
        link_of(
            machines[from],
            placed_edges(machines[from])[at.1],
            machines[at.0],
            placed_edges(machines[at.0])[at.2],
        ) == Some(machine_links(machines, from, n)[k]),
    decreases n,
{
    if n == 0 {
        (0, 0, 0)
    } else {
        let before = machine_links(machines, from, (n - 1) as nat);
        if k < before.len() {
            lemma_machine_source(machines, from, (n - 1) as nat, k)
        } else {
            let (p, q) = lemma_pair_source(
                machines[from],
                machines[n - 1],
                placed_edges(machines[from]).len(),
                k - before.len(),
            );
            (n - 1, p, q)
        }
    }
}

proof fn lemma_links_source(machines: Seq<MachineGeom>, n: nat, k: int) -> (at: (
    int,
    int,
    int,
    int,
))
    requires
        n <= machines.len(),
        0 <= k < links_of(machines, n).len(),
    ensures
        0 <= at.0 < n,
        0 <= at.1 < machines.len(),
        at.0 != at.1,
        linkable(machines[at.0]),
        linkable(machines[at.1]),
        0 <= at.2 < placed_edges(machines[at.0]).len(),
        0 <= at.3 < placed_edges(machines[at.1]).len(),
        link_of(
            machines[at.0],
            placed_edges(machines[at.0])[at.2],
            machines[at.1],
            placed_edges(machines[at.1])[at.3],
        ) == Some(links_of(machines, n)[k]),
    decreases n,
{
    if n == 0 {
        (0, 0, 0, 0)
    } else {
        let before = links_of(machines, (n - 1) as nat);
        if k < before.len() {
            lemma_links_source(machines, (n - 1) as nat, k)
        } else {
            let (j, p, q) = lemma_machine_source(
                machines,
                n - 1,
                machines.len(),
                k - before.len(),
            );
            (n - 1, j, p, q)
        }
    }
}

proof fn lemma_edge_listed(from: MachineGeom, edge: EdgeSegment, to: MachineGeom, n: nat, q: int)
    requires
        0 <= q < n,
        link_of(from, edge, to, placed_edges(to)[q]) is Some,
    ensures
        edge_links(from, edge, to, n).contains(link_of(from, edge, to, placed_edges(to)[q])->0),
    decreases n,
{
    let link = link_of(from, edge, to, placed_edges(to)[q])->0;
    let before = edge_links(from, edge, to, (n - 1) as nat);
    let after = edge_links(from, edge, to, n);
    if q == n - 1 {
        assert(after[before.len() as int] == link);
    } else {
        lemma_edge_listed(from, edge, to, (n - 1) as nat, q);
        let i = choose|i: int| 0 <= i < before.len() && before[i] == link;
        assert(after[i] == link);
    }
}

proof fn lemma_pair_listed(from: MachineGeom, to: MachineGeom, n: nat, p: int, link: EdgeLink)
    requires
        0 <= p < n,
        edge_links(from, placed_edges(from)[p], to, placed_edges(to).len()).contains(link),
    ensures
        pair_links(from, to, n).contains(link),
    decreases n,
{
    let before = pair_links(from, to, (n - 1) as nat);
    let last = edge_links(from, placed_edges(from)[n - 1], to, placed_edges(to).len());
    if p == n - 1 {
        let i = choose|i: int| 0 <= i < last.len() && last[i] == link;
        assert((before + last)[before.len() + i] == link);
    } else {
        lemma_pair_listed(from, to, (n - 1) as nat, p, link);
        let i = choose|i: int| 0 <= i < before.len() && before[i] == link;
        assert((before + last)[i] == link);
    }
}

proof fn lemma_machine_listed(
    machines: Seq<MachineGeom>,
    from: int,
    n: nat,
    to: int,
    link: EdgeLink,
)
    requires
        0 <= to < n,
        to != from,
        linkable(machines[to]),
        pair_links(machines[from], machines[to], placed_edges(machines[from]).len()).contains(link),
    ensures
        machine_links(machines, from, n).contains(link),
    decreases n,
{
    let before = machine_links(machines, from, (n - 1) as nat);
    let last = pair_links(machines[from], machines[n - 1], placed_edges(machines[from]).len());
    if to == n - 1 {
        let i = choose|i: int| 0 <= i < last.len() && last[i] == link;
        assert((before + last)[before.len() + i] == link);
    } else {
        lemma_machine_listed(machines, from, (n - 1) as nat, to, link);
        let i = choose|i: int| 0 <= i < before.len() && before[i] == link;
        assert(before[i] == link && (before + last)[i] == link);
    }
}

proof fn lemma_links_listed(machines: Seq<MachineGeom>, n: nat, from: int, link: EdgeLink)
    requires
        0 <= from < n,
        linkable(machines[from]),
        machine_links(machines, from, machines.len()).contains(link),
    ensures
        links_of(machines, n).contains(link),
    decreases n,
{
    let before = links_of(machines, (n - 1) as nat);
    let last = machine_links(machines, n - 1, machines.len());
    if from == n - 1 {
        let i = choose|i: int| 0 <= i < last.len() && last[i] == link;
        assert((before + last)[before.len() + i] == link);
    } else {
        lemma_links_listed(machines, (n - 1) as nat, from, link);
        let i = choose|i: int| 0 <= i < before.len() && before[i] == link;
        assert(before[i] == link && (before + last)[i] == link);
    }
}

/// Among the links of all machines there is no link without its way back.
pub proof fn every_link_has_its_way_back(machines: Seq<MachineGeom>, k: int)
    requires
        0 <= k < links_of(machines, machines.len()).len(),
    ensures
        links_of(machines, machines.len()).contains(
            way_back(links_of(machines, machines.len())[k]),
        ),
{
    let link = links_of(machines, machines.len())[k];
    let (i, j, p, q) = lemma_links_source(machines, machines.len(), k);
    let (from, to) = (machines[i], machines[j]);
    let (there, here) = (placed_edges(to)[q], placed_edges(from)[p]);
    links_come_in_pairs(from, here, to, there);
    lemma_edge_listed(to, there, from, placed_edges(from).len(), p);
    lemma_pair_listed(to, from, placed_edges(to).len(), q, way_back(link));
    lemma_machine_listed(machines, j, machines.len(), i, way_back(link));
    lemma_links_listed(machines, machines.len(), j, way_back(link));
}

/// Every point of a run is free.
proof fn lemma_runs_free(start: int, end: int, free: spec_fn(int) -> bool, i: int, x: int)
    requires
        i64::MIN <= start,
        end <= i64::MAX,
        0 <= i < runs(start, end, free).len(),
        runs(start, end, free)[i].0 <= x < runs(start, end, free)[i].1,
    ensures
        free(x),
    decreases end - start,
{
    if end > start {
        lemma_runs_end(start, end - 1, free);
        let before = runs(start, end - 1, free);
        let after = runs(start, end, free);
        if x < end - 1 {
            if i < before.len() {
                if i < before.len() - 1 || after.len() > before.len() || !free(end - 1) {
                    assert(after[i] == before[i]);
                } else {
                    assert(before[i] == before.last());
                    assert(before[i].0 <= x < before[i].1);
                }
                lemma_runs_free(start, end - 1, free, i, x);
            }
        } else if !free(end - 1) {
            assert(after[i].1 <= end - 1);
        }
    }
}

/// Dead corners: no piece of the outer boundary runs where another display continues.
pub proof fn outer_edges_are_exposed(
    displays: Seq<DisplayRect>,
    index: int,
    side: EdgeSide,
    i: int,
    x: int,
)
    requires
        0 <= index < displays.len(),
        0 <= i < side_edges(displays, index, side).len(),
        side_edges(displays, index, side)[i].start <= x < side_edges(displays, index, side)[i].end,
    ensures
        exposed(displays, index, side, x),
{
    let rect = RectBounds::of(displays[index])->0;
    let (at, start, end) = edge_of(rect, side);
    let free = |y: int| exposed(displays, index, side, y);
    lemma_runs_free(start as int, end as int, free, i, x);
}

/// A clamped position lies on a display, wherever there is one, and clamping it again
/// changes nothing.
pub proof fn a_clamped_position_is_on_a_display(displays: Seq<DisplayRect>, p: Vec2)
    requires
        p.bounded(),
        any_area(displays),
    ensures
        in_union(displays, clamped_into(displays, p)),
        in_union(displays, p) ==> clamped_into(displays, p) == p,
        clamped_into(displays, clamped_into(displays, p)) == clamped_into(displays, p),
{
    reveal(clamped_into);
    if !in_union(displays, p) {
        assert(displays.take(displays.len() as int) =~= displays);
        let i = lemma_some_closest(displays, p, displays.len() as int);
        lemma_closest_unique(displays, p, i);
        assert(on_display(displays[i], clamped_into(displays, p)));
    }
}

/// Among the first displays one is closest.
proof fn lemma_some_closest(displays: Seq<DisplayRect>, p: Vec2, n: int) -> (i: int)
    requires
        0 <= n <= displays.len(),
        any_area(displays.take(n)),
    ensures
        is_closest(displays.take(n), p, i),
        n == displays.len() ==> is_closest(displays, p, i),
    decreases n,
{
    let some = displays.take(n);
    let before = displays.take(n - 1);
    assert(n == displays.len() ==> some =~= displays);
    assert forall|k: int| 0 <= k < n - 1 implies #[trigger] before[k] == some[k] by {}
    if any_area(before) {
        let i = lemma_some_closest(displays, p, n - 1);
        assert(before[i] == some[i]);
        let last = n - 1;
        if some[last].has_area() && square_between(clamped(some[last], p), p) < square_between(
            clamped(some[i], p),
            p,
        ) {
            assert forall|k: int| 0 <= k < n && (
            #[trigger] some[k]).has_area() implies square_between(clamped(some[last], p), p)
                <= square_between(clamped(some[k], p), p) && (k < last ==> square_between(
                clamped(some[last], p),
                p,
            ) < square_between(clamped(some[k], p), p)) by {
                if k < last {
                    assert(before[k].has_area());
                }
            }
            last
        } else {
            assert forall|k: int| 0 <= k < n && (
            #[trigger] some[k]).has_area() implies square_between(clamped(some[i], p), p)
                <= square_between(clamped(some[k], p), p) && (k < i ==> square_between(
                clamped(some[i], p),
                p,
            ) < square_between(clamped(some[k], p), p)) by {
                if k < last {
                    assert(before[k].has_area());
                }
            }
            i
        }
    } else {
        let i = choose|i: int| 0 <= i < some.len() && (#[trigger] some[i]).has_area();
        if i < n - 1 {
            assert(before[i].has_area());
        }
        assert forall|k: int| 0 <= k < n && (
        #[trigger] some[k]).has_area() implies k == i by {
            if k < n - 1 {
                assert(before[k].has_area());
            }
        }
        i
    }
}

/// Going to the canvas and back, or from it and back, changes nothing.
pub proof fn canvas_and_local_are_inverse(placement: MachinePlacement, p: Vec2)
    requires
        p.bounded(),
    ensures
        local_point(placement, canvas_point(placement, p)) == p,
        canvas_point(placement, local_point(placement, p)) == p,
{
}

/// Two machines stand alike: what a link depends on is the same.
pub open spec fn alike(a: MachineGeom, b: MachineGeom) -> bool {
    &&& a.id == b.id
    &&& a.displays@ == b.displays@
    &&& a.placement == b.placement
    &&& a.reachable == b.reachable
}

pub open spec fn all_alike(a: Seq<MachineGeom>, b: Seq<MachineGeom>) -> bool {
    a.len() == b.len() && forall|i: int| 0 <= i < a.len() ==> alike(#[trigger] a[i], b[i])
}

proof fn lemma_edge_links_alike(
    from: MachineGeom,
    to: MachineGeom,
    other_from: MachineGeom,
    other_to: MachineGeom,
    edge: EdgeSegment,
    n: nat,
)
    requires
        alike(from, other_from),
        alike(to, other_to),
    ensures
        edge_links(from, edge, to, n) == edge_links(other_from, edge, other_to, n),
    decreases n,
{
    if n > 0 {
        lemma_edge_links_alike(from, to, other_from, other_to, edge, (n - 1) as nat);
        assert(placed_edges(to) == placed_edges(other_to));
    }
}

proof fn lemma_pair_links_alike(
    from: MachineGeom,
    to: MachineGeom,
    other_from: MachineGeom,
    other_to: MachineGeom,
    n: nat,
)
    requires
        alike(from, other_from),
        alike(to, other_to),
    ensures
        pair_links(from, to, n) == pair_links(other_from, other_to, n),
    decreases n,
{
    if n > 0 {
        lemma_pair_links_alike(from, to, other_from, other_to, (n - 1) as nat);
        assert(placed_edges(from) == placed_edges(other_from));
        assert(placed_edges(to) == placed_edges(other_to));
        lemma_edge_links_alike(
            from,
            to,
            other_from,
            other_to,
            placed_edges(from)[n - 1],
            placed_edges(to).len(),
        );
    }
}

proof fn lemma_machine_links_alike(a: Seq<MachineGeom>, b: Seq<MachineGeom>, from: int, n: nat)
    requires
        all_alike(a, b),
        0 <= from < a.len(),
        n <= a.len(),
    ensures
        machine_links(a, from, n) == machine_links(b, from, n),
    decreases n,
{
    if n > 0 {
        lemma_machine_links_alike(a, b, from, (n - 1) as nat);
        assert(alike(a[from], b[from]) && alike(a[n - 1], b[n - 1]));
        assert(placed_edges(a[from]) == placed_edges(b[from]));
        lemma_pair_links_alike(
            a[from],
            a[n - 1],
            b[from],
            b[n - 1],
            placed_edges(a[from]).len(),
        );
    }
}

/// Machines that stand alike are linked alike.
pub proof fn links_depend_on_where_machines_stand(
    a: Seq<MachineGeom>,
    b: Seq<MachineGeom>,
    n: nat,
)
    requires
        all_alike(a, b),
        n <= a.len(),
    ensures
        links_of(a, n) == links_of(b, n),
    decreases n,
{
    if n > 0 {
        links_depend_on_where_machines_stand(a, b, (n - 1) as nat);
        assert(alike(a[n - 1], b[n - 1]));
        lemma_machine_links_alike(a, b, n - 1, a.len());
    }
}

/// A link between two of some machines that take part.
pub open spec fn joins(machines: Seq<MachineGeom>, link: EdgeLink) -> bool {
    exists|i: int, j: int|
        0 <= i < machines.len() && 0 <= j < machines.len() && i != j && linkable(
            #[trigger] machines[i],
        ) && linkable(#[trigger] machines[j]) && link.from == machines[i].id && link.to
            == machines[j].id
}

proof fn lemma_edge_links_join(
    machines: Seq<MachineGeom>,
    i: int,
    j: int,
    edge: EdgeSegment,
    n: nat,
    k: int,
)
    requires
        0 <= i < machines.len(),
        0 <= j < machines.len(),
        i != j,
        linkable(machines[i]),
        linkable(machines[j]),
        0 <= k < edge_links(machines[i], edge, machines[j], n).len(),
    ensures
        joins(machines, edge_links(machines[i], edge, machines[j], n)[k]),
    decreases n,
{
    if n > 0 {
        let before = edge_links(machines[i], edge, machines[j], (n - 1) as nat);
        if k < before.len() {
            lemma_edge_links_join(machines, i, j, edge, (n - 1) as nat, k);
        }
    }
}

proof fn lemma_pair_links_join(machines: Seq<MachineGeom>, i: int, j: int, n: nat, k: int)
    requires
        0 <= i < machines.len(),
        0 <= j < machines.len(),
        i != j,
        linkable(machines[i]),
        linkable(machines[j]),
        0 <= k < pair_links(machines[i], machines[j], n).len(),
    ensures
        joins(machines, pair_links(machines[i], machines[j], n)[k]),
    decreases n,
{
    if n > 0 {
        let before = pair_links(machines[i], machines[j], (n - 1) as nat);
        if k < before.len() {
            lemma_pair_links_join(machines, i, j, (n - 1) as nat, k);
        } else {
            lemma_edge_links_join(
                machines,
                i,
                j,
                placed_edges(machines[i])[n - 1],
                placed_edges(machines[j]).len(),
                k - before.len(),
            );
        }
    }
}

proof fn lemma_machine_links_join(machines: Seq<MachineGeom>, from: int, n: nat, k: int)
    requires
        0 <= from < machines.len(),
        linkable(machines[from]),
        n <= machines.len(),
        0 <= k < machine_links(machines, from, n).len(),
    ensures
        joins(machines, machine_links(machines, from, n)[k]),
    decreases n,
{
    if n > 0 {
        let before = machine_links(machines, from, (n - 1) as nat);
        if k < before.len() {
            lemma_machine_links_join(machines, from, (n - 1) as nat, k);
        } else {
            lemma_pair_links_join(
                machines,
                from,
                n - 1,
                placed_edges(machines[from]).len(),
                k - before.len(),
            );
        }
    }
}

/// Links join machines that are enabled and can be reached, and no others.
pub proof fn links_join_machines_that_take_part(machines: Seq<MachineGeom>, n: nat, k: int)
    requires
        n <= machines.len(),
        0 <= k < links_of(machines, n).len(),
    ensures
        joins(machines, links_of(machines, n)[k]),
    decreases n,
{
    if n > 0 {
        let before = links_of(machines, (n - 1) as nat);
        if k < before.len() {
            links_join_machines_that_take_part(machines, (n - 1) as nat, k);
        } else {
            lemma_machine_links_join(machines, n - 1, machines.len(), k - before.len());
        }
    }
}

/// A link joins one stretch of the canvas: both of its ranges are the same stretch, seen from
/// either machine, and its two edges lie within two pixels of each other.
pub proof fn a_link_is_one_stretch_of_the_canvas(machines: Seq<MachineGeom>, k: int)
    requires
        0 <= k < links_of(machines, machines.len()).len(),
    ensures
        ({
            let link = links_of(machines, machines.len())[k];
            exists|i: int, j: int|
                0 <= i < machines.len() && 0 <= j < machines.len() && i != j && link.from == (
                #[trigger] machines[i]).id && link.to == (#[trigger] machines[j]).id && ({
                    let (a, b) = (machines[i].placement.offset, machines[j].placement.offset);
                    let (out, over) = if link.side is Left || link.side is Right {
                        ((a.x as int, b.x as int), (a.y as int, b.y as int))
                    } else {
                        ((a.y as int, b.y as int), (a.x as int, b.x as int))
                    };
                    &&& link.from_range.0 + over.0 == link.to_range.0 + over.1
                    &&& link.from_range.1 + over.0 == link.to_range.1 + over.1
                    &&& -2 <= link.at + out.0 - (link.to_at + out.1) <= 2
                })
        }),
{
    let (i, j, p, q) = lemma_links_source(machines, machines.len(), k);
    assert(machines[i].id == links_of(machines, machines.len())[k].from);
    assert(machines[j].id == links_of(machines, machines.len())[k].to);
}

proof fn lemma_whole_run(start: int, end: int, free: spec_fn(int) -> bool)
    requires
        i64::MIN <= start < end <= i64::MAX,
        forall|x: int| start <= x < end ==> #[trigger] free(x),
    ensures
        runs(start, end, free) == seq![(start as i64, end as i64)],
    decreases end - start,
{
    assert(free(end - 1));
    if end - 1 > start {
        lemma_whole_run(start, end - 1, free);
    } else {
        assert(runs(start, start, free) =~= Seq::empty());
    }
    assert(runs(start, end, free) =~= seq![(start as i64, end as i64)]);
}

proof fn lemma_lone_side(displays: Seq<DisplayRect>, side: EdgeSide)
    requires
        displays.len() == 1,
        displays[0].has_area(),
    ensures
        ({
            let (at, start, end) = edge_of(RectBounds::of(displays[0])->0, side);
            side_edges(displays, 0, side) == seq![EdgeSegment { side, at, start, end }]
        }),
{
    let rect = RectBounds::of(displays[0])->0;
    let (at, start, end) = edge_of(rect, side);
    lemma_whole_run(start as int, end as int, |x: int| exposed(displays, 0, side, x));
    assert(side_edges(displays, 0, side) =~= seq![EdgeSegment { side, at, start, end }]);
}

/// The four sides of a machine's only display, on the canvas.
proof fn lemma_lone_edges(machine: MachineGeom)
    requires
        machine.displays@.len() == 1,
        machine.displays@[0].has_area(),
    ensures
        ({
            let rect = RectBounds::of(machine.displays@[0])->0;
            let edge = |n: int|
                EdgeSegment {
                    side: side_number(n),
                    at: edge_of(rect, side_number(n)).0,
                    start: edge_of(rect, side_number(n)).1,
                    end: edge_of(rect, side_number(n)).2,
                };
            &&& placed_edges(machine).len() == 4
            &&& forall|n: int|
                0 <= n < 4 ==> #[trigger] placed_edges(machine)[n] == edge(n).moved(
                    machine.placement.offset,
                )
        }),
{
    let displays = machine.displays@;
    reveal_with_fuel(display_edges, 5);
    reveal_with_fuel(boundary, 2);
    lemma_lone_side(displays, side_number(0));
    lemma_lone_side(displays, side_number(1));
    lemma_lone_side(displays, side_number(2));
    lemma_lone_side(displays, side_number(3));
    let local = boundary(displays, 1);
    let sides = display_edges(displays, 0, 4);
    assert(local =~= sides);
    assert(sides.len() == 4);
    assert(sides[0] == side_edges(displays, 0, side_number(0))[0]);
    assert(sides[1] == side_edges(displays, 0, side_number(1))[0]);
    assert(sides[2] == side_edges(displays, 0, side_number(2))[0]);
    assert(sides[3] == side_edges(displays, 0, side_number(3))[0]);
}

proof fn lemma_joined_edges(machines: Seq<MachineGeom>, i: int, j: int, p: int, q: int)
    requires
        0 <= i < machines.len(),
        0 <= j < machines.len(),
        i != j,
        linkable(machines[i]),
        linkable(machines[j]),
        0 <= p < placed_edges(machines[i]).len(),
        0 <= q < placed_edges(machines[j]).len(),
        link_of(
            machines[i],
            placed_edges(machines[i])[p],
            machines[j],
            placed_edges(machines[j])[q],
        ) is Some,
    ensures
        links_of(machines, machines.len()).contains(
            link_of(
                machines[i],
                placed_edges(machines[i])[p],
                machines[j],
                placed_edges(machines[j])[q],
            )->0,
        ),
{
    let (from, to) = (machines[i], machines[j]);
    let (here, there) = (placed_edges(from)[p], placed_edges(to)[q]);
    let link = link_of(from, here, to, there)->0;
    lemma_edge_listed(from, here, to, placed_edges(to).len(), q);
    lemma_pair_listed(from, to, placed_edges(from).len(), p, link);
    lemma_machine_listed(machines, i, machines.len(), j, link);
    lemma_links_listed(machines, machines.len(), i, link);
}

/// Machines that stand side by side are linked: where one machine's display ends within
/// two pixels of where another's begins, and they share at least 32 pixels of height, the
/// pointer can cross from the first to the second there, over just the height that they
/// share.
pub proof fn machines_side_by_side_are_linked(machines: Seq<MachineGeom>, i: int, j: int)
    requires
        0 <= i < machines.len(),
        0 <= j < machines.len(),
        i != j,
        machines[i].placement.enabled && machines[i].reachable,
        machines[j].placement.enabled && machines[j].reachable,
        machines[i].displays@.len() == 1,
        machines[j].displays@.len() == 1,
        machines[i].displays@[0].w > 0 && machines[i].displays@[0].h > 0,
        machines[j].displays@[0].w > 0 && machines[j].displays@[0].h > 0,
        ({
            let (d, e) = (machines[i].displays@[0], machines[j].displays@[0]);
            let (a, b) = (machines[i].placement.offset, machines[j].placement.offset);
            let top = max_int(d.y + a.y, e.y + b.y);
            let bottom = min_int(d.y + d.h + a.y, e.y + e.h + b.y);
            &&& -2 <= (d.x + d.w + a.x) - (e.x + b.x) <= 2
            &&& bottom - top >= 32
            &&& d.x + d.w <= i32::MAX
            &&& d.y + d.h <= i32::MAX
            &&& e.y + e.h <= i32::MAX
        }),
    ensures
        ({
            let (d, e) = (machines[i].displays@[0], machines[j].displays@[0]);
            let (a, b) = (machines[i].placement.offset, machines[j].placement.offset);
            let top = max_int(d.y + a.y, e.y + b.y);
            let bottom = min_int(d.y + d.h + a.y, e.y + e.h + b.y);
            links_of(machines, machines.len()).contains(
                EdgeLink {
                    from: machines[i].id,
                    to: machines[j].id,
                    side: EdgeSide::Right,
                    at: (d.x + d.w) as i32,
                    from_range: ((top - a.y) as i32, (bottom - a.y) as i32),
                    to_range: ((top - b.y) as i32, (bottom - b.y) as i32),
                    to_at: e.x,
                },
            )
        }),
{
    lemma_lone_edges(machines[i]);
    lemma_lone_edges(machines[j]);
    assert(placed_edges(machines[i])[1].side is Right);
    assert(placed_edges(machines[j])[0].side is Left);
    lemma_joined_edges(machines, i, j, 1, 0);
}

/// The same of machines that stand on top of each other.
pub proof fn machines_on_top_of_each_other_are_linked(machines: Seq<MachineGeom>, i: int, j: int)
    requires
        0 <= i < machines.len(),
        0 <= j < machines.len(),
        i != j,
        machines[i].placement.enabled && machines[i].reachable,
        machines[j].placement.enabled && machines[j].reachable,
        machines[i].displays@.len() == 1,
        machines[j].displays@.len() == 1,
        machines[i].displays@[0].w > 0 && machines[i].displays@[0].h > 0,
        machines[j].displays@[0].w > 0 && machines[j].displays@[0].h > 0,
        ({
            let (d, e) = (machines[i].displays@[0], machines[j].displays@[0]);
            let (a, b) = (machines[i].placement.offset, machines[j].placement.offset);
            let left = max_int(d.x + a.x, e.x + b.x);
            let right = min_int(d.x + d.w + a.x, e.x + e.w + b.x);
            &&& -2 <= (d.y + d.h + a.y) - (e.y + b.y) <= 2
            &&& right - left >= 32
            &&& d.y + d.h <= i32::MAX
            &&& d.x + d.w <= i32::MAX
            &&& e.x + e.w <= i32::MAX
        }),
    ensures
        ({
            let (d, e) = (machines[i].displays@[0], machines[j].displays@[0]);
            let (a, b) = (machines[i].placement.offset, machines[j].placement.offset);
            let left = max_int(d.x + a.x, e.x + b.x);
            let right = min_int(d.x + d.w + a.x, e.x + e.w + b.x);
            links_of(machines, machines.len()).contains(
                EdgeLink {
                    from: machines[i].id,
                    to: machines[j].id,
                    side: EdgeSide::Bottom,
                    at: (d.y + d.h) as i32,
                    from_range: ((left - a.x) as i32, (right - a.x) as i32),
                    to_range: ((left - b.x) as i32, (right - b.x) as i32),
                    to_at: e.y,
                },
            )
        }),
{
    lemma_lone_edges(machines[i]);
    lemma_lone_edges(machines[j]);
    assert(placed_edges(machines[i])[3].side is Bottom);
    assert(placed_edges(machines[j])[2].side is Top);
    lemma_joined_edges(machines, i, j, 3, 2);
}

} // verus!
