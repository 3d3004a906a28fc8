//! Resting one body against others.

use crate::arrange::bounds::{
    abs_int, bounded, divide, hull_of, larger, magnitude, max_int, min_int, quotient, smaller, Body,
    Bounds, Rules, Span, REACH,
};
use crate::arrange::distance::{shorter, shorter_by};
use crate::geometry::{EdgeSide, Vec2I};
use vstd::prelude::*;

verus! {

/// Fraction of `min_seam` by which the side a body already rests on wins ties, so a
/// card never chatters between two seams when the pointer sits on their bisector.
const STICKINESS: i64 = 8;

/// Fraction of `min_seam` by which staying put wins, so pointer tremor cannot flip a
/// body between two near-equal placements.
const INERTIA: i64 = 4;

#[derive(Clone, Copy, Debug, PartialEq, Eq, Structural)]
pub struct Placement {
    /// Translation to apply to the moving body.
    pub delta: Vec2I,
    /// Which of the moving body's own sides rests against a neighbour.
    pub side: EdgeSide,
}

/// Where a seam candidate puts the body, and whether the seam ran out (or was blocked)
/// before reaching the desired position along it.
#[derive(Clone, Copy, Debug, PartialEq, Eq, Structural)]
pub struct Rest {
    pub dx: i64,
    pub dy: i64,
    pub exhausted: bool,
}

/// A seam the moving body could rest on.
#[derive(Clone, Copy, Debug, PartialEq, Eq, Structural)]
pub struct Candidate {
    pub side: EdgeSide,
    pub rest: Rest,
}

/// What a placement is looked for in: the moving shape, the shapes that block it, the
/// rules, and the translation the pointer asks for.
pub ghost struct Scene {
    pub moving: Seq<Bounds>,
    pub blocking: Seq<Seq<Bounds>>,
    pub rules: Rules,
    pub desired: Vec2I,
}

/// The shapes of a list of bodies.
pub open spec fn shapes(bodies: Seq<Body>) -> Seq<Seq<Bounds>> {
    Seq::new(bodies.len(), |i: int| bodies[i]@)
}

/// The shapes at the given indices.
pub open spec fn picked(all: Seq<Seq<Bounds>>, indices: Seq<usize>) -> Seq<Seq<Bounds>> {
    Seq::new(indices.len(), |i: int| all[indices[i] as int])
}

/// Every shape lies within `reach` of the origin.
pub open spec fn all_bounded(all: Seq<Seq<Bounds>>, reach: int) -> bool {
    forall|i: int| 0 <= i < all.len() ==> bounded(#[trigger] all[i], reach)
}

/// Moved by `(dx, dy)`, `a` shares interior points with `b`.
pub open spec fn hits(a: Seq<Bounds>, dx: int, dy: int, b: Seq<Bounds>) -> bool {
    exists|i: int, j: int|
        0 <= i < a.len() && 0 <= j < b.len() && (#[trigger] a[i]).crosses_at(
            dx,
            dy,
            #[trigger] b[j],
        )
}

/// Horizontal part of a translation by `cross` across a seam and `along` it.
pub open spec fn step_x(side: EdgeSide, cross: int, along: int) -> int {
    if side.is_vertical() {
        cross
    } else {
        along
    }
}

/// Vertical part of a translation by `cross` across a seam and `along` it.
pub open spec fn step_y(side: EdgeSide, cross: int, along: int) -> int {
    if side.is_vertical() {
        along
    } else {
        cross
    }
}

/// Translation across the seam that brings `rect`'s `side` flush against `anchor`.
pub open spec fn cross_delta(rect: Bounds, anchor: Bounds, side: EdgeSide) -> int {
    match side {
        EdgeSide::Left => anchor.right - rect.left,
        EdgeSide::Right => anchor.left - rect.right,
        EdgeSide::Top => anchor.bottom - rect.top,
        EdgeSide::Bottom => anchor.top - rect.bottom,
    }
}

/// Shortest seam allowed between two extents: the rule, or all of the shorter extent.
pub open spec fn least_seam(rules: Rules, a: Span, b: Span) -> int {
    max_int(min_int(min_int(rules.min_seam as int, a.length()), b.length()), 1)
}

/// Sliding `scene.moving` to `along` on the seam leaves it clear of everything.
pub open spec fn clear_at(
    scene: Scene,
    neighbour: Seq<Bounds>,
    side: EdgeSide,
    cross: int,
    along: int,
) -> bool {
    &&& !hits(
        scene.moving,
        step_x(side, cross, along),
        step_y(side, cross, along),
        neighbour,
    )
    &&& forall|k: int|
        0 <= k < scene.blocking.len() ==> !hits(
            scene.moving,
            step_x(side, cross, along),
            step_y(side, cross, along),
            #[trigger] scene.blocking[k],
        )
}

/// `p` is the point of `[low, high]` nearest to `target` among those that are free; the
/// lower one of two at the same distance.
pub open spec fn is_nearest(
    low: int,
    high: int,
    target: int,
    free: spec_fn(int) -> bool,
    p: int,
) -> bool {
    &&& low <= p <= high
    &&& free(p)
    &&& forall|q: int|
        low <= q <= high && #[trigger] free(q) ==> abs_int(p - target) < abs_int(q - target) || (
        abs_int(p - target) == abs_int(q - target) && p <= q)
}

pub open spec fn nearest_point(
    low: int,
    high: int,
    target: int,
    free: spec_fn(int) -> bool,
) -> Option<int> {
    if exists|p: int| is_nearest(low, high, target, free, p) {
        Some(choose|p: int| is_nearest(low, high, target, free, p))
    } else {
        None
    }
}

/// The three positions along a seam that line the body up with its neighbour: starts
/// flush, ends flush, centres level.
pub open spec fn flush_position(moving: Span, neighbour: Span, which: int) -> int {
    if which == 0 {
        neighbour.start - moving.start
    } else if which == 1 {
        neighbour.end - moving.end
    } else {
        quotient(neighbour.start + neighbour.end - moving.start - moving.end, 2)
    }
}

/// `position` is close enough to `along` to attract it, and may be taken.
pub open spec fn attracts(
    low: int,
    high: int,
    free: spec_fn(int) -> bool,
    tolerance: int,
    along: int,
    position: int,
) -> bool {
    abs_int(position - along) <= tolerance && low <= position <= high && free(position)
}

/// The nearer of an earlier choice and the attracting position `position`.
pub open spec fn nearer_position(
    chosen: Option<int>,
    position: int,
    attracting: bool,
    along: int,
) -> Option<int> {
    if !attracting {
        chosen
    } else {
        match chosen {
            Some(earlier) => if abs_int(position - along) < abs_int(earlier - along) {
                Some(position)
            } else {
                chosen
            },
            None => Some(position),
        }
    }
}

/// Where alignment pulls a body that would rest at `along`: to staying put, when staying
/// put is aligned; else to the nearest aligned position in tolerance.
pub open spec fn aligned(
    moving: Span,
    neighbour: Span,
    low: int,
    high: int,
    free: spec_fn(int) -> bool,
    tolerance: int,
    along: int,
) -> int {
    let a = flush_position(moving, neighbour, 0);
    let b = flush_position(moving, neighbour, 1);
    let c = flush_position(moving, neighbour, 2);
    if (a == 0 || b == 0 || c == 0) && attracts(low, high, free, tolerance, along, 0) {
        0
    } else {
        let first = nearer_position(
            None,
            a,
            attracts(low, high, free, tolerance, along, a),
            along,
        );
        let second = nearer_position(
            first,
            b,
            attracts(low, high, free, tolerance, along, b),
            along,
        );
        let third = nearer_position(
            second,
            c,
            attracts(low, high, free, tolerance, along, c),
            along,
        );
        match third {
            Some(position) => position,
            None => along,
        }
    }
}

/// The seam's range of positions, from the first that leaves a long enough seam to the
/// last.
pub open spec fn seam_low(rules: Rules, rect: Span, anchor: Span) -> int {
    anchor.start - rect.end + least_seam(rules, rect, anchor)
}

pub open spec fn seam_high(rules: Rules, rect: Span, anchor: Span) -> int {
    anchor.end - rect.start - least_seam(rules, rect, anchor)
}

/// How far along a seam on `side` the pointer asks to go.
pub open spec fn wanted_along(desired: Vec2I, side: EdgeSide) -> int {
    if side.is_vertical() {
        desired.y as int
    } else {
        desired.x as int
    }
}

/// Translation resting `rect`'s `side` against `anchor` (a rectangle of `neighbour`), slid
/// along the seam to the point nearest the desired position that keeps the whole body
/// overlap-free; none when there is no such point.
pub open spec fn rest_of(
    scene: Scene,
    rect: Bounds,
    anchor: Bounds,
    neighbour: Seq<Bounds>,
    side: EdgeSide,
) -> Option<Rest> {
    let cross = cross_delta(rect, anchor, side);
    let low = seam_low(scene.rules, rect.along(side), anchor.along(side));
    let high = seam_high(scene.rules, rect.along(side), anchor.along(side));
    let target = wanted_along(scene.desired, side);
    let free = |along: int| clear_at(scene, neighbour, side, cross, along);
    match nearest_point(low, high, target, free) {
        None => None,
        Some(along) => {
            let position = aligned(
                hull_of(scene.moving)->0.along(side),
                hull_of(neighbour)->0.along(side),
                low,
                high,
                free,
                scene.rules.align_tolerance as int,
                along,
            );
            Some(
                Rest {
                    dx: step_x(side, cross, position) as i64,
                    dy: step_y(side, cross, position) as i64,
                    exhausted: along != target,
                },
            )
        },
    }
}

/// None of the open intervals holds `p`.
pub open spec fn outside(forbidden: Seq<(i64, i64)>, p: int) -> bool {
    forall|i: int|
        0 <= i < forbidden.len() ==> !((#[trigger] forbidden[i]).0 < p < forbidden[i].1)
}

pub open spec fn sorted_by_start(forbidden: Seq<(i64, i64)>) -> bool {
    forall|i: int, j: int|
        0 <= i <= j < forbidden.len() ==> (#[trigger] forbidden[i]).0 <= (#[trigger] forbidden[j]).0
}

pub open spec fn within(forbidden: Seq<(i64, i64)>, reach: int) -> bool {
    forall|i: int|
        0 <= i < forbidden.len() ==> -reach <= (#[trigger] forbidden[i]).0 <= reach && -reach
            <= forbidden[i].1 <= reach
}

/// `best` is a point no farther from `target` than `q`, and the lower one at a tie.
pub open spec fn no_farther(best: Option<i64>, target: int, q: int) -> bool {
    match best {
        Some(p) => abs_int(p - target) < abs_int(q - target) || (abs_int(p - target) == abs_int(
            q - target,
        ) && p <= q),
        None => false,
    }
}

/// Nearest point to `target` within `[low, high]` outside every open `forbidden`
/// interval (sorted by start).
pub fn nearest_free(low: i64, high: i64, forbidden: &[(i64, i64)], target: i64) -> (r: Option<i64>)
    requires
        sorted_by_start(forbidden@),
        i64::MIN / 4 <= low <= i64::MAX / 4,
        i64::MIN / 4 <= high <= i64::MAX / 4,
        i64::MIN / 4 <= target <= i64::MAX / 4,
    ensures
        r matches Some(p) ==> is_nearest(
            low as int,
            high as int,
            target as int,
            |q: int| outside(forbidden@, q),
            p as int,
        ),
        r is None ==> forall|q: int| low <= q <= high ==> !#[trigger] outside(forbidden@, q),
{
    let ghost free = |q: int| outside(forbidden@, q);
    let mut best: Option<i64> = None;
    let mut cursor: i64 = low;
    let mut i: usize = 0;
    let mut done: bool = false;
    let ghost mut seen: int = low - 1;
    while i < forbidden.len() && !done
        invariant
            i <= forbidden@.len(),
            sorted_by_start(forbidden@),
            i64::MIN / 4 <= low <= i64::MAX / 4,
            i64::MIN / 4 <= high <= i64::MAX / 4,
            i64::MIN / 4 <= target <= i64::MAX / 4,
            low <= cursor,
            done ==> cursor > high,
            forall|j: int| 0 <= j < i ==> (#[trigger] forbidden@[j]).1 <= cursor,
            cursor - 1 <= seen,
            best matches Some(p) ==> low <= p <= high && p <= seen && outside(
                forbidden@,
                p as int,
            ),
            forall|q: int|
                low <= q <= high && q <= seen && #[trigger] outside(forbidden@, q) ==> no_farther(
                    best,
                    target as int,
                    q,
                ),
        decreases forbidden.len() - i,
    {
        let (start, end) = forbidden[i];
        let before = best;
        if start >= cursor {
            best = consider(best, cursor, smaller(start, high), target);
        }
        proof {
            if start >= cursor {
                let last = min_int(start as int, high as int);
                assert forall|q: int| cursor <= q <= last implies outside(forbidden@, q) by {
                    assert forall|j: int| 0 <= j < forbidden@.len() implies !((
                    #[trigger] forbidden@[j]).0 < q < forbidden@[j].1) by {
                        if j >= i {
                            assert(forbidden@[i as int].0 <= forbidden@[j].0);
                        }
                    }
                }
            }
            let next = max_int(cursor as int, end as int);
            let after = max_int(
                max_int(seen, next - 1),
                if start >= cursor {
                    min_int(start as int, high as int)
                } else {
                    seen
                },
            );
            assert forall|q: int|
                low <= q <= high && q <= after && #[trigger] outside(forbidden@, q) implies no_farther(
                    best,
                    target as int,
                    q,
                ) by {
                if q > seen {
                    assert(!(forbidden@[i as int].0 < q < forbidden@[i as int].1));
                }
            }
            seen = after;
        }
        cursor = larger(cursor, end);
        i = i + 1;
        if cursor > high {
            done = true;
        }
    }
    if cursor <= high {
        proof {
            assert(i == forbidden@.len());
            assert forall|q: int| cursor <= q <= high implies outside(forbidden@, q) by {
                assert forall|j: int| 0 <= j < forbidden@.len() implies !((
                #[trigger] forbidden@[j]).0 < q < forbidden@[j].1) by {}
            }
        }
        best = consider(best, cursor, high, target);
    }
    proof {
        assert forall|q: int| low <= q <= high && #[trigger] free(q) implies no_farther(
            best,
            target as int,
            q,
        ) by {
            assert(outside(forbidden@, q));
        }
        if let Some(p) = best {
            assert(free(p as int));
        }
        assert forall|q: int| low <= q <= high && best is None implies !#[trigger] outside(
            forbidden@,
            q,
        ) by {
            assert(free(q) == outside(forbidden@, q));
        }
    }
    best
}

/// The nearer to `target` of `best` and the points of `[start, end]`; `best` at a tie.
fn consider(best: Option<i64>, start: i64, end: i64, target: i64) -> (r: Option<i64>)
    requires
        i64::MIN / 4 <= target <= i64::MAX / 4,
        start <= end ==> i64::MIN / 4 <= start && end <= i64::MAX / 4,
        best matches Some(p) ==> i64::MIN / 4 <= p <= i64::MAX / 4,
    ensures
        start > end ==> r == best,
        start <= end ==> {
            let point = max_int(start as int, min_int(target as int, end as int));
            r == (match best {
                Some(p) => if abs_int(point - target) < abs_int(p - target) {
                    Some(point as i64)
                } else {
                    best
                },
                None => Some(point as i64),
            })
        },
{
    if start > end {
        return best;
    }
    let point: i64 = larger(start, smaller(target, end));
    match best {
        Some(current) => if magnitude(point - target) < magnitude(current - target) {
            Some(point)
        } else {
            best
        },
        None => Some(point),
    }
}

/// Adds an interval, keeping the list sorted by start.
fn insert_sorted(forbidden: &mut Vec<(i64, i64)>, interval: (i64, i64))
    requires
        sorted_by_start(old(forbidden)@),
    ensures
        sorted_by_start(final(forbidden)@),
        forall|p: int|
            #[trigger] outside(final(forbidden)@, p) == (outside(old(forbidden)@, p) && !(interval.0
                < p < interval.1)),
{
    let mut at: usize = 0;
    while at < forbidden.len() && forbidden[at].0 <= interval.0
        invariant
            at <= forbidden@.len(),
            forbidden@ == old(forbidden)@,
            sorted_by_start(forbidden@),
            forall|j: int| 0 <= j < at ==> (#[trigger] forbidden@[j]).0 <= interval.0,
        decreases forbidden.len() - at,
    {
        at = at + 1;
    }
    forbidden.insert(at, interval);
    proof {
        let before = old(forbidden)@;
        let after = before.insert(at as int, interval);
        assert forall|p: int| #[trigger] outside(after, p) == (outside(before, p) && !(interval.0 < p
            < interval.1)) by {
            if outside(after, p) {
                assert forall|j: int| 0 <= j < before.len() implies !((#[trigger] before[j]).0 < p
                    < before[j].1) by {
                    if j < at {
                        assert(after[j] == before[j]);
                    } else {
                        assert(after[j + 1] == before[j]);
                    }
                }
                assert(after[at as int] == interval);
            }
        }
    }
}

/// Forbids the positions along the seam at which `moving` would overlap `other`.
fn forbid(
    forbidden: &mut Vec<(i64, i64)>,
    moving: &Body,
    other: &Body,
    side: EdgeSide,
    cross: i64,
)
    requires
        sorted_by_start(old(forbidden)@),
        bounded(moving@, REACH as int),
        bounded(other@, REACH as int),
        -4 * REACH <= cross <= 4 * REACH,
    ensures
        sorted_by_start(final(forbidden)@),
        forall|p: int|
            #[trigger] outside(final(forbidden)@, p) == (outside(old(forbidden)@, p) && !hits(
                moving@,
                step_x(side, cross as int, p),
                step_y(side, cross as int, p),
                other@,
            )),
{
    let ghost before = forbidden@;
    for i in 0..moving.rects.len()
        invariant
            sorted_by_start(forbidden@),
            bounded(moving@, REACH as int),
            bounded(other@, REACH as int),
            -4 * REACH <= cross <= 4 * REACH,
            forall|p: int|
                #[trigger] outside(forbidden@, p) == (outside(before, p) && forall|a: int, b: int|
                    0 <= a < i && 0 <= b < other@.len() ==> !(#[trigger] moving@[a]).crosses_at(
                        step_x(side, cross as int, p),
                        step_y(side, cross as int, p),
                        #[trigger] other@[b],
                    )),
    {
        let (moving_cross, moving_along) = moving.rects[i].spans(side);
        assert(moving@[i as int].bounded(REACH as int));
        let moving_cross = moving_cross.shifted(cross);
        let ghost at_row = forbidden@;
        for j in 0..other.rects.len()
            invariant
                i < moving@.len(),
                sorted_by_start(forbidden@),
                bounded(moving@, REACH as int),
                bounded(other@, REACH as int),
                moving@[i as int].bounded(REACH as int),
                moving_cross.start == moving@[i as int].cross(side).start + cross,
                moving_cross.end == moving@[i as int].cross(side).end + cross,
                moving_along == moving@[i as int].along(side),
                forall|p: int|
                    #[trigger] outside(forbidden@, p) == (outside(at_row, p) && forall|b: int|
                        0 <= b < j ==> !moving@[i as int].crosses_at(
                            step_x(side, cross as int, p),
                            step_y(side, cross as int, p),
                            #[trigger] other@[b],
                        )),
        {
            let (fixed_cross, fixed_along) = other.rects[j].spans(side);
            assert(other@[j as int].bounded(REACH as int));
            let ghost at_cell = forbidden@;
            if moving_cross.overlaps(fixed_cross) {
                insert_sorted(
                    forbidden,
                    (fixed_along.start - moving_along.end, fixed_along.end - moving_along.start),
                );
            }
            proof {
                assert forall|p: int| #[trigger] outside(forbidden@, p) == (outside(at_cell, p)
                    && !moving@[i as int].crosses_at(
                    step_x(side, cross as int, p),
                    step_y(side, cross as int, p),
                    other@[j as int],
                )) by {}
                assert forall|p: int| #[trigger] outside(forbidden@, p) == (outside(at_row, p)
                    && forall|b: int|
                    0 <= b < j + 1 ==> !moving@[i as int].crosses_at(
                        step_x(side, cross as int, p),
                        step_y(side, cross as int, p),
                        #[trigger] other@[b],
                    )) by {
                    assert(outside(forbidden@, p) == (outside(at_cell, p)
                        && !moving@[i as int].crosses_at(
                        step_x(side, cross as int, p),
                        step_y(side, cross as int, p),
                        other@[j as int],
                    )));
                    assert(outside(at_cell, p) == (outside(at_row, p) && forall|b: int|
                        0 <= b < j ==> !moving@[i as int].crosses_at(
                            step_x(side, cross as int, p),
                            step_y(side, cross as int, p),
                            #[trigger] other@[b],
                        )));
                }
            }
        }
        proof {
            assert forall|p: int| #[trigger] outside(forbidden@, p) == (outside(before, p)
                && forall|a: int, b: int|
                0 <= a < i + 1 && 0 <= b < other@.len() ==> !(#[trigger] moving@[a]).crosses_at(
                    step_x(side, cross as int, p),
                    step_y(side, cross as int, p),
                    #[trigger] other@[b],
                )) by {
                assert(outside(at_row, p) == (outside(before, p) && forall|a: int, b: int|
                    0 <= a < i && 0 <= b < other@.len() ==> !(#[trigger] moving@[a]).crosses_at(
                        step_x(side, cross as int, p),
                        step_y(side, cross as int, p),
                        #[trigger] other@[b],
                    )));
            }
        }
    }
    proof {
        assert forall|p: int| #[trigger] outside(forbidden@, p) == (outside(before, p) && !hits(
            moving@,
            step_x(side, cross as int, p),
            step_y(side, cross as int, p),
            other@,
        )) by {}
    }
}

/// The nearest point is the same for two ways of saying which points are free.
proof fn lemma_nearest_point(
    low: int,
    high: int,
    target: int,
    one: spec_fn(int) -> bool,
    other: spec_fn(int) -> bool,
    found: Option<i64>,
)
    requires
        forall|p: int| #[trigger] one(p) == other(p),
        found matches Some(p) ==> is_nearest(low, high, target, one, p as int),
        found is None ==> forall|q: int| low <= q <= high ==> !#[trigger] one(q),
    ensures
        nearest_point(low, high, target, other) == (match found {
            Some(p) => Some(p as int),
            None => None,
        }),
{
    match found {
        Some(p) => {
            assert(one(p as int));
            assert forall|q: int| low <= q <= high && #[trigger] other(q) implies abs_int(p - target)
                < abs_int(q - target) || (abs_int(p - target) == abs_int(q - target) && p <= q) by {
                assert(one(q));
            }
            assert(is_nearest(low, high, target, other, p as int));
            let chosen = choose|c: int| is_nearest(low, high, target, other, c);
            assert(is_nearest(low, high, target, other, chosen));
            assert(other(chosen));
            assert(other(p as int));
        },
        None => {
            assert forall|p: int| !is_nearest(low, high, target, other, p) by {
                assert(one(p) == other(p));
            }
        },
    }
}

/// A point of the seam is free when no forbidden interval holds it.
fn position_free(low: i64, high: i64, forbidden: &[(i64, i64)], position: i64) -> (r: bool)
    ensures
        r == (low <= position <= high && outside(forbidden@, position as int)),
{
    if position < low || position > high {
        return false;
    }
    for i in 0..forbidden.len()
        invariant
            forall|j: int|
                0 <= j < i ==> !((#[trigger] forbidden@[j]).0 < position < forbidden@[j].1),
    {
        let (start, end) = forbidden[i];
        if position > start && position < end {
            assert(forbidden@[i as int].0 < position < forbidden@[i as int].1);
            return false;
        }
    }
    true
}

/// `position` attracts a body resting at `along`.
fn position_attracts(
    low: i64,
    high: i64,
    forbidden: &[(i64, i64)],
    tolerance: i64,
    along: i64,
    position: i64,
) -> (r: bool)
    requires
        -16 * REACH <= along <= 16 * REACH,
        -16 * REACH <= position <= 16 * REACH,
    ensures
        r == attracts(
            low as int,
            high as int,
            |p: int| outside(forbidden@, p),
            tolerance as int,
            along as int,
            position as int,
        ),
{
    magnitude(position - along) <= tolerance && position_free(low, high, forbidden, position)
}

/// The nearer of an earlier choice and `position`, when that attracts.
fn prefer(chosen: Option<i64>, position: i64, attracting: bool, along: i64) -> (r: Option<i64>)
    requires
        -16 * REACH <= along <= 16 * REACH,
        -16 * REACH <= position <= 16 * REACH,
        chosen matches Some(earlier) ==> -16 * REACH <= earlier <= 16 * REACH,
    ensures
        nearer_position(
            match chosen {
                Some(earlier) => Some(earlier as int),
                None => None,
            },
            position as int,
            attracting,
            along as int,
        ) == (match r {
            Some(p) => Some(p as int),
            None => None,
        }),
        r == chosen || r == Some(position),
{
    if !attracting {
        return chosen;
    }
    match chosen {
        Some(earlier) => if magnitude(position - along) < magnitude(earlier - along) {
            Some(position)
        } else {
            chosen
        },
        None => Some(position),
    }
}

/// Where alignment pulls a body that would rest at `along`.
fn align(
    moving: Span,
    neighbour: Span,
    low: i64,
    high: i64,
    forbidden: &[(i64, i64)],
    tolerance: i64,
    along: i64,
) -> (r: i64)
    requires
        moving.bounded(REACH as int),
        neighbour.bounded(REACH as int),
        -4 * REACH <= low <= along <= high <= 4 * REACH,
    ensures
        r == aligned(
            moving,
            neighbour,
            low as int,
            high as int,
            |p: int| outside(forbidden@, p),
            tolerance as int,
            along as int,
        ),
        low <= r <= high,
        outside(forbidden@, along as int) ==> outside(forbidden@, r as int),
{
    let starts: i64 = neighbour.start - moving.start;
    let ends: i64 = neighbour.end - moving.end;
    let centres: i64 = divide(
        neighbour.start + neighbour.end - moving.start - moving.end,
        2,
    );
    let ghost free = |p: int| outside(forbidden@, p);
    if (starts == 0 || ends == 0 || centres == 0) && position_attracts(
        low,
        high,
        forbidden,
        tolerance,
        along,
        0,
    ) {
        assert(free(0));
        return 0;
    }
    let at_starts: bool = position_attracts(low, high, forbidden, tolerance, along, starts);
    let at_ends: bool = position_attracts(low, high, forbidden, tolerance, along, ends);
    let at_centres: bool = position_attracts(low, high, forbidden, tolerance, along, centres);
    proof {
        assert(free(starts as int) == outside(forbidden@, starts as int));
        assert(free(ends as int) == outside(forbidden@, ends as int));
        assert(free(centres as int) == outside(forbidden@, centres as int));
    }
    let first = prefer(None, starts, at_starts, along);
    let second = prefer(first, ends, at_ends, along);
    let third = prefer(second, centres, at_centres, along);
    match third {
        Some(position) => position,
        None => along,
    }
}

/// The bodies a placement must not overlap, and what it is held against.
struct Probe<'a> {
    moving: &'a Body,
    moving_bounds: Bounds,
    bodies: &'a [Body],
    blocking: &'a [usize],
    rules: Rules,
    desired: Vec2I,
}

/// Alignment looks only at which points are free.
proof fn lemma_aligned(
    moving: Span,
    neighbour: Span,
    low: int,
    high: int,
    one: spec_fn(int) -> bool,
    other: spec_fn(int) -> bool,
    tolerance: int,
    along: int,
)
    requires
        forall|p: int| #[trigger] one(p) == other(p),
    ensures
        aligned(moving, neighbour, low, high, one, tolerance, along) == aligned(
            moving,
            neighbour,
            low,
            high,
            other,
            tolerance,
            along,
        ),
{
    let a = flush_position(moving, neighbour, 0);
    let b = flush_position(moving, neighbour, 1);
    let c = flush_position(moving, neighbour, 2);
    assert(one(0) == other(0));
    assert(one(a) == other(a));
    assert(one(b) == other(b));
    assert(one(c) == other(c));
}

/// The hull of a bounded shape is bounded.
pub proof fn lemma_hull_bounded(shape: Seq<Bounds>, reach: int)
    requires
        bounded(shape, reach),
        shape.len() > 0,
    ensures
        hull_of(shape) is Some,
        hull_of(shape)->0.bounded(reach),
    decreases shape.len(),
{
    assert(shape.last().bounded(reach));
    if shape.len() > 1 {
        assert forall|i: int| 0 <= i < shape.drop_last().len() implies (
        #[trigger] shape.drop_last()[i]).bounded(reach) by {
            assert(shape[i].bounded(reach));
        }
        lemma_hull_bounded(shape.drop_last(), reach);
    }
}

impl<'a> Probe<'a> {
    spec fn scene(&self) -> Scene {
        Scene {
            moving: self.moving@,
            blocking: picked(shapes(self.bodies@), self.blocking@),
            rules: self.rules,
            desired: self.desired,
        }
    }

    spec fn ready(&self) -> bool {
        &&& self.rules.bounded()
        &&& bounded(self.moving@, REACH as int)
        &&& self.moving@.len() > 0
        &&& hull_of(self.moving@) == Some(self.moving_bounds)
        &&& all_bounded(shapes(self.bodies@), REACH as int)
        &&& forall|i: int|
            0 <= i < self.blocking@.len() ==> (#[trigger] self.blocking@[i]) < self.bodies@.len()
    }

    /// Translation resting `rect`'s `side` against `anchor`, slid along the seam to the
    /// point nearest the desired position that keeps the whole body overlap-free.
    fn rest(&self, rect: Bounds, anchor: Bounds, neighbour: &Body, side: EdgeSide) -> (r: Option<
        Rest,
    >)
        requires
            self.ready(),
            rect.bounded(REACH as int),
            anchor.bounded(REACH as int),
            bounded(neighbour@, REACH as int),
            neighbour@.len() > 0,
        ensures
            r == rest_of(self.scene(), rect, anchor, neighbour@, side),
            r matches Some(rest) ==> -4 * REACH <= rest.dx <= 4 * REACH && -4 * REACH <= rest.dy
                <= 4 * REACH,
    {
        proof {
            lemma_hull_bounded(neighbour@, REACH as int);
            lemma_hull_bounded(self.moving@, REACH as int);
        }
        let neighbour_bounds = match neighbour.bounds() {
            Some(bounds) => bounds,
            None => return None,
        };
        let cross: i64 = match side {
            EdgeSide::Left => anchor.right - rect.left,
            EdgeSide::Right => anchor.left - rect.right,
            EdgeSide::Top => anchor.bottom - rect.top,
            EdgeSide::Bottom => anchor.top - rect.bottom,
        };
        let (_, rect_along) = rect.spans(side);
        let (_, anchor_along) = anchor.spans(side);
        let seam: i64 = larger(
            smaller(smaller(self.rules.min_seam, rect_along.len()), anchor_along.len()),
            1,
        );
        let low: i64 = anchor_along.start - rect_along.end + seam;
        let high: i64 = anchor_along.end - rect_along.start - seam;
        let ghost free = |along: int|
            clear_at(self.scene(), neighbour@, side, cross as int, along);
        let mut forbidden: Vec<(i64, i64)> = Vec::new();
        forbid(&mut forbidden, self.moving, neighbour, side, cross);
        for k in 0..self.blocking.len()
            invariant
                self.ready(),
                sorted_by_start(forbidden@),
                -2 * REACH <= cross <= 2 * REACH,
                forall|p: int|
                    #[trigger] outside(forbidden@, p) == (!hits(
                        self.moving@,
                        step_x(side, cross as int, p),
                        step_y(side, cross as int, p),
                        neighbour@,
                    ) && forall|m: int|
                        0 <= m < k ==> !hits(
                            self.moving@,
                            step_x(side, cross as int, p),
                            step_y(side, cross as int, p),
                            #[trigger] self.scene().blocking[m],
                        )),
        {
            let index: usize = self.blocking[k];
            assert(self.blocking@[k as int] < self.bodies@.len());
            assert(bounded(shapes(self.bodies@)[index as int], REACH as int));
            assert(self.scene().blocking[k as int] == self.bodies@[index as int]@);
            let ghost at_body = forbidden@;
            forbid(&mut forbidden, self.moving, &self.bodies[index], side, cross);
            proof {
                assert forall|p: int| #[trigger] outside(forbidden@, p) == (!hits(
                    self.moving@,
                    step_x(side, cross as int, p),
                    step_y(side, cross as int, p),
                    neighbour@,
                ) && forall|m: int|
                    0 <= m < k + 1 ==> !hits(
                        self.moving@,
                        step_x(side, cross as int, p),
                        step_y(side, cross as int, p),
                        #[trigger] self.scene().blocking[m],
                    )) by {
                    assert(outside(at_body, p) == (!hits(
                        self.moving@,
                        step_x(side, cross as int, p),
                        step_y(side, cross as int, p),
                        neighbour@,
                    ) && forall|m: int|
                        0 <= m < k ==> !hits(
                            self.moving@,
                            step_x(side, cross as int, p),
                            step_y(side, cross as int, p),
                            #[trigger] self.scene().blocking[m],
                        )));
                }
            }
        }
        let vertical: bool = side.vertical();
        let target: i64 = if vertical {
            self.desired.y as i64
        } else {
            self.desired.x as i64
        };
        let ghost listed = |p: int| outside(forbidden@, p);
        assert forall|p: int| #[trigger] listed(p) == free(p) by {
            assert(outside(forbidden@, p) == clear_at(
                self.scene(),
                neighbour@,
                side,
                cross as int,
                p,
            ));
        }
        let found = nearest_free(low, high, &forbidden, target);
        proof {
            assert forall|q: int| found is None && low <= q <= high implies !#[trigger] listed(q) by {
                assert(!outside(forbidden@, q));
            }
            lemma_nearest_point(low as int, high as int, target as int, listed, free, found);
        }
        let along: i64 = match found {
            Some(along) => along,
            None => return None,
        };
        let exhausted: bool = along != target;
        let (_, moving_along) = self.moving_bounds.spans(side);
        let (_, neighbour_along) = neighbour_bounds.spans(side);
        let position: i64 = align(
            moving_along,
            neighbour_along,
            low,
            high,
            &forbidden,
            self.rules.align_tolerance,
            along,
        );
        proof {
            lemma_aligned(
                moving_along,
                neighbour_along,
                low as int,
                high as int,
                listed,
                free,
                self.rules.align_tolerance as int,
                along as int,
            );
        }
        if vertical {
            Some(Rest { dx: cross, dy: position, exhausted })
        } else {
            Some(Rest { dx: position, dy: cross, exhausted })
        }
    }
}

pub open spec fn side_at(i: int) -> EdgeSide {
    if i == 0 {
        EdgeSide::Left
    } else if i == 1 {
        EdgeSide::Right
    } else if i == 2 {
        EdgeSide::Top
    } else {
        EdgeSide::Bottom
    }
}

fn side_of(i: usize) -> (r: EdgeSide)
    ensures
        r == side_at(i as int),
{
    if i == 0 {
        EdgeSide::Left
    } else if i == 1 {
        EdgeSide::Right
    } else if i == 2 {
        EdgeSide::Top
    } else {
        EdgeSide::Bottom
    }
}

/// Seams of `rect` with `anchor`, over the first `n` sides.
pub open spec fn side_seams(
    scene: Scene,
    rect: Bounds,
    anchor: Bounds,
    body: Seq<Bounds>,
    n: nat,
) -> Seq<Candidate>
    decreases n,
{
    if n == 0 {
        Seq::empty()
    } else {
        let before = side_seams(scene, rect, anchor, body, (n - 1) as nat);
        match rest_of(scene, rect, anchor, body, side_at(n - 1)) {
            Some(rest) => before.push(Candidate { side: side_at(n - 1), rest }),
            None => before,
        }
    }
}

/// Seams of the first `n` moving rectangles with `anchor`.
pub open spec fn rect_seams(scene: Scene, anchor: Bounds, body: Seq<Bounds>, n: nat) -> Seq<
    Candidate,
>
    decreases n,
{
    if n == 0 {
        Seq::empty()
    } else {
        rect_seams(scene, anchor, body, (n - 1) as nat) + side_seams(
            scene,
            scene.moving[n - 1],
            anchor,
            body,
            4,
        )
    }
}

/// Seams with the first `n` rectangles of `body`.
pub open spec fn body_seams(scene: Scene, body: Seq<Bounds>, n: nat) -> Seq<Candidate>
    decreases n,
{
    if n == 0 {
        Seq::empty()
    } else {
        body_seams(scene, body, (n - 1) as nat) + rect_seams(
            scene,
            body[n - 1],
            body,
            scene.moving.len(),
        )
    }
}

/// Every seam with the first `n` targets.
pub open spec fn target_seams(scene: Scene, targets: Seq<Seq<Bounds>>, n: nat) -> Seq<Candidate>
    decreases n,
{
    if n == 0 {
        Seq::empty()
    } else {
        target_seams(scene, targets, (n - 1) as nat) + body_seams(
            scene,
            targets[n - 1],
            targets[n - 1].len(),
        )
    }
}

/// `side` lies on the axis the body rests on now.
pub open spec fn in_axis(current: Option<EdgeSide>, side: EdgeSide) -> bool {
    match current {
        Some(now) => now == side || now == side.facing(),
        None => true,
    }
}

/// Square of the distance between where a candidate puts the body and where the pointer
/// asks it to be.
pub open spec fn reach_square(c: Candidate, desired: Vec2I) -> int {
    (c.rest.dx - desired.x) * (c.rest.dx - desired.x) + (c.rest.dy - desired.y) * (c.rest.dy
        - desired.y)
}

/// The nearest candidate among those on the current side (`exact`), or on its axis; the
/// earliest at a tie.
pub open spec fn nearest_seam(
    seams: Seq<Candidate>,
    current: Option<EdgeSide>,
    exact: bool,
    desired: Vec2I,
) -> Option<Candidate>
    decreases seams.len(),
{
    if seams.len() == 0 {
        None
    } else {
        let before = nearest_seam(seams.drop_last(), current, exact, desired);
        let c = seams.last();
        let admitted = if exact {
            current == Some(c.side)
        } else {
            in_axis(current, c.side)
        };
        if admitted && (before is None || reach_square(c, desired) < reach_square(
            before->0,
            desired,
        )) {
            Some(c)
        } else {
            before
        }
    }
}

/// The perpendicular sides come into play only once the seam the body rests on has run
/// out.
pub open spec fn kept_to_axis(
    seams: Seq<Candidate>,
    current: Option<EdgeSide>,
    desired: Vec2I,
) -> bool {
    let nearest = match nearest_seam(seams, current, true, desired) {
        Some(c) => Some(c),
        None => nearest_seam(seams, current, false, desired),
    };
    nearest matches Some(c) && !c.rest.exhausted
}

/// How much shorter a candidate's distance is taken to be.
pub open spec fn credit(c: Candidate, current: Option<EdgeSide>, rules: Rules) -> int {
    (if current == Some(c.side) {
        quotient(rules.min_seam as int, 8)
    } else {
        0
    }) + (if c.rest.dx == 0 && c.rest.dy == 0 {
        quotient(rules.min_seam as int, 4)
    } else {
        0
    })
}

/// `c` scores better than `other`: its distance less its credit is smaller.
pub open spec fn ahead_of(
    c: Candidate,
    other: Candidate,
    current: Option<EdgeSide>,
    rules: Rules,
    desired: Vec2I,
) -> bool {
    shorter_by(
        reach_square(c, desired),
        reach_square(other, desired),
        credit(other, current, rules) - credit(c, current, rules),
    )
}

/// The best candidate, the earliest at a tie; with `keep`, only those on the current axis
/// count.
pub open spec fn best_seam(
    seams: Seq<Candidate>,
    keep: bool,
    current: Option<EdgeSide>,
    rules: Rules,
    desired: Vec2I,
) -> Option<Candidate>
    decreases seams.len(),
{
    if seams.len() == 0 {
        None
    } else {
        let before = best_seam(seams.drop_last(), keep, current, rules, desired);
        let c = seams.last();
        if (keep ==> in_axis(current, c.side)) && (before is None || ahead_of(
            c,
            before->0,
            current,
            rules,
            desired,
        )) {
            Some(c)
        } else {
            before
        }
    }
}

pub open spec fn clamp_i32(value: int) -> i32 {
    if value < i32::MIN {
        i32::MIN
    } else if value > i32::MAX {
        i32::MAX
    } else {
        value as i32
    }
}

/// Where the moving shape of a scene comes to rest among `targets`.
pub open spec fn placement_of(
    scene: Scene,
    targets: Seq<Seq<Bounds>>,
    current: Option<EdgeSide>,
) -> Option<Placement> {
    let seams = target_seams(scene, targets, targets.len());
    let keep = kept_to_axis(seams, current, scene.desired);
    match best_seam(seams, keep, current, scene.rules, scene.desired) {
        Some(c) => Some(
            Placement {
                delta: Vec2I {
                    x: clamp_i32(c.rest.dx as int),
                    y: clamp_i32(c.rest.dy as int),
                },
                side: c.side,
            },
        ),
        None => None,
    }
}

pub fn to_i32(value: i64) -> (r: i32)
    ensures
        r == clamp_i32(value as int),
{
    if value < i32::MIN as i64 {
        i32::MIN
    } else if value > i32::MAX as i64 {
        i32::MAX
    } else {
        value as i32
    }
}

pub(crate) fn opposite(side: EdgeSide) -> (r: EdgeSide)
    ensures
        r == side.facing(),
{
    match side {
        EdgeSide::Left => EdgeSide::Right,
        EdgeSide::Right => EdgeSide::Left,
        EdgeSide::Top => EdgeSide::Bottom,
        EdgeSide::Bottom => EdgeSide::Top,
    }
}

/// Candidates the arithmetic on distances holds for.
spec fn reachable(seams: Seq<Candidate>) -> bool {
    forall|i: int|
        0 <= i < seams.len() ==> -4 * REACH <= (#[trigger] seams[i]).rest.dx <= 4 * REACH && -4
            * REACH <= seams[i].rest.dy <= 4 * REACH
}

fn seam_distance(c: &Candidate, desired: Vec2I) -> (r: i128)
    requires
        -4 * REACH <= c.rest.dx <= 4 * REACH,
        -4 * REACH <= c.rest.dy <= 4 * REACH,
    ensures
        r == reach_square(*c, desired),
        0 <= r < 0x4000_0000_0000_0000_0000,
{
    let dx: i64 = c.rest.dx - desired.x as i64;
    let dy: i64 = c.rest.dy - desired.y as i64;
    assert(0 <= dx * dx <= 0x1000_0000_0000_0000_0000 && 0 <= dy * dy
        <= 0x1000_0000_0000_0000_0000) by (nonlinear_arith)
        requires
            -0x40_0000_0000 <= dx <= 0x40_0000_0000,
            -0x40_0000_0000 <= dy <= 0x40_0000_0000,
    ;
    dx as i128 * dx as i128 + dy as i128 * dy as i128
}

fn within_axis(current: Option<EdgeSide>, side: EdgeSide) -> (r: bool)
    ensures
        r == in_axis(current, side),
{
    match current {
        Some(now) => now == side || now == opposite(side),
        None => true,
    }
}

fn rests_on(current: Option<EdgeSide>, side: EdgeSide) -> (r: bool)
    ensures
        r == (current == Some(side)),
{
    match current {
        Some(now) => now == side,
        None => false,
    }
}

fn find_nearest(
    seams: &Vec<Candidate>,
    current: Option<EdgeSide>,
    exact: bool,
    desired: Vec2I,
) -> (r: Option<Candidate>)
    requires
        reachable(seams@),
    ensures
        r == nearest_seam(seams@, current, exact, desired),
{
    let mut best: Option<Candidate> = None;
    for i in 0..seams.len()
        invariant
            reachable(seams@),
            best == nearest_seam(seams@.take(i as int), current, exact, desired),
            best matches Some(b) ==> -4 * REACH <= b.rest.dx <= 4 * REACH && -4 * REACH <= b.rest.dy
                <= 4 * REACH,
    {
        assert(seams@.take(i + 1).drop_last() =~= seams@.take(i as int));
        let c = seams[i];
        let admitted: bool = if exact {
            rests_on(current, c.side)
        } else {
            within_axis(current, c.side)
        };
        if admitted {
            let nearer: bool = match &best {
                Some(b) => seam_distance(&c, desired) < seam_distance(b, desired),
                None => true,
            };
            if nearer {
                best = Some(c);
            }
        }
    }
    assert(seams@.take(seams@.len() as int) =~= seams@);
    best
}

fn seam_credit(c: &Candidate, current: Option<EdgeSide>, rules: &Rules) -> (r: i64)
    requires
        rules.bounded(),
    ensures
        r == credit(*c, current, *rules),
        -0x60_0000_0000 <= r <= 0x60_0000_0000,
{
    let stickiness: i64 = divide(rules.min_seam, STICKINESS);
    let inertia: i64 = divide(rules.min_seam, INERTIA);
    let mut total: i64 = 0;
    if rests_on(current, c.side) {
        total = total + stickiness;
    }
    if c.rest.dx == 0 && c.rest.dy == 0 {
        total = total + inertia;
    }
    total
}

fn find_best(
    seams: &Vec<Candidate>,
    keep: bool,
    current: Option<EdgeSide>,
    rules: &Rules,
    desired: Vec2I,
) -> (r: Option<Candidate>)
    requires
        reachable(seams@),
        rules.bounded(),
    ensures
        r == best_seam(seams@, keep, current, *rules, desired),
{
    let mut best: Option<Candidate> = None;
    for i in 0..seams.len()
        invariant
            reachable(seams@),
            rules.bounded(),
            best == best_seam(seams@.take(i as int), keep, current, *rules, desired),
            best matches Some(b) ==> -4 * REACH <= b.rest.dx <= 4 * REACH && -4 * REACH <= b.rest.dy
                <= 4 * REACH,
    {
        assert(seams@.take(i + 1).drop_last() =~= seams@.take(i as int));
        let c = seams[i];
        if !keep || within_axis(current, c.side) {
            let better: bool = match &best {
                Some(b) => shorter(
                    seam_distance(&c, desired),
                    seam_distance(b, desired),
                    seam_credit(b, current, rules) - seam_credit(&c, current, rules),
                ),
                None => true,
            };
            if better {
                best = Some(c);
            }
        }
    }
    assert(seams@.take(seams@.len() as int) =~= seams@);
    best
}

impl<'a> Probe<'a> {
    /// Every seam the moving body could take with `body`, after those in `seams`.
    fn add_seams(&self, body: &Body, seams: &mut Vec<Candidate>)
        requires
            self.ready(),
            bounded(body@, REACH as int),
            reachable(old(seams)@),
        ensures
            final(seams)@ == old(seams)@ + body_seams(self.scene(), body@, body@.len()),
            reachable(final(seams)@),
    {
        let ghost before = seams@;
        assert(before =~= before + body_seams(self.scene(), body@, 0));
        for a in 0..body.rects.len()
            invariant
                self.ready(),
                bounded(body@, REACH as int),
                reachable(seams@),
                seams@ == before + body_seams(self.scene(), body@, a as nat),
        {
            let anchor = body.rects[a];
            assert(body@[a as int].bounded(REACH as int));
            let ghost at_anchor = seams@;
            assert(at_anchor =~= at_anchor + rect_seams(self.scene(), anchor, body@, 0));
            for m in 0..self.moving.rects.len()
                invariant
                    self.ready(),
                    body@.len() > 0,
                    bounded(body@, REACH as int),
                    anchor.bounded(REACH as int),
                    reachable(seams@),
                    seams@ == at_anchor + rect_seams(self.scene(), anchor, body@, m as nat),
            {
                let rect = self.moving.rects[m];
                assert(self.moving@[m as int].bounded(REACH as int));
                let ghost at_rect = seams@;
                assert(at_rect =~= at_rect + side_seams(self.scene(), rect, anchor, body@, 0));
                for n in 0..4usize
                    invariant
                        self.ready(),
                        body@.len() > 0,
                        bounded(body@, REACH as int),
                        anchor.bounded(REACH as int),
                        rect.bounded(REACH as int),
                        reachable(seams@),
                        seams@ == at_rect + side_seams(
                            self.scene(),
                            rect,
                            anchor,
                            body@,
                            n as nat,
                        ),
                {
                    let side = side_of(n);
                    let ghost at_side = seams@;
                    if let Some(rest) = self.rest(rect, anchor, body, side) {
                        seams.push(Candidate { side, rest });
                        assert forall|i: int| 0 <= i < seams@.len() implies -4 * REACH <= (
                        #[trigger] seams@[i]).rest.dx <= 4 * REACH && -4 * REACH
                            <= seams@[i].rest.dy <= 4 * REACH by {
                            if i < at_side.len() {
                                assert(seams@[i] == at_side[i]);
                            }
                        }
                    }
                    assert(seams@ =~= at_rect + side_seams(
                        self.scene(),
                        rect,
                        anchor,
                        body@,
                        (n + 1) as nat,
                    ));
                }
                assert(seams@ =~= at_anchor + rect_seams(
                    self.scene(),
                    anchor,
                    body@,
                    (m + 1) as nat,
                ));
            }
            assert(seams@ =~= before + body_seams(self.scene(), body@, (a + 1) as nat));
        }
    }
}

/// The scene of placing `moving` among the bodies that block it.
pub open spec fn scene_of(
    moving: Body,
    desired: Vec2I,
    bodies: Seq<Body>,
    blocking: Seq<usize>,
    rules: Rules,
) -> Scene {
    Scene { moving: moving@, blocking: picked(shapes(bodies), blocking), rules, desired }
}

pub open spec fn indices_within(indices: Seq<usize>, len: nat) -> bool {
    forall|i: int| 0 <= i < indices.len() ==> (#[trigger] indices[i]) < len
}

/// [`resolve`] with the bodies to rest against (`targets`) chosen separately from the
/// bodies that block placement (`blocking`); a target absent from `blocking` can be
/// overlapped, which is how the dragged body pushes its riders.
pub fn attach(
    moving: &Body,
    desired: Vec2I,
    bodies: &[Body],
    targets: &[usize],
    blocking: &[usize],
    rules: &Rules,
    current: Option<EdgeSide>,
) -> (r: Option<Placement>)
    requires
        rules.bounded(),
        bounded(moving@, REACH as int),
        all_bounded(shapes(bodies@), REACH as int),
        indices_within(targets@, bodies@.len()),
        indices_within(blocking@, bodies@.len()),
    ensures
        r == (if moving@.len() == 0 {
            None
        } else {
            placement_of(
                scene_of(*moving, desired, bodies@, blocking@, *rules),
                picked(shapes(bodies@), targets@),
                current,
            )
        }),
{
    let moving_bounds = match moving.bounds() {
        Some(bounds) => bounds,
        None => {
            proof {
                if moving@.len() > 0 {
                    lemma_hull_bounded(moving@, REACH as int);
                }
            }
            return None;
        },
    };
    let probe = Probe { moving, moving_bounds, bodies, blocking, rules: *rules, desired };
    let ghost scene = probe.scene();
    let ghost shown = picked(shapes(bodies@), targets@);
    let mut seams: Vec<Candidate> = Vec::new();
    for t in 0..targets.len()
        invariant
            probe.ready(),
            probe.bodies@ == bodies@,
            probe.scene() == scene,
            shown == picked(shapes(bodies@), targets@),
            all_bounded(shapes(bodies@), REACH as int),
            indices_within(targets@, bodies@.len()),
            reachable(seams@),
            seams@ == target_seams(scene, shown, t as nat),
    {
        let index: usize = targets[t];
        assert(targets@[t as int] < bodies@.len());
        assert(bounded(shapes(bodies@)[index as int], REACH as int));
        assert(shown[t as int] == bodies@[index as int]@);
        probe.add_seams(&bodies[index], &mut seams);
    }
    let on_side = find_nearest(&seams, current, true, desired);
    let nearest = match on_side {
        Some(c) => Some(c),
        None => find_nearest(&seams, current, false, desired),
    };
    let keep: bool = match &nearest {
        Some(c) => !c.rest.exhausted,
        None => false,
    };
    match find_best(&seams, keep, current, rules, desired) {
        Some(c) => Some(
            Placement { delta: Vec2I { x: to_i32(c.rest.dx), y: to_i32(c.rest.dy) }, side: c.side },
        ),
        None => None,
    }
}

/// Nearest translation to `desired` that rests `moving` against one of `fixed` along a
/// seam of at least `rules.min_seam` without overlapping any fixed body. `current` is
/// the side the body rests on now: it wins near-ties, staying put wins by more, and the
/// perpendicular sides only come into play once the seam the body rests on has run out,
/// so a straight push goes through to the far side rather than over the top. None when
/// there is nothing to attach to.
pub fn resolve(
    moving: &Body,
    desired: Vec2I,
    fixed: &[Body],
    rules: &Rules,
    current: Option<EdgeSide>,
) -> (r: Option<Placement>)
    requires
        rules.bounded(),
        bounded(moving@, REACH as int),
        all_bounded(shapes(fixed@), REACH as int),
    ensures
        r == (if moving@.len() == 0 {
            None
        } else {
            placement_of(
                Scene { moving: moving@, blocking: shapes(fixed@), rules: *rules, desired },
                shapes(fixed@),
                current,
            )
        }),
{
    let mut all: Vec<usize> = Vec::new();
    for i in 0..fixed.len()
        invariant
            all@.len() == i,
            forall|j: int| 0 <= j < i ==> all@[j] == j,
    {
        all.push(i);
    }
    assert(picked(shapes(fixed@), all@) =~= shapes(fixed@));
    attach(moving, desired, fixed, &all, &all, rules, current)
}

} // verus!
