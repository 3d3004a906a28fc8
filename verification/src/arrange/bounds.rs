//! Rectangles, spans and bodies in canvas coordinates.

use crate::arrange::area::Area;
use crate::geometry::{DisplayRect, EdgeSide, Vec2I};
use vstd::prelude::*;

verus! {

/// Shortest seam two displays may share, in canvas units. Leaves a dead corner so
/// displays never meet corner-to-corner and the cursor always has room to cross.
pub const MIN_SEAM: i64 = 160;

/// Farthest canvas coordinate the arithmetic is carried out for. Four times what a display
/// at the far end of its own coordinates, offset as far as an offset goes, can reach.
pub const REACH: i64 = 0x8_0000_0000;

/// Longest seam rule the arithmetic is carried out for.
pub const SEAM_REACH: i64 = 0x100_0000_0000;

pub open spec fn min_int(a: int, b: int) -> int {
    if a <= b {
        a
    } else {
        b
    }
}

pub open spec fn max_int(a: int, b: int) -> int {
    if a >= b {
        a
    } else {
        b
    }
}

pub open spec fn abs_int(a: int) -> int {
    if a >= 0 {
        a
    } else {
        -a
    }
}

/// Quotient rounded toward zero.
pub open spec fn quotient(a: int, d: int) -> int {
    if a >= 0 {
        a / d
    } else {
        -((-a) / d)
    }
}

pub(crate) fn smaller(a: i64, b: i64) -> (r: i64)
    ensures
        r == min_int(a as int, b as int),
{
    if a <= b {
        a
    } else {
        b
    }
}

pub(crate) fn larger(a: i64, b: i64) -> (r: i64)
    ensures
        r == max_int(a as int, b as int),
{
    if a >= b {
        a
    } else {
        b
    }
}

pub(crate) fn magnitude(a: i64) -> (r: i64)
    requires
        a > i64::MIN,
    ensures
        r == abs_int(a as int),
{
    if a >= 0 {
        a
    } else {
        -a
    }
}

/// `a / d` rounded toward zero, for a positive divisor.
pub(crate) fn divide(a: i64, d: i64) -> (r: i64)
    requires
        a > i64::MIN,
        d > 0,
    ensures
        r == quotient(a as int, d as int),
        abs_int(r as int) <= abs_int(a as int),
{
    if a >= 0 {
        let r: i64 = a / d;
        assert(0 <= r <= a) by (nonlinear_arith)
            requires
                a >= 0,
                d > 0,
                r == a / d,
        ;
        r
    } else {
        let positive: i64 = -a;
        let r: i64 = positive / d;
        assert(0 <= r <= positive) by (nonlinear_arith)
            requires
                positive >= 0,
                d > 0,
                r == positive / d,
        ;
        -r
    }
}

#[derive(Clone, Copy, Debug, PartialEq, Eq, Structural)]
pub struct Rules {
    pub min_seam: i64,
    /// Flush edges (both starts, both ends) and centred placement attract within this
    /// distance along a seam.
    pub align_tolerance: i64,
}

impl Rules {
    pub open spec fn bounded(self) -> bool {
        -SEAM_REACH <= self.min_seam <= SEAM_REACH
    }
}

impl Default for Rules {
    fn default() -> (r: Self)
        ensures
            r == (Rules { min_seam: MIN_SEAM, align_tolerance: 0 }),
    {
        Rules { min_seam: MIN_SEAM, align_tolerance: 0 }
    }
}

/// An extent along one axis.
#[derive(Clone, Copy, Debug, PartialEq, Eq, Structural)]
pub struct Span {
    pub start: i64,
    pub end: i64,
}

impl Span {
    pub open spec fn bounded(self, reach: int) -> bool {
        -reach <= self.start <= reach && -reach <= self.end <= reach
    }

    pub open spec fn length(self) -> int {
        self.end - self.start
    }

    pub open spec fn meets(self, other: Span) -> bool {
        self.start < other.end && other.start < self.end
    }

    pub open spec fn common(self, other: Span) -> Span {
        Span {
            start: max_int(self.start as int, other.start as int) as i64,
            end: min_int(self.end as int, other.end as int) as i64,
        }
    }

    pub fn len(self) -> (r: i64)
        requires
            i64::MIN <= self.end - self.start <= i64::MAX,
        ensures
            r == self.length(),
    {
        self.end - self.start
    }

    pub fn shifted(self, by: i64) -> (r: Self)
        requires
            i64::MIN <= self.start + by <= i64::MAX,
            i64::MIN <= self.end + by <= i64::MAX,
        ensures
            r.start == self.start + by,
            r.end == self.end + by,
    {
        Span { start: self.start + by, end: self.end + by }
    }

    pub fn overlaps(self, other: Self) -> (r: bool)
        ensures
            r == self.meets(other),
    {
        self.start < other.end && other.start < self.end
    }

    /// The extent both spans cover, unless that is empty.
    pub fn overlap(self, other: Self) -> (r: Option<Span>)
        requires
            i64::MIN <= self.common(other).length() <= i64::MAX,
        ensures
            r == (if self.common(other).length() > 0 {
                Some(self.common(other))
            } else {
                None
            }),
    {
        let span = Span {
            start: larger(self.start, other.start),
            end: smaller(self.end, other.end),
        };
        if span.len() > 0 {
            Some(span)
        } else {
            None
        }
    }
}

/// An axis-parallel rectangle; `right` and `bottom` are just outside it.
#[derive(Clone, Copy, Debug, PartialEq, Eq, Structural)]
pub struct Bounds {
    pub left: i64,
    pub top: i64,
    pub right: i64,
    pub bottom: i64,
}

impl Bounds {
    /// Every coordinate lies within `reach` of the origin.
    pub open spec fn bounded(self, reach: int) -> bool {
        &&& -reach <= self.left <= reach
        &&& -reach <= self.top <= reach
        &&& -reach <= self.right <= reach
        &&& -reach <= self.bottom <= reach
    }

    /// The rectangle has an area.
    pub open spec fn solid(self) -> bool {
        self.left < self.right && self.top < self.bottom
    }

    pub open spec fn moved(self, dx: int, dy: int) -> Bounds {
        Bounds {
            left: (self.left + dx) as i64,
            top: (self.top + dy) as i64,
            right: (self.right + dx) as i64,
            bottom: (self.bottom + dy) as i64,
        }
    }

    pub open spec fn crosses(self, other: Bounds) -> bool {
        self.left < other.right && other.left < self.right && self.top < other.bottom && other.top
            < self.bottom
    }

    /// Whether the rectangle, moved by `(dx, dy)`, shares interior points with `other`.
    pub open spec fn crosses_at(self, dx: int, dy: int, other: Bounds) -> bool {
        self.left + dx < other.right && other.left < self.right + dx && self.top + dy < other.bottom
            && other.top < self.bottom + dy
    }

    pub open spec fn extent(self) -> int {
        (self.right - self.left) * (self.bottom - self.top)
    }

    pub open spec fn shared(self, other: Bounds) -> Bounds {
        Bounds {
            left: max_int(self.left as int, other.left as int) as i64,
            top: max_int(self.top as int, other.top as int) as i64,
            right: min_int(self.right as int, other.right as int) as i64,
            bottom: min_int(self.bottom as int, other.bottom as int) as i64,
        }
    }

    pub open spec fn hull(self, other: Bounds) -> Bounds {
        Bounds {
            left: min_int(self.left as int, other.left as int) as i64,
            top: min_int(self.top as int, other.top as int) as i64,
            right: max_int(self.right as int, other.right as int) as i64,
            bottom: max_int(self.bottom as int, other.bottom as int) as i64,
        }
    }

    /// Extent across a seam on `side`.
    pub open spec fn cross(self, side: EdgeSide) -> Span {
        if side.is_vertical() {
            Span { start: self.left, end: self.right }
        } else {
            Span { start: self.top, end: self.bottom }
        }
    }

    /// Extent along a seam on `side`.
    pub open spec fn along(self, side: EdgeSide) -> Span {
        if side.is_vertical() {
            Span { start: self.top, end: self.bottom }
        } else {
            Span { start: self.left, end: self.right }
        }
    }

    /// The canvas rectangle of a display, unless the display has no area.
    pub fn of(display: &DisplayRect, offset: Vec2I) -> (r: Option<Self>)
        ensures
            r == bounds_of(*display, offset),
    {
        if display.w == 0 || display.h == 0 {
            return None;
        }
        let left: i64 = display.x as i64 + offset.x as i64;
        let top: i64 = display.y as i64 + offset.y as i64;
        Some(Bounds { left, top, right: left + display.w as i64, bottom: top + display.h as i64 })
    }

    pub fn shifted(self, dx: i64, dy: i64) -> (r: Self)
        requires
            i64::MIN <= self.left + dx <= i64::MAX,
            i64::MIN <= self.right + dx <= i64::MAX,
            i64::MIN <= self.top + dy <= i64::MAX,
            i64::MIN <= self.bottom + dy <= i64::MAX,
        ensures
            r == self.moved(dx as int, dy as int),
    {
        Bounds {
            left: self.left + dx,
            top: self.top + dy,
            right: self.right + dx,
            bottom: self.bottom + dy,
        }
    }

    pub fn intersects(self, other: Self) -> (r: bool)
        ensures
            r == self.crosses(other),
    {
        self.left < other.right && other.left < self.right && self.top < other.bottom && other.top
            < self.bottom
    }

    pub fn area(self) -> (r: i128)
        requires
            i64::MIN <= self.right - self.left <= i64::MAX,
            i64::MIN <= self.bottom - self.top <= i64::MAX,
        ensures
            r == self.extent(),
    {
        let w: i64 = self.width();
        let h: i64 = self.height();
        assert(-0x4000_0000_0000_0000_0000_0000_0000_0000 <= w * h
            <= 0x4000_0000_0000_0000_0000_0000_0000_0000) by (nonlinear_arith)
            requires
                -0x8000_0000_0000_0000 <= w <= 0x7fff_ffff_ffff_ffff,
                -0x8000_0000_0000_0000 <= h <= 0x7fff_ffff_ffff_ffff,
        ;
        (w as i128) * (h as i128)
    }

    pub fn width(self) -> (r: i64)
        requires
            i64::MIN <= self.right - self.left <= i64::MAX,
        ensures
            r == self.right - self.left,
    {
        self.right - self.left
    }

    pub fn height(self) -> (r: i64)
        requires
            i64::MIN <= self.bottom - self.top <= i64::MAX,
        ensures
            r == self.bottom - self.top,
    {
        self.bottom - self.top
    }

    pub fn intersection(self, other: Self) -> (r: Option<Self>)
        ensures
            r == (if self.crosses(other) {
                Some(self.shared(other))
            } else {
                None
            }),
    {
        if self.intersects(other) {
            Some(
                Bounds {
                    left: larger(self.left, other.left),
                    top: larger(self.top, other.top),
                    right: smaller(self.right, other.right),
                    bottom: smaller(self.bottom, other.bottom),
                },
            )
        } else {
            None
        }
    }

    pub fn union(self, other: Self) -> (r: Self)
        ensures
            r == self.hull(other),
    {
        Bounds {
            left: smaller(self.left, other.left),
            top: smaller(self.top, other.top),
            right: larger(self.right, other.right),
            bottom: larger(self.bottom, other.bottom),
        }
    }

    /// Extents across the seam axis and along it, for a seam on `side`.
    pub fn spans(self, side: EdgeSide) -> (r: (Span, Span))
        ensures
            r == (self.cross(side), self.along(side)),
    {
        let x = Span { start: self.left, end: self.right };
        let y = Span { start: self.top, end: self.bottom };
        match side {
            EdgeSide::Left | EdgeSide::Right => (x, y),
            EdgeSide::Top | EdgeSide::Bottom => (y, x),
        }
    }
}

/// The canvas rectangle of `display` once its machine stands at `offset`.
pub open spec fn bounds_of(display: DisplayRect, offset: Vec2I) -> Option<Bounds> {
    if display.has_area() {
        Some(
            Bounds {
                left: (display.x + offset.x) as i64,
                top: (display.y + offset.y) as i64,
                right: (display.x + offset.x + display.w) as i64,
                bottom: (display.y + offset.y + display.h) as i64,
            },
        )
    } else {
        None
    }
}

/// The rectangles of the first displays that have an area, in their order.
pub open spec fn shape_of(displays: Seq<DisplayRect>, offset: Vec2I) -> Seq<Bounds>
    decreases displays.len(),
{
    if displays.len() == 0 {
        Seq::empty()
    } else {
        let before = shape_of(displays.drop_last(), offset);
        match bounds_of(displays.last(), offset) {
            Some(bounds) => before.push(bounds),
            None => before,
        }
    }
}

/// Every rectangle of a shape lies within `reach` of the origin.
pub open spec fn bounded(shape: Seq<Bounds>, reach: int) -> bool {
    forall|i: int| 0 <= i < shape.len() ==> (#[trigger] shape[i]).bounded(reach)
}

/// Every rectangle of a shape has an area.
pub open spec fn solid(shape: Seq<Bounds>) -> bool {
    forall|i: int| 0 <= i < shape.len() ==> (#[trigger] shape[i]).solid()
}

pub open spec fn moved(shape: Seq<Bounds>, dx: int, dy: int) -> Seq<Bounds> {
    Seq::new(shape.len(), |i: int| shape[i].moved(dx, dy))
}

/// Two shapes share interior points.
pub open spec fn overlapping(a: Seq<Bounds>, b: Seq<Bounds>) -> bool {
    exists|i: int, j: int|
        0 <= i < a.len() && 0 <= j < b.len() && (#[trigger] a[i]).crosses(#[trigger] b[j])
}

/// Smallest rectangle around a shape.
pub open spec fn hull_of(shape: Seq<Bounds>) -> Option<Bounds>
    decreases shape.len(),
{
    if shape.len() == 0 {
        None
    } else {
        match hull_of(shape.drop_last()) {
            Some(hull) => Some(hull.hull(shape.last())),
            None => Some(shape.last()),
        }
    }
}

/// Total area of a shape's rectangles.
pub open spec fn extent_of(shape: Seq<Bounds>) -> int
    decreases shape.len(),
{
    if shape.len() == 0 {
        0
    } else {
        extent_of(shape.drop_last()) + shape.last().extent()
    }
}

/// A machine's displays in canvas coordinates.
#[derive(Debug, PartialEq, Eq)]
pub struct Body {
    pub rects: Vec<Bounds>,
}

impl View for Body {
    type V = Seq<Bounds>;

    open spec fn view(&self) -> Seq<Bounds> {
        self.rects@
    }
}

impl Clone for Body {
    fn clone(&self) -> (r: Self)
        ensures
            r@ == self@,
    {
        let mut rects: Vec<Bounds> = Vec::new();
        for i in 0..self.rects.len()
            invariant
                rects@ == self.rects@.take(i as int),
        {
            rects.push(self.rects[i]);
        }
        Body { rects }
    }
}

impl Default for Body {
    fn default() -> (r: Self)
        ensures
            r@ == Seq::<Bounds>::empty(),
    {
        Body { rects: Vec::new() }
    }
}

impl Body {
    pub fn new(displays: &[DisplayRect], offset: Vec2I) -> (r: Self)
        ensures
            r@ == shape_of(displays@, offset),
    {
        let mut rects: Vec<Bounds> = Vec::new();
        for i in 0..displays.len()
            invariant
                rects@ == shape_of(displays@.take(i as int), offset),
        {
            assert(displays@.take(i + 1).drop_last() =~= displays@.take(i as int));
            if let Some(bounds) = Bounds::of(&displays[i], offset) {
                rects.push(bounds);
            }
        }
        assert(displays@.take(displays@.len() as int) =~= displays@);
        Body { rects }
    }

    pub fn is_empty(&self) -> (r: bool)
        ensures
            r == (self@.len() == 0),
    {
        self.rects.len() == 0
    }

    pub fn shifted(&self, delta: Vec2I) -> (r: Self)
        requires
            bounded(self@, i64::MAX - 0x8000_0000),
        ensures
            r@ == moved(self@, delta.x as int, delta.y as int),
    {
        let mut rects: Vec<Bounds> = Vec::new();
        for i in 0..self.rects.len()
            invariant
                bounded(self@, i64::MAX - 0x8000_0000),
                rects@ == moved(self@, delta.x as int, delta.y as int).take(i as int),
        {
            assert(self@[i as int].bounded(i64::MAX - 0x8000_0000));
            rects.push(self.rects[i].shifted(delta.x as i64, delta.y as i64));
        }
        Body { rects }
    }

    /// Smallest rectangle around the body; none when it has no displays.
    pub fn bounds(&self) -> (r: Option<Bounds>)
        ensures
            r == hull_of(self@),
    {
        let mut hull: Option<Bounds> = None;
        for i in 0..self.rects.len()
            invariant
                hull == hull_of(self@.take(i as int)),
        {
            assert(self@.take(i + 1).drop_last() =~= self@.take(i as int));
            hull = match hull {
                Some(current) => Some(current.union(self.rects[i])),
                None => Some(self.rects[i]),
            };
        }
        assert(self@.take(self@.len() as int) =~= self@);
        hull
    }

    pub fn overlaps(&self, other: &Body) -> (r: bool)
        ensures
            r == overlapping(self@, other@),
    {
        for i in 0..self.rects.len()
            invariant
                forall|a: int, b: int|
                    0 <= a < i && 0 <= b < other@.len() ==> !(#[trigger] self@[a]).crosses(
                        #[trigger] other@[b],
                    ),
        {
            for j in 0..other.rects.len()
                invariant
                    i < self@.len(),
                    forall|a: int, b: int|
                        0 <= a < i && 0 <= b < other@.len() ==> !(#[trigger] self@[a]).crosses(
                            #[trigger] other@[b],
                        ),
                    forall|b: int|
                        0 <= b < j ==> !self@[i as int].crosses(#[trigger] other@[b]),
            {
                if self.rects[i].intersects(other.rects[j]) {
                    assert(self@[i as int].crosses(other@[j as int]));
                    return true;
                }
            }
        }
        false
    }

    pub fn area(&self) -> (r: Area)
        requires
            bounded(self@, REACH as int),
        ensures
            r.wf(),
            r.value() == extent_of(self@),
            -0x100_0000_0000_0000_0000_0000_0000_0000_0000 <= r.value()
                <= 0x100_0000_0000_0000_0000_0000_0000_0000_0000,
    {
        let mut total = Area::zero();
        for i in 0..self.rects.len()
            invariant
                bounded(self@, REACH as int),
                total.wf(),
                total.value() == extent_of(self@.take(i as int)),
                -(i * 0x100_0000_0000_0000_0000) <= total.value() <= i * 0x100_0000_0000_0000_0000,
        {
            let rect = self.rects[i];
            assert(self@[i as int].bounded(REACH as int));
            let area: i128 = rect.area();
            assert(-0x100_0000_0000_0000_0000 <= area <= 0x100_0000_0000_0000_0000) by {
                lemma_extent_bounded(rect);
            }
            assert(self@.take(i + 1).drop_last() =~= self@.take(i as int));
            total = total.with(area);
        }
        assert(self@.take(self@.len() as int) =~= self@);
        total
    }
}

/// A rectangle within reach has an area that many of can be added up.
pub(crate) proof fn lemma_extent_bounded(rect: Bounds)
    requires
        rect.bounded(REACH as int),
    ensures
        -0x100_0000_0000_0000_0000 <= rect.extent() <= 0x100_0000_0000_0000_0000,
{
    let w = rect.right - rect.left;
    let h = rect.bottom - rect.top;
    assert(-0x100_0000_0000_0000_0000 <= w * h <= 0x100_0000_0000_0000_0000) by (nonlinear_arith)
        requires
            -0x10_0000_0000 <= w <= 0x10_0000_0000,
            -0x10_0000_0000 <= h <= 0x10_0000_0000,
    ;
}

/// A shape built from displays lies well within reach and is solid.
pub proof fn lemma_shape_of(displays: Seq<DisplayRect>, offset: Vec2I)
    ensures
        bounded(shape_of(displays, offset), 0x2_0000_0000),
        solid(shape_of(displays, offset)),
        shape_of(displays, offset).len() <= displays.len(),
    decreases displays.len(),
{
    if displays.len() > 0 {
        lemma_shape_of(displays.drop_last(), offset);
    }
}

} // verus!
