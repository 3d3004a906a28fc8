//! Plain geometric values shared by the canvas, the edge links and the engine.

use vstd::prelude::*;

verus! {

/// One of the four sides of a rectangle.
#[derive(Clone, Copy, Debug, PartialEq, Eq, Structural)]
pub enum EdgeSide {
    Left,
    Right,
    Top,
    Bottom,
}

impl EdgeSide {
    /// Left and right sides run vertically: a seam on them extends along `y`.
    pub open spec fn is_vertical(self) -> bool {
        self is Left || self is Right
    }

    pub open spec fn facing(self) -> EdgeSide {
        match self {
            EdgeSide::Left => EdgeSide::Right,
            EdgeSide::Right => EdgeSide::Left,
            EdgeSide::Top => EdgeSide::Bottom,
            EdgeSide::Bottom => EdgeSide::Top,
        }
    }

    pub fn vertical(self) -> (r: bool)
        ensures
            r == self.is_vertical(),
    {
        match self {
            EdgeSide::Left | EdgeSide::Right => true,
            EdgeSide::Top | EdgeSide::Bottom => false,
        }
    }
}

/// A whole-pixel translation or position.
#[derive(Clone, Copy, Debug, PartialEq, Eq, Structural)]
pub struct Vec2I {
    pub x: i32,
    pub y: i32,
}

impl Default for Vec2I {
    fn default() -> (r: Self)
        ensures
            r == (Vec2I { x: 0, y: 0 }),
    {
        Vec2I { x: 0, y: 0 }
    }
}

/// Units of a [`Vec2`] in one pixel.
pub const PIXEL: i64 = 0x1_0000;

/// Farthest coordinate of a [`Vec2`] that arithmetic is carried out for.
pub const POINT_REACH: i64 = 0x1000_0000_0000_0000;

/// A point with a fraction of a pixel, in units of [`PIXEL`].
#[derive(Clone, Copy, Debug, PartialEq, Eq, Structural)]
pub struct Vec2 {
    pub x: i64,
    pub y: i64,
}

impl Vec2 {
    pub open spec fn bounded(self) -> bool {
        -POINT_REACH <= self.x <= POINT_REACH && -POINT_REACH <= self.y <= POINT_REACH
    }
}

/// A display of one machine, in that machine's own pixel coordinates. `scale` is the
/// display's scale factor in thousandths.
#[derive(Debug)]
pub struct DisplayRect {
    pub id: String,
    pub x: i32,
    pub y: i32,
    pub w: u32,
    pub h: u32,
    pub scale: u32,
}

impl Clone for DisplayRect {
    fn clone(&self) -> (r: Self)
        ensures
            r == *self,
    {
        DisplayRect {
            id: self.id.clone(),
            x: self.x,
            y: self.y,
            w: self.w,
            h: self.h,
            scale: self.scale,
        }
    }
}

impl DisplayRect {
    /// A display without an area takes no part in the geometry.
    pub open spec fn has_area(&self) -> bool {
        self.w > 0 && self.h > 0
    }
}

} // verus!
