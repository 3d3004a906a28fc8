//! Sums of areas, wide enough for any number of rectangles.

use vstd::prelude::*;

verus! {

/// A sum of areas, in two digits.
#[derive(Clone, Copy, Debug, PartialEq, Eq, Structural)]
pub struct Area {
    pub high: i128,
    pub low: u128,
}

impl Area {
    /// The lower digit does not reach into the higher one.
    pub open spec fn wf(self) -> bool {
        self.low < 0x1_0000_0000_0000_0000_0000_0000
    }

    pub open spec fn value(self) -> int {
        self.high * 0x1_0000_0000_0000_0000_0000_0000 + self.low
    }

    /// Nothing.
    pub fn zero() -> (r: Area)
        ensures
            r.wf(),
            r.value() == 0,
    {
        Area { high: 0, low: 0 }
    }

    /// The sum with one rectangle more.
    pub fn with(self, area: i128) -> (r: Area)
        requires
            self.wf(),
            -0x1_0000_0000_0000_0000_0000_0000 < area < 0x1_0000_0000_0000_0000_0000_0000,
            i128::MIN < self.high < i128::MAX,
        ensures
            r.wf(),
            r.value() == self.value() + area,
    {
        let low: i128 = self.low as i128 + area;
        if low < 0 {
            Area {
                high: self.high - 1,
                low: (low + 0x1_0000_0000_0000_0000_0000_0000) as u128,
            }
        } else if low >= 0x1_0000_0000_0000_0000_0000_0000 {
            Area {
                high: self.high + 1,
                low: (low - 0x1_0000_0000_0000_0000_0000_0000) as u128,
            }
        } else {
            Area { high: self.high, low: low as u128 }
        }
    }

    /// Two sums together.
    pub fn plus(self, other: Area) -> (r: Area)
        requires
            self.wf(),
            other.wf(),
            i128::MIN <= self.high + other.high < i128::MAX,
        ensures
            r.wf(),
            r.value() == self.value() + other.value(),
    {
        let low: u128 = self.low + other.low;
        let high: i128 = self.high + other.high;
        if low >= 0x1_0000_0000_0000_0000_0000_0000 {
            Area { high: high + 1, low: low - 0x1_0000_0000_0000_0000_0000_0000 }
        } else {
            Area { high, low }
        }
    }

    /// Whether it is more than another.
    pub fn exceeds(self, other: Area) -> (r: bool)
        requires
            self.wf(),
            other.wf(),
        ensures
            r == (self.value() > other.value()),
    {
        self.high > other.high || (self.high == other.high && self.low > other.low)
    }
}

} // verus!
