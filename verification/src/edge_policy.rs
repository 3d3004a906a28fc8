//! What a pointer does at an edge until it crosses.

use crate::geometry::EdgeSide;
use crate::input_settings::CrossingPolicy;
use vstd::prelude::*;

verus! {

/// How far a gesture got: `done` of `whole`.
#[derive(Clone, Copy, Debug, PartialEq, Eq, Structural)]
pub struct Progress {
    pub done: i128,
    pub whole: i128,
}

#[derive(Clone, Copy, Debug, PartialEq, Eq, Structural)]
pub enum Outcome {
    Waiting(Progress),
    Cross,
    Cancel,
}

/// Times are in microseconds; distances in units of [`crate::input_settings::POINT`].
#[derive(Clone, Copy, Debug, PartialEq, Eq, Structural)]
pub struct Gesture {
    pub policy: CrossingPolicy,
    pub side: EdgeSide,
    pub started: u64,
    pub updated: u64,
    /// Outward distance that has not decayed, a million times.
    pub distance: i128,
}

/// Distances, a million times, end here.
pub const FAR: i128 = 0x1_0000_0000_0000_0000_0000_0000;

/// Distance decays by the second, time runs in microseconds.
pub const SECOND: i128 = 1_000_000;

/// Motion that leads out of a side.
pub open spec fn outward_of(side: EdgeSide, dx: int, dy: int) -> int {
    match side {
        EdgeSide::Left => -dx,
        EdgeSide::Right => dx,
        EdgeSide::Top => -dy,
        EdgeSide::Bottom => dy,
    }
}

/// A distance after some motion and the decay meanwhile.
pub open spec fn remaining(distance: int, outward: int, elapsed: int, decay: int) -> int {
    let d = distance + outward * SECOND - elapsed * decay;
    if d < 0 {
        0
    } else if d > FAR {
        FAR as int
    } else {
        d
    }
}

/// What some motion leads to.
pub open spec fn outcome_of(before: Gesture, dx: int, dy: int, now: u64) -> Outcome {
    let outward = outward_of(before.side, dx, dy);
    if now < before.updated || outward < 0 {
        Outcome::Cancel
    } else {
        match before.policy {
            CrossingPolicy::Immediate => Outcome::Cross,
            CrossingPolicy::Dwell { milliseconds } => {
                let done = now - before.started;
                let whole = milliseconds * 1000;
                if done > 0 && done >= whole {
                    Outcome::Cross
                } else {
                    Outcome::Waiting(Progress { done: done as i128, whole: whole as i128 })
                }
            },
            CrossingPolicy::Resistance { points, decay_per_second } => {
                let left = remaining(
                    before.distance as int,
                    outward,
                    now - before.updated,
                    decay_per_second as int,
                );
                let whole = points * SECOND;
                if left >= whole {
                    Outcome::Cross
                } else {
                    Outcome::Waiting(Progress { done: left as i128, whole: whole as i128 })
                }
            },
        }
    }
}

/// The gesture after some motion.
pub open spec fn after_motion(before: Gesture, dx: int, dy: int, now: u64) -> Gesture {
    let outward = outward_of(before.side, dx, dy);
    if now < before.updated || outward < 0 {
        before
    } else {
        Gesture {
            updated: now,
            distance: match before.policy {
                CrossingPolicy::Resistance { decay_per_second, .. } => remaining(
                    before.distance as int,
                    outward,
                    now - before.updated,
                    decay_per_second as int,
                ) as i128,
                _ => before.distance,
            },
            ..before
        }
    }
}

impl Gesture {
    pub open spec fn wf(self) -> bool {
        &&& self.started <= self.updated
        &&& 0 <= self.distance <= FAR
    }

    pub fn new(policy: CrossingPolicy, side: EdgeSide, now: u64) -> (r: Self)
        ensures
            r == (Gesture { policy, side, started: now, updated: now, distance: 0 }),
            r.wf(),
    {
        Gesture { policy, side, started: now, updated: now, distance: 0 }
    }

    pub fn outward(side: EdgeSide, dx: i64, dy: i64) -> (r: i128)
        ensures
            r == outward_of(side, dx as int, dy as int),
    {
        match side {
            EdgeSide::Left => -(dx as i128),
            EdgeSide::Right => dx as i128,
            EdgeSide::Top => -(dy as i128),
            EdgeSide::Bottom => dy as i128,
        }
    }

    /// Takes some motion: outward motion leads on, inward motion cancels, and motion along
    /// the edge counts for nothing. Motion that is no number cancels.
    pub fn update(&mut self, dx: Option<i64>, dy: Option<i64>, now: u64) -> (r: Outcome)
        requires
            old(self).wf(),
        ensures
            final(self).wf(),
            match (dx, dy) {
                (Some(x), Some(y)) => {
                    &&& *final(self) == after_motion(*old(self), x as int, y as int, now)
                    &&& r == outcome_of(*old(self), x as int, y as int, now)
                },
                _ => *final(self) == *old(self) && r == Outcome::Cancel,
            },
    {
        match (dx, dy) {
            (Some(x), Some(y)) => self.press(x, y, now),
            _ => Outcome::Cancel,
        }
    }

    fn press(&mut self, dx: i64, dy: i64, now: u64) -> (r: Outcome)
        requires
            old(self).wf(),
        ensures
            final(self).wf(),
            *final(self) == after_motion(*old(self), dx as int, dy as int, now),
            r == outcome_of(*old(self), dx as int, dy as int, now),
    {
        if now < self.updated {
            return Outcome::Cancel;
        }
        let outward: i128 = Gesture::outward(self.side, dx, dy);
        if outward < 0 {
            return Outcome::Cancel;
        }
        let elapsed: u64 = now - self.updated;
        self.updated = now;
        match self.policy {
            CrossingPolicy::Immediate => Outcome::Cross,
            CrossingPolicy::Dwell { milliseconds } => {
                let done: i128 = (now - self.started) as i128;
                let whole: i128 = milliseconds as i128 * 1000;
                if done > 0 && done >= whole {
                    Outcome::Cross
                } else {
                    Outcome::Waiting(Progress { done, whole })
                }
            },
            CrossingPolicy::Resistance { points, decay_per_second } => {
                let decay: i128 = decay_per_second as i128;
                let span: i128 = elapsed as i128;
                assert(i128::MIN < span * decay < i128::MAX) by (nonlinear_arith)
                    requires
                        0 <= span <= 0xffff_ffff_ffff_ffff,
                        -0x8000_0000_0000_0000 <= decay <= 0x7fff_ffff_ffff_ffff,
                ;
                let decayed: i128 = span * decay;
                let gained: i128 = self.distance + outward * SECOND;
                let left: i128 = if decayed <= -FAR {
                    FAR
                } else if decayed >= gained {
                    0
                } else if gained - decayed > FAR {
                    FAR
                } else {
                    gained - decayed
                };
                self.distance = left;
                let whole: i128 = points as i128 * SECOND;
                if left >= whole {
                    Outcome::Cross
                } else {
                    Outcome::Waiting(Progress { done: left, whole })
                }
            },
        }
    }
}

/// Motion along an edge never leads across it, however much there is of it.
pub proof fn motion_along_an_edge_counts_for_nothing(
    gesture: Gesture,
    along: int,
    out: int,
    now: u64,
)
    ensures
        ({
            let (dx, dy) = if gesture.side is Left || gesture.side is Right {
                (out, along)
            } else {
                (along, out)
            };
            let (sx, sy) = if gesture.side is Left || gesture.side is Right {
                (out, 0int)
            } else {
                (0int, out)
            };
            outcome_of(gesture, dx, dy, now) == outcome_of(gesture, sx, sy, now)
                && after_motion(gesture, dx, dy, now) == after_motion(gesture, sx, sy, now)
        }),
{
}

/// Motion away from the edge cancels, whatever was gained before.
pub proof fn retreat_cancels(gesture: Gesture, dx: int, dy: int, now: u64)
    requires
        outward_of(gesture.side, dx, dy) < 0,
    ensures
        outcome_of(gesture, dx, dy, now) == Outcome::Cancel,
{
}

/// The sampling rate does not matter: as long as the distance stays within its range, two
/// motions in a row lead where their sum leads.
pub proof fn the_sampling_rate_does_not_matter(
    gesture: Gesture,
    dx: (int, int),
    dy: (int, int),
    between: u64,
    now: u64,
)
    requires
        gesture.wf(),
        gesture.policy is Resistance,
        gesture.updated <= between <= now,
        outward_of(gesture.side, dx.0, dy.0) >= 0,
        outward_of(gesture.side, dx.1, dy.1) >= 0,
        0 <= gesture.distance + outward_of(gesture.side, dx.0, dy.0) * SECOND - (between
            - gesture.updated) * gesture.policy->decay_per_second <= FAR,
    ensures
        ({
            let first = after_motion(gesture, dx.0, dy.0, between);
            let twice = after_motion(first, dx.1, dy.1, now);
            let once = after_motion(gesture, dx.0 + dx.1, dy.0 + dy.1, now);
            twice == once && outcome_of(first, dx.1, dy.1, now) == outcome_of(
                gesture,
                dx.0 + dx.1,
                dy.0 + dy.1,
                now,
            )
        }),
{
    let decay = gesture.policy->decay_per_second as int;
    let a = between - gesture.updated;
    let b = now - between;
    assert((a + b) * decay == a * decay + b * decay) by (nonlinear_arith);
    let first = outward_of(gesture.side, dx.0, dy.0);
    let second = outward_of(gesture.side, dx.1, dy.1);
    assert((first + second) * SECOND == first * SECOND + second * SECOND) by (nonlinear_arith);
}

/// A gesture leads out of the side that it presses against: leftwards at the left side,
/// rightwards at the right, upwards at the top, downwards at the bottom. Whatever leads back
/// cancels it. Otherwise it crosses at once where crossing is immediate; where it takes time,
/// exactly when that many milliseconds have passed since it began; and where it takes a push,
/// exactly when what was pushed, less what has decayed since, comes to the distance asked for.
pub proof fn a_gesture_crosses_outward(gesture: Gesture, dx: int, dy: int, now: u64)
    requires
        gesture.wf(),
        now >= gesture.updated,
    ensures
        ({
            let out = match gesture.side {
                EdgeSide::Left => -dx,
                EdgeSide::Right => dx,
                EdgeSide::Top => -dy,
                EdgeSide::Bottom => dy,
            };
            let outcome = outcome_of(gesture, dx, dy, now);
            &&& out < 0 ==> outcome is Cancel
            &&& out >= 0 ==> !(outcome is Cancel)
            &&& out >= 0 && gesture.policy is Immediate ==> outcome is Cross
            &&& gesture.policy matches CrossingPolicy::Dwell { milliseconds } ==> {
                &&& out >= 0 && now - gesture.started >= milliseconds * 1000 && now
                    > gesture.started ==> outcome is Cross
                &&& now - gesture.started < milliseconds * 1000 ==> !(outcome is Cross)
            }
            &&& gesture.policy matches CrossingPolicy::Resistance { points, decay_per_second } ==> {
                let pushed = gesture.distance + out * 1_000_000 - (now - gesture.updated)
                    * decay_per_second;
                &&& out >= 0 && pushed >= points * 1_000_000 && pushed >= 0 && pushed
                    <= FAR ==> outcome is Cross
                &&& points > 0 && pushed < points * 1_000_000 ==> !(outcome is Cross)
            }
        }),
{
}

/// A gesture that waits is not forgotten: what was pushed so far counts for what comes next,
/// and it goes on from the same beginning.
pub proof fn a_gesture_goes_on_from_where_it_was(gesture: Gesture, dx: int, dy: int, now: u64)
    requires
        gesture.wf(),
        outcome_of(gesture, dx, dy, now) is Waiting,
    ensures
        ({
            let after = after_motion(gesture, dx, dy, now);
            &&& after.started == gesture.started
            &&& after.side == gesture.side
            &&& after.policy == gesture.policy
            &&& after.updated == now
            &&& gesture.policy is Resistance && now == gesture.updated ==> after.distance
                >= gesture.distance
        }),
{
}

} // verus!
