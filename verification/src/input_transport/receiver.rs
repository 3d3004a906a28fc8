//! The receiving side: totals become motion, and edges come out in the order of their
//! numbers, each once.

use super::state::{
    edge_error, position_error, validate_position, validate_transition_event, Delivery, Events,
    InputError, Position, Totals, Transition, Update, MAX_TRANSITIONS,
};
use crate::input::{number_of, raw_button_number, InputEvent, InputMode, RawEvent};
use std::collections::{BTreeMap, VecDeque};
use vstd::prelude::*;

verus! {

broadcast use {
    vstd::std_specs::btree::group_btree_axioms,
    vstd::laws_cmp::group_laws_cmp,
};

/// An event to be injected.
#[derive(Clone, Copy, Debug, PartialEq, Eq, Structural)]
pub enum Emitted {
    Raw(RawEvent),
    Desktop(InputEvent),
}

/// An event to be injected, with the position it belongs to.
#[derive(Clone, Copy, Debug, PartialEq, Eq, Structural)]
pub struct Stamped {
    pub serial: u64,
    pub captured_us: u64,
    pub event: Emitted,
}

/// Events that belong to one position.
pub ghost struct Batch {
    pub serial: u64,
    pub captured_us: u64,
    pub events: Seq<Emitted>,
}

/// Neighbouring events of one serial form a batch, dated by its first event.
pub open spec fn batches(events: Seq<Stamped>) -> Seq<Batch>
    decreases events.len(),
{
    if events.len() == 0 {
        Seq::empty()
    } else {
        let before = batches(events.drop_last());
        let last = events.last();
        if before.len() > 0 && before.last().serial == last.serial {
            before.drop_last().push(
                Batch { events: before.last().events.push(last.event), ..before.last() },
            )
        } else {
            before.push(
                Batch {
                    serial: last.serial,
                    captured_us: last.captured_us,
                    events: seq![last.event],
                },
            )
        }
    }
}

pub open spec fn raw_emitted(events: Seq<RawEvent>) -> Seq<Emitted> {
    Seq::new(events.len(), |i: int| Emitted::Raw(events[i]))
}

pub open spec fn desktop_emitted(events: Seq<InputEvent>) -> Seq<Emitted> {
    Seq::new(events.len(), |i: int| Emitted::Desktop(events[i]))
}

/// A delivery holds a batch, in the form of its input mode.
pub open spec fn delivers(delivery: Delivery, batch: Batch, mode: InputMode) -> bool {
    &&& delivery.captured_us == batch.captured_us
    &&& match mode {
        InputMode::Raw => delivery.events matches Events::Raw(v) && raw_emitted(v@) == batch.events,
        InputMode::Desktop => delivery.events matches Events::Desktop(v) && desktop_emitted(v@)
            == batch.events,
    }
}

pub open spec fn delivered(deliveries: Seq<Delivery>, all: Seq<Batch>, mode: InputMode) -> bool {
    &&& deliveries.len() == all.len()
    &&& forall|i: int|
        0 <= i < all.len() ==> delivers(#[trigger] deliveries[i], all[i], mode)
}

/// The part of a delta that fits one event.
pub open spec fn piece(value: int) -> int {
    if value < i32::MIN {
        i32::MIN as int
    } else if value > i32::MAX {
        i32::MAX as int
    } else {
        value
    }
}

pub open spec fn size_of(value: int) -> nat {
    if value < 0 {
        (-value) as nat
    } else {
        value as nat
    }
}

/// A delta in two directions as events that each fit.
pub open spec fn pieces(x: int, y: int) -> Seq<(i32, i32)>
    decreases size_of(x) + size_of(y),
{
    if x == 0 && y == 0 {
        Seq::empty()
    } else {
        seq![(piece(x) as i32, piece(y) as i32)] + pieces(x - piece(x), y - piece(y))
    }
}

/// Pieces that one delta takes.
pub open spec fn count_of(value: int) -> int {
    let divisor = if value < 0 {
        0x8000_0000
    } else {
        0x7fff_ffff
    };
    (size_of(value) as int + divisor - 1) / divisor
}

pub open spec fn larger_of(a: int, b: int) -> int {
    if a < b {
        b
    } else {
        a
    }
}

pub proof fn lemma_count(value: int)
    ensures
        count_of(value) >= 0,
        count_of(value) == 0 <==> value == 0,
        value != 0 ==> count_of(value - piece(value)) == count_of(value) - 1,
        size_of(value - piece(value)) <= size_of(value),
        value != 0 ==> size_of(value - piece(value)) < size_of(value),
{
    let rest = value - piece(value);
    if value < i32::MIN {
        let d = 0x8000_0000int;
        assert((size_of(value) + d - 1) / d == (size_of(value) - d + d - 1) / d + 1)
            by (nonlinear_arith)
            requires
                d == 0x8000_0000,
        ;
    } else if value > i32::MAX {
        let d = 0x7fff_ffffint;
        assert((size_of(value) + d - 1) / d == (size_of(value) - d + d - 1) / d + 1)
            by (nonlinear_arith)
            requires
                d == 0x7fff_ffff,
        ;
    } else {
        assert(rest == 0);
    }
}

/// A delta is delivered in as many pieces as its larger side needs, and they add up to it.
pub proof fn pieces_add_up(x: int, y: int)
    ensures
        pieces(x, y).len() == larger_of(count_of(x), count_of(y)),
        sum_x(pieces(x, y)) == x,
        sum_y(pieces(x, y)) == y,
    decreases size_of(x) + size_of(y),
{
    lemma_count(x);
    lemma_count(y);
    if x != 0 || y != 0 {
        let rest = pieces(x - piece(x), y - piece(y));
        pieces_add_up(x - piece(x), y - piece(y));
        lemma_sums_first((piece(x) as i32, piece(y) as i32), rest);
    }
}

pub open spec fn sum_x(parts: Seq<(i32, i32)>) -> int
    decreases parts.len(),
{
    if parts.len() == 0 {
        0
    } else {
        sum_x(parts.drop_last()) + parts.last().0
    }
}

pub open spec fn sum_y(parts: Seq<(i32, i32)>) -> int
    decreases parts.len(),
{
    if parts.len() == 0 {
        0
    } else {
        sum_y(parts.drop_last()) + parts.last().1
    }
}

proof fn lemma_sums_first(first: (i32, i32), rest: Seq<(i32, i32)>)
    ensures
        sum_x(seq![first] + rest) == first.0 + sum_x(rest),
        sum_y(seq![first] + rest) == first.1 + sum_y(rest),
    decreases rest.len(),
{
    reveal_with_fuel(sum_x, 2);
    reveal_with_fuel(sum_y, 2);
    let all = seq![first] + rest;
    if rest.len() == 0 {
        assert(all.drop_last() =~= Seq::empty());
        assert(all.last() == first);
    } else {
        assert(all.drop_last() =~= seq![first] + rest.drop_last());
        assert(all.last() == rest.last());
        lemma_sums_first(first, rest.drop_last());
    }
}

pub fn piece_count(value: i128) -> (r: u128)
    requires
        -0x1_0000_0000_0000_0000 < value < 0x1_0000_0000_0000_0000,
    ensures
        r == count_of(value as int),
        r <= 0x4_0000_0000,
{
    let divisor: u128 = if value < 0 {
        0x8000_0000
    } else {
        0x7fff_ffff
    };
    let size: u128 = if value < 0 {
        (-value) as u128
    } else {
        value as u128
    };
    let r: u128 = (size + divisor - 1) / divisor;
    assert(r <= 0x4_0000_0000) by (nonlinear_arith)
        requires
            r == (size + divisor - 1) / (divisor as int),
            divisor >= 0x7fff_ffff,
            size < 0x1_0000_0000_0000_0000,
            0x1_0000_0000_0000_0000 + divisor <= 0x4_0000_0000 * divisor,
    ;
    r
}

fn take_i32(value: &mut i128) -> (r: i32)
    ensures
        r == piece(*old(value) as int),
        *final(value) == *old(value) - piece(*old(value) as int),
{
    let piece: i128 = if *value < -0x8000_0000 {
        -0x8000_0000
    } else if *value > 0x7fff_ffff {
        0x7fff_ffff
    } else {
        *value
    };
    *value = *value - piece;
    piece as i32
}

/// A delta as pairs that fit an event each.
pub fn split(x: i128, y: i128) -> (r: Vec<(i32, i32)>)
    ensures
        r@ == pieces(x as int, y as int),
{
    let mut out: Vec<(i32, i32)> = Vec::new();
    let mut x_left: i128 = x;
    let mut y_left: i128 = y;
    while x_left != 0 || y_left != 0
        invariant
            out@ + pieces(x_left as int, y_left as int) == pieces(x as int, y as int),
        decreases size_of(x_left as int) + size_of(y_left as int),
    {
        let ghost before = out@;
        let ghost rest = pieces(x_left as int, y_left as int);
        proof {
            lemma_count(x_left as int);
            lemma_count(y_left as int);
        }
        let px: i32 = take_i32(&mut x_left);
        let py: i32 = take_i32(&mut y_left);
        out.push((px, py));
        assert(rest == seq![(px, py)] + pieces(x_left as int, y_left as int));
        assert(out@ + pieces(x_left as int, y_left as int) =~= before + rest);
    }
    assert(pieces(0, 0) =~= Seq::empty());
    assert(out@ + pieces(0, 0) =~= out@);
    out
}

pub open spec fn raw_motion(parts: Seq<(i32, i32)>) -> Seq<Emitted> {
    Seq::new(
        parts.len(),
        |i: int| Emitted::Raw(RawEvent::Motion { x: parts[i].0, y: parts[i].1 }),
    )
}

pub open spec fn raw_wheel(parts: Seq<(i32, i32)>) -> Seq<Emitted> {
    Seq::new(
        parts.len(),
        |i: int| Emitted::Raw(RawEvent::Wheel { x120: parts[i].0, y120: parts[i].1 }),
    )
}

pub open spec fn desktop_wheel(parts: Seq<(i32, i32)>) -> Seq<Emitted> {
    Seq::new(
        parts.len(),
        |i: int| Emitted::Desktop(InputEvent::Scroll120 { dx: parts[i].0, dy: parts[i].1 }),
    )
}

pub open spec fn desktop_motion(dx: int, dy: int) -> Seq<Emitted> {
    if dx == 0 && dy == 0 {
        Seq::empty()
    } else {
        seq![Emitted::Desktop(InputEvent::Motion { dx: dx as i64, dy: dy as i64 })]
    }
}

pub open spec fn desktop_scroll(dx: int, dy: int) -> Seq<Emitted> {
    if dx == 0 && dy == 0 {
        Seq::empty()
    } else {
        seq![Emitted::Desktop(InputEvent::ScrollPixels { dx: dx as i64, dy: dy as i64 })]
    }
}

pub open spec fn in_range(value: int) -> bool {
    i64::MIN <= value <= i64::MAX
}

/// The events that lead from one total to another.
pub open spec fn delta(from: Totals, to: Totals) -> Result<Seq<Emitted>, InputError> {
    match (from, to) {
        (
            Totals::Raw { x, y, wheel_x, wheel_y },
            Totals::Raw { x: tx, y: ty, wheel_x: twx, wheel_y: twy },
        ) => {
            let motion = pieces(tx - x, ty - y);
            let wheel = pieces(twx - wheel_x, twy - wheel_y);
            if motion.len() + wheel.len() > MAX_TRANSITIONS {
                Err(InputError::RawDeltaLimit)
            } else {
                Ok(raw_motion(motion) + raw_wheel(wheel))
            }
        },
        (
            Totals::Desktop { x, y, scroll_x, scroll_y, wheel_x, wheel_y },
            Totals::Desktop {
                x: tx,
                y: ty,
                scroll_x: tsx,
                scroll_y: tsy,
                wheel_x: twx,
                wheel_y: twy,
            },
        ) => {
            let wheel = pieces(twx - wheel_x, twy - wheel_y);
            if !(in_range(tx - x) && in_range(ty - y) && in_range(tsx - scroll_x) && in_range(
                tsy - scroll_y,
            )) {
                Err(InputError::DeltaOverflow)
            } else if wheel.len() > MAX_TRANSITIONS {
                Err(InputError::WheelDeltaLimit)
            } else {
                Ok(
                    desktop_motion(tx - x, ty - y) + desktop_scroll(tsx - scroll_x, tsy - scroll_y)
                        + desktop_wheel(wheel),
                )
            }
        },
        _ => Err(InputError::ReceiverTotals),
    }
}

/// Events that all belong to one position.
pub open spec fn stamped(events: Seq<Emitted>, position: Position) -> Seq<Stamped> {
    Seq::new(
        events.len(),
        |i: int|
            Stamped {
                serial: position.serial,
                captured_us: position.captured_us,
                event: events[i],
            },
    )
}

/// An edge in the form of its input mode.
pub open spec fn emitted_edge(mode: InputMode, event: InputEvent) -> Emitted {
    match mode {
        InputMode::Raw => match event {
            InputEvent::Key { code, pressed } => Emitted::Raw(
                RawEvent::Key { code: code as u16, pressed },
            ),
            InputEvent::Button { button, pressed } => Emitted::Raw(
                RawEvent::Button { number: number_of(button)->0, pressed },
            ),
            _ => Emitted::Desktop(event),
        },
        InputMode::Desktop => Emitted::Desktop(event),
    }
}

fn edge_event(mode: InputMode, event: InputEvent) -> (r: Emitted)
    requires
        edge_error(mode, event) is None,
    ensures
        r == emitted_edge(mode, event),
{
    match mode {
        InputMode::Raw => match event {
            InputEvent::Key { code, pressed } => Emitted::Raw(
                RawEvent::Key { code: code as u16, pressed },
            ),
            InputEvent::Button { button, pressed } => match raw_button_number(button) {
                Some(number) => Emitted::Raw(RawEvent::Button { number, pressed }),
                None => Emitted::Desktop(event),
            },
            _ => Emitted::Desktop(event),
        },
        InputMode::Desktop => Emitted::Desktop(event),
    }
}

fn push_stamped(out: &mut Vec<Stamped>, position: &Position, event: Emitted)
    ensures
        final(out)@ == old(out)@.push(
            Stamped { serial: position.serial, captured_us: position.captured_us, event },
        ),
{
    out.push(Stamped { serial: position.serial, captured_us: position.captured_us, event });
}

fn push_raw_motion(out: &mut Vec<Stamped>, position: &Position, x: i128, y: i128)
    ensures
        final(out)@ == old(out)@ + stamped(raw_motion(pieces(x as int, y as int)), *position),
{
    let parts = split(x, y);
    let ghost before = out@;
    let ghost all = stamped(raw_motion(parts@), *position);
    for i in 0..parts.len()
        invariant
            all == stamped(raw_motion(parts@), *position),
            out@ =~= before + all.take(i as int),
    {
        let part = parts[i];
        push_stamped(out, position, Emitted::Raw(RawEvent::Motion { x: part.0, y: part.1 }));
    }
    assert(all.take(all.len() as int) =~= all);
}

fn push_raw_wheel(out: &mut Vec<Stamped>, position: &Position, x: i128, y: i128)
    ensures
        final(out)@ == old(out)@ + stamped(raw_wheel(pieces(x as int, y as int)), *position),
{
    let parts = split(x, y);
    let ghost before = out@;
    let ghost all = stamped(raw_wheel(parts@), *position);
    for i in 0..parts.len()
        invariant
            all == stamped(raw_wheel(parts@), *position),
            out@ =~= before + all.take(i as int),
    {
        let part = parts[i];
        push_stamped(out, position, Emitted::Raw(RawEvent::Wheel { x120: part.0, y120: part.1 }));
    }
    assert(all.take(all.len() as int) =~= all);
}

fn push_desktop_wheel(out: &mut Vec<Stamped>, position: &Position, x: i128, y: i128)
    ensures
        final(out)@ == old(out)@ + stamped(desktop_wheel(pieces(x as int, y as int)), *position),
{
    let parts = split(x, y);
    let ghost before = out@;
    let ghost all = stamped(desktop_wheel(parts@), *position);
    for i in 0..parts.len()
        invariant
            all == stamped(desktop_wheel(parts@), *position),
            out@ =~= before + all.take(i as int),
    {
        let part = parts[i];
        push_stamped(
            out,
            position,
            Emitted::Desktop(InputEvent::Scroll120 { dx: part.0, dy: part.1 }),
        );
    }
    assert(all.take(all.len() as int) =~= all);
}

proof fn lemma_stamped_concat(one: Seq<Emitted>, two: Seq<Emitted>, position: Position)
    ensures
        stamped(one + two, position) == stamped(one, position) + stamped(two, position),
{
    assert(stamped(one + two, position) =~= stamped(one, position) + stamped(two, position));
}

fn push_raw_delta(
    out: &mut Vec<Stamped>,
    position: &Position,
    motion_x: i128,
    motion_y: i128,
    wheel_x: i128,
    wheel_y: i128,
) -> (r: Result<(), InputError>)
    requires
        -0x1_0000_0000_0000_0000 < motion_x < 0x1_0000_0000_0000_0000,
        -0x1_0000_0000_0000_0000 < motion_y < 0x1_0000_0000_0000_0000,
        -0x1_0000_0000_0000_0000 < wheel_x < 0x1_0000_0000_0000_0000,
        -0x1_0000_0000_0000_0000 < wheel_y < 0x1_0000_0000_0000_0000,
    ensures
        ({
            let motion = pieces(motion_x as int, motion_y as int);
            let wheel = pieces(wheel_x as int, wheel_y as int);
            match r {
                Ok(_) => motion.len() + wheel.len() <= MAX_TRANSITIONS && final(out)@ == old(out)@
                    + stamped(raw_motion(motion) + raw_wheel(wheel), *position),
                Err(e) => motion.len() + wheel.len() > MAX_TRANSITIONS && e
                    == InputError::RawDeltaLimit && final(out)@ == old(out)@,
            }
        }),
{
    let mx: u128 = piece_count(motion_x);
    let my: u128 = piece_count(motion_y);
    let wx: u128 = piece_count(wheel_x);
    let wy: u128 = piece_count(wheel_y);
    let motion_count: u128 = if mx < my {
        my
    } else {
        mx
    };
    let wheel_count: u128 = if wx < wy {
        wy
    } else {
        wx
    };
    proof {
        pieces_add_up(motion_x as int, motion_y as int);
        pieces_add_up(wheel_x as int, wheel_y as int);
    }
    if motion_count + wheel_count > MAX_TRANSITIONS as u128 {
        return Err(InputError::RawDeltaLimit);
    }
    let ghost before = out@;
    push_raw_motion(out, position, motion_x, motion_y);
    push_raw_wheel(out, position, wheel_x, wheel_y);
    proof {
        let motion = raw_motion(pieces(motion_x as int, motion_y as int));
        let wheel = raw_wheel(pieces(wheel_x as int, wheel_y as int));
        lemma_stamped_concat(motion, wheel, *position);
        assert(out@ =~= before + stamped(motion + wheel, *position));
    }
    Ok(())
}

/// Adds the events that lead from one total to another; adds nothing where it fails.
fn push_delta(out: &mut Vec<Stamped>, from: Totals, position: &Position) -> (r: Result<
    (),
    InputError,
>)
    ensures
        match r {
            Ok(_) => delta(from, position.totals) is Ok && final(out)@ == old(out)@ + stamped(
                delta(from, position.totals)->Ok_0,
                *position,
            ),
            Err(e) => delta(from, position.totals) == Err::<Seq<Emitted>, InputError>(e),
        },
{
    match (from, position.totals) {
        (
            Totals::Raw { x, y, wheel_x, wheel_y },
            Totals::Raw { x: tx, y: ty, wheel_x: twx, wheel_y: twy },
        ) => push_raw_delta(
            out,
            position,
            tx as i128 - x as i128,
            ty as i128 - y as i128,
            twx as i128 - wheel_x as i128,
            twy as i128 - wheel_y as i128,
        ),
        (
            Totals::Desktop { x, y, scroll_x, scroll_y, wheel_x, wheel_y },
            Totals::Desktop {
                x: tx,
                y: ty,
                scroll_x: tsx,
                scroll_y: tsy,
                wheel_x: twx,
                wheel_y: twy,
            },
        ) => {
            let ghost before = out@;
            let (Some(dx), Some(dy), Some(sx), Some(sy)) = (
                tx.checked_sub(x),
                ty.checked_sub(y),
                tsx.checked_sub(scroll_x),
                tsy.checked_sub(scroll_y),
            ) else {
                return Err(InputError::DeltaOverflow);
            };
            let wheel_dx: i128 = twx as i128 - wheel_x as i128;
            let wheel_dy: i128 = twy as i128 - wheel_y as i128;
            let cx: u128 = piece_count(wheel_dx);
            let cy: u128 = piece_count(wheel_dy);
            proof {
                pieces_add_up(wheel_dx as int, wheel_dy as int);
            }
            if cx > MAX_TRANSITIONS as u128 || cy > MAX_TRANSITIONS as u128 {
                return Err(InputError::WheelDeltaLimit);
            }
            if dx != 0 || dy != 0 {
                push_stamped(out, position, Emitted::Desktop(InputEvent::Motion { dx, dy }));
            }
            assert(out@ =~= before + stamped(desktop_motion(dx as int, dy as int), *position));
            if sx != 0 || sy != 0 {
                push_stamped(
                    out,
                    position,
                    Emitted::Desktop(InputEvent::ScrollPixels { dx: sx, dy: sy }),
                );
            }
            assert(out@ =~= before + stamped(desktop_motion(dx as int, dy as int), *position)
                + stamped(desktop_scroll(sx as int, sy as int), *position));
            push_desktop_wheel(out, position, wheel_dx, wheel_dy);
            proof {
                let motion = desktop_motion(dx as int, dy as int);
                let scroll = desktop_scroll(sx as int, sy as int);
                let wheel = desktop_wheel(pieces(wheel_dx as int, wheel_dy as int));
                lemma_stamped_concat(motion, scroll, *position);
                lemma_stamped_concat(motion + scroll, wheel, *position);
                assert(out@ =~= before + stamped(motion + scroll + wheel, *position));
            }
            Ok(())
        },
        _ => Err(InputError::ReceiverTotals),
    }
}

pub struct Receiver {
    mode: InputMode,
    next_transition: u64,
    buffered: BTreeMap<u64, Transition>,
    emitted: VecDeque<Transition>,
    latest_position: Option<Position>,
    applied_serial: u64,
    applied_barrier: u64,
    totals: Totals,
}

/// What a receiver holds.
pub ghost struct Reception {
    pub mode: InputMode,
    pub next_transition: u64,
    /// Edges that wait for an earlier one.
    pub buffered: Map<u64, Transition>,
    /// The latest edges that came out.
    pub emitted: Seq<Transition>,
    pub latest_position: Option<Position>,
    pub applied_serial: u64,
    pub applied_barrier: u64,
    pub totals: Totals,
}

impl View for Receiver {
    type V = Reception;

    closed spec fn view(&self) -> Reception {
        Reception {
            mode: self.mode,
            next_transition: self.next_transition,
            buffered: self.buffered@,
            emitted: self.emitted@,
            latest_position: self.latest_position,
            applied_serial: self.applied_serial,
            applied_barrier: self.applied_barrier,
            totals: self.totals,
        }
    }
}

/// What came of an update: the receiver after it, the events it let out, and why it was
/// refused.
pub ghost struct Outcome {
    pub state: Reception,
    pub events: Seq<Stamped>,
    pub error: Option<InputError>,
}

/// The latest edges that are remembered.
pub open spec fn recent(edges: Seq<Transition>) -> Seq<Transition> {
    if edges.len() > MAX_TRANSITIONS {
        edges.skip(1)
    } else {
        edges
    }
}

/// The edges of an update that are new, beside those that wait already.
pub open spec fn filled(
    buffered: Map<u64, Transition>,
    transitions: Seq<Transition>,
    next: u64,
) -> Map<u64, Transition>
    decreases transitions.len(),
{
    if transitions.len() == 0 {
        buffered
    } else {
        let before = filled(buffered, transitions.drop_last(), next);
        let last = transitions.last();
        if last.id >= next && !before.contains_key(last.id) {
            before.insert(last.id, last)
        } else {
            before
        }
    }
}

impl Reception {
    pub open spec fn new(mode: InputMode) -> Reception {
        Reception {
            mode,
            next_transition: 0,
            buffered: Map::empty(),
            emitted: Seq::empty(),
            latest_position: None,
            applied_serial: 0,
            applied_barrier: 0,
            totals: Totals::none(mode),
        }
    }

    /// A waiting edge under its number.
    pub open spec fn waits(self, id: u64) -> bool {
        let edge = self.buffered[id];
        &&& edge.id == id
        &&& self.next_transition <= id < u64::MAX
        &&& edge.position.barrier == id
        &&& position_error(self.mode, edge.position) is None
        &&& edge_error(self.mode, edge.event) is None
    }

    pub open spec fn wf(self) -> bool {
        &&& self.totals.is_of(self.mode)
        &&& self.latest_position matches Some(p) ==> position_error(self.mode, p) is None
        &&& self.buffered.dom().finite()
        &&& self.buffered.len() <= MAX_TRANSITIONS
        &&& forall|id: u64| #[trigger] self.buffered.contains_key(id) ==> self.waits(id)
        &&& self.emitted.len() <= MAX_TRANSITIONS
        &&& self.applied_barrier <= self.next_transition
    }

    /// What is wrong with one edge of an update at `position`.
    pub open spec fn transition_error(self, position: Position, edge: Transition) -> Option<
        InputError,
    > {
        if position_error(self.mode, edge.position) is Some {
            position_error(self.mode, edge.position)
        } else if edge_error(self.mode, edge.event) is Some {
            edge_error(self.mode, edge.event)
        } else if edge.position.barrier != edge.id {
            Some(InputError::WrongBarrier)
        } else if edge.id >= position.barrier {
            Some(InputError::NotIssued)
        } else if edge.position.serial > position.serial {
            Some(InputError::NewerThanPosition)
        } else if edge.id >= self.next_transition && edge.id - self.next_transition
            >= MAX_TRANSITIONS {
            Some(InputError::TransitionBeyondWindow)
        } else {
            None
        }
    }

    /// What is wrong with the first faulty edge.
    pub open spec fn transitions_error(
        self,
        position: Position,
        transitions: Seq<Transition>,
    ) -> Option<InputError>
        decreases transitions.len(),
    {
        if transitions.len() == 0 {
            None
        } else if self.transitions_error(position, transitions.drop_last()) is Some {
            self.transitions_error(position, transitions.drop_last())
        } else {
            self.transition_error(position, transitions.last())
        }
    }

    /// What is wrong with an update on its own.
    pub open spec fn update_error(
        self,
        position: Position,
        transitions: Seq<Transition>,
    ) -> Option<InputError> {
        if transitions.len() > MAX_TRANSITIONS {
            Some(InputError::TooManyTransitions)
        } else if position_error(self.mode, position) is Some {
            position_error(self.mode, position)
        } else if position.barrier - self.next_transition > MAX_TRANSITIONS {
            Some(InputError::PositionBeyondWindow)
        } else {
            self.transitions_error(position, transitions)
        }
    }

    /// How a position disagrees with those seen before.
    pub open spec fn history_error(self, position: Position) -> Option<InputError> {
        if position.serial > self.applied_serial && position.barrier < self.applied_barrier {
            Some(InputError::BarrierRewound)
        } else if self.latest_position is Some && self.latest_position->0.serial
            == position.serial && self.latest_position->0 != position {
            Some(InputError::ConflictingPosition)
        } else {
            None
        }
    }

    /// An edge differs from one of the same number that came out, waits, or came before it
    /// in the update.
    pub open spec fn conflicts(self, transitions: Seq<Transition>, i: int) -> bool {
        let edge = transitions[i];
        if edge.id < self.next_transition {
            exists|k: int|
                0 <= k < self.emitted.len() && (#[trigger] self.emitted[k]).id == edge.id
                    && self.emitted[k] != edge
        } else {
            let before = filled(self.buffered, transitions.take(i), self.next_transition);
            before.contains_key(edge.id) && before[edge.id] != edge
        }
    }

    pub open spec fn conflicting(self, transitions: Seq<Transition>) -> bool {
        exists|i: int| 0 <= i < transitions.len() && #[trigger] self.conflicts(transitions, i)
    }

    /// The newest position is remembered.
    pub open spec fn remembering(self, position: Position) -> Reception {
        let older = position.serial < self.applied_serial || (self.latest_position matches Some(p)
            && position.serial < p.serial);
        Reception {
            latest_position: if older {
                self.latest_position
            } else {
                Some(position)
            },
            ..self
        }
    }

    /// Moves to a position; `Err` where it rewinds or lies too far.
    pub open spec fn moved_to(self, position: Position) -> Result<Reception, InputError> {
        if position.serial < self.applied_serial {
            Err(InputError::PositionSerialRewound)
        } else if position.barrier < self.applied_barrier {
            Err(InputError::PositionBarrierRewound)
        } else {
            match delta(self.totals, position.totals) {
                Err(e) => Err(e),
                Ok(_) => Ok(
                    Reception {
                        totals: position.totals,
                        applied_serial: position.serial,
                        applied_barrier: position.barrier,
                        ..self
                    },
                ),
            }
        }
    }

    /// The events that moving to a position lets out.
    pub open spec fn motion_to(self, position: Position) -> Seq<Stamped> {
        stamped(delta(self.totals, position.totals)->Ok_0, position)
    }

    /// The edge that is next in line left the window.
    pub open spec fn without_next(self) -> Reception {
        Reception { buffered: self.buffered.remove(self.next_transition), ..self }
    }

    /// An edge came out.
    pub open spec fn past(self, edge: Transition) -> Reception {
        let next = (self.next_transition + 1) as u64;
        Reception {
            next_transition: next,
            applied_barrier: next,
            emitted: recent(self.emitted.push(edge)),
            ..self
        }
    }

    /// Edges come out as long as the next one waits, each at its position.
    pub open spec fn drained(self, events: Seq<Stamped>) -> Outcome
        decreases self.buffered.len(),
        when self.buffered.dom().finite()
    {
        if !self.buffered.contains_key(self.next_transition) {
            Outcome { state: self, events, error: None }
        } else {
            let edge = self.buffered[self.next_transition];
            match self.without_next().moved_to(edge.position) {
                Err(e) => Outcome { state: self.without_next(), events, error: Some(e) },
                Ok(there) => there.past(edge).drained(
                    (events + self.motion_to(edge.position)).push(
                        Stamped {
                            serial: edge.position.serial,
                            captured_us: edge.position.captured_us,
                            event: emitted_edge(self.mode, edge.event),
                        },
                    ),
                ),
            }
        }
    }

    /// The newest position is due: no edge issued before it is missing.
    pub open spec fn due(self, position: Position) -> bool {
        position.barrier <= self.next_transition && (position.serial > self.applied_serial || (
        position.serial == self.applied_serial && position.barrier >= self.applied_barrier))
    }

    /// Moves to the newest position where that is due.
    pub open spec fn caught_up(self, events: Seq<Stamped>) -> Outcome {
        if self.latest_position is Some && self.due(self.latest_position->0) {
            let position = self.latest_position->0;
            match self.moved_to(position) {
                Err(e) => Outcome { state: self, events, error: Some(e) },
                Ok(there) => Outcome {
                    state: there,
                    events: events + self.motion_to(position),
                    error: None,
                },
            }
        } else {
            Outcome { state: self, events, error: None }
        }
    }

    /// Why an update is refused before it changes anything.
    pub open spec fn refusal(self, position: Position, transitions: Seq<Transition>) -> Option<
        InputError,
    > {
        if self.update_error(position, transitions) is Some {
            self.update_error(position, transitions)
        } else if self.history_error(position) is Some {
            self.history_error(position)
        } else if self.conflicting(transitions) {
            Some(InputError::ConflictingTransition)
        } else if filled(self.buffered, transitions, self.next_transition).len()
            > MAX_TRANSITIONS {
            Some(InputError::WindowFull)
        } else {
            None
        }
    }

    /// An update is taken in, before anything comes out.
    pub open spec fn taking(self, position: Position, transitions: Seq<Transition>) -> Reception {
        Reception {
            buffered: filled(self.buffered, transitions, self.next_transition),
            ..self.remembering(position)
        }
    }

    /// What comes of an update.
    pub open spec fn received(self, position: Position, transitions: Seq<Transition>) -> Outcome {
        match self.refusal(position, transitions) {
            Some(e) => Outcome { state: self, events: Seq::empty(), error: Some(e) },
            None => {
                let drained = self.taking(position, transitions).drained(Seq::empty());
                if drained.error is Some {
                    drained
                } else {
                    drained.state.caught_up(drained.events)
                }
            },
        }
    }
}

/// Events of one input mode.
pub open spec fn all_of(events: Seq<Stamped>, mode: InputMode) -> bool {
    forall|i: int|
        0 <= i < events.len() ==> match mode {
            InputMode::Raw => (#[trigger] events[i]).event is Raw,
            InputMode::Desktop => events[i].event is Desktop,
        }
}

pub proof fn lemma_filled(
    buffered: Map<u64, Transition>,
    transitions: Seq<Transition>,
    next: u64,
)
    requires
        buffered.dom().finite(),
    ensures
        filled(buffered, transitions, next).dom().finite(),
        filled(buffered, transitions, next).len() >= buffered.len(),
        forall|id: u64| #[trigger]
            buffered.contains_key(id) ==> filled(buffered, transitions, next).contains_key(id)
                && filled(buffered, transitions, next)[id] == buffered[id],
        forall|id: u64| #[trigger]
            filled(buffered, transitions, next).contains_key(id) && !buffered.contains_key(id)
                ==> id >= next && exists|i: int|
                0 <= i < transitions.len() && #[trigger] transitions[i] == filled(
                    buffered,
                    transitions,
                    next,
                )[id] && transitions[i].id == id,
        forall|i: int|
            0 <= i < transitions.len() && (#[trigger] transitions[i]).id >= next ==> filled(
                buffered,
                transitions,
                next,
            ).contains_key(transitions[i].id),
    decreases transitions.len(),
{
    if transitions.len() > 0 {
        let front = transitions.drop_last();
        lemma_filled(buffered, front, next);
        let before = filled(buffered, front, next);
        let after = filled(buffered, transitions, next);
        assert forall|id: u64| #[trigger] after.contains_key(id) && !buffered.contains_key(
            id,
        ) implies id >= next && exists|i: int|
            0 <= i < transitions.len() && #[trigger] transitions[i] == after[id]
                && transitions[i].id == id by {
            if before.contains_key(id) {
                let i = choose|i: int|
                    0 <= i < front.len() && #[trigger] front[i] == before[id] && front[i].id == id;
                assert(transitions[i] == after[id]);
            } else {
                assert(transitions[transitions.len() - 1] == after[id]);
            }
        }
        assert forall|i: int|
            0 <= i < transitions.len() && (
            #[trigger] transitions[i]).id >= next implies after.contains_key(transitions[i].id) by {
            if i < front.len() {
                assert(front[i].id >= next);
            }
        }
    }
}

proof fn lemma_transitions_error(
    state: Reception,
    position: Position,
    transitions: Seq<Transition>,
    n: int,
)
    requires
        0 <= n <= transitions.len(),
        state.transitions_error(position, transitions.take(n)) is Some,
    ensures
        state.transitions_error(position, transitions) == state.transitions_error(
            position,
            transitions.take(n),
        ),
    decreases transitions.len() - n,
{
    if n < transitions.len() {
        assert(transitions.take(n + 1).drop_last() =~= transitions.take(n));
        lemma_transitions_error(state, position, transitions, n + 1);
    } else {
        assert(transitions.take(n) =~= transitions);
    }
}

proof fn lemma_no_transition_error(
    state: Reception,
    position: Position,
    transitions: Seq<Transition>,
    i: int,
)
    requires
        0 <= i < transitions.len(),
        state.transitions_error(position, transitions) is None,
    ensures
        state.transition_error(position, transitions[i]) is None,
    decreases transitions.len(),
{
    if i < transitions.len() - 1 {
        lemma_no_transition_error(state, position, transitions.drop_last(), i);
    }
}

/// An update that is taken in leaves a receiver well formed.
pub proof fn lemma_taking(state: Reception, position: Position, transitions: Seq<Transition>)
    requires
        state.wf(),
        state.refusal(position, transitions) is None,
    ensures
        state.taking(position, transitions).wf(),
{
    let after = state.taking(position, transitions);
    lemma_filled(state.buffered, transitions, state.next_transition);
    assert forall|id: u64| #[trigger] after.buffered.contains_key(id) implies after.waits(id) by {
        if state.buffered.contains_key(id) {
            assert(state.waits(id));
        } else {
            let i = choose|i: int|
                0 <= i < transitions.len() && #[trigger] transitions[i] == after.buffered[id]
                    && transitions[i].id == id;
            lemma_no_transition_error(state, position, transitions, i);
        }
    }
}

/// Letting the next edge out leaves a receiver well formed.
pub proof fn lemma_past(state: Reception, there: Reception)
    requires
        state.wf(),
        state.buffered.contains_key(state.next_transition),
        state.without_next().moved_to(state.buffered[state.next_transition].position) == Ok::<
            Reception,
            InputError,
        >(there),
    ensures
        state.without_next().wf(),
        there.past(state.buffered[state.next_transition]).wf(),
{
    let edge = state.buffered[state.next_transition];
    assert(state.waits(state.next_transition));
    let after = there.past(edge);
    assert forall|id: u64| #[trigger] after.buffered.contains_key(id) implies after.waits(id) by {
        assert(state.buffered.contains_key(id));
        assert(state.waits(id));
    }
    assert forall|id: u64| #[trigger]
        state.without_next().buffered.contains_key(id) implies state.without_next().waits(id) by {
        assert(state.buffered.contains_key(id));
        assert(state.waits(id));
    }
}

impl Receiver {
    pub fn new(mode: InputMode) -> (r: Self)
        ensures
            r@ == Reception::new(mode),
            r@.wf(),
    {
        Receiver {
            mode,
            next_transition: 0,
            buffered: BTreeMap::new(),
            emitted: VecDeque::new(),
            latest_position: None,
            applied_serial: 0,
            applied_barrier: 0,
            totals: Totals::zero(mode),
        }
    }

    pub fn next_transition(&self) -> (r: u64)
        ensures
            r == self@.next_transition,
    {
        self.next_transition
    }

    fn validate_transition(&self, position: &Position, edge: &Transition) -> (r: Result<
        (),
        InputError,
    >)
        ensures
            match r {
                Ok(_) => self@.transition_error(*position, *edge) is None,
                Err(e) => self@.transition_error(*position, *edge) == Some(e),
            },
    {
        validate_position(self.mode, &edge.position)?;
        validate_transition_event(self.mode, &edge.event)?;
        if edge.position.barrier != edge.id {
            return Err(InputError::WrongBarrier);
        }
        if edge.id >= position.barrier {
            return Err(InputError::NotIssued);
        }
        if edge.position.serial > position.serial {
            return Err(InputError::NewerThanPosition);
        }
        if edge.id >= self.next_transition && edge.id - self.next_transition
            >= MAX_TRANSITIONS as u64 {
            return Err(InputError::TransitionBeyondWindow);
        }
        Ok(())
    }

    fn validate_update(&self, update: &Update) -> (r: Result<(), InputError>)
        ensures
            match r {
                Ok(_) => self@.update_error(update.position, update.transitions@) is None,
                Err(e) => self@.update_error(update.position, update.transitions@) == Some(e),
            },
    {
        if update.transitions.len() > MAX_TRANSITIONS {
            return Err(InputError::TooManyTransitions);
        }
        validate_position(self.mode, &update.position)?;
        if update.position.barrier >= self.next_transition && update.position.barrier
            - self.next_transition > MAX_TRANSITIONS as u64 {
            return Err(InputError::PositionBeyondWindow);
        }
        let ghost all = update.transitions@;
        for i in 0..update.transitions.len()
            invariant
                all == update.transitions@,
                all.len() <= MAX_TRANSITIONS,
                position_error(self@.mode, update.position) is None,
                update.position.barrier - self@.next_transition <= MAX_TRANSITIONS,
                self@.transitions_error(update.position, all.take(i as int)) is None,
        {
            assert(all.take(i + 1).drop_last() =~= all.take(i as int));
            match self.validate_transition(&update.position, &update.transitions[i]) {
                Ok(_) => {},
                Err(e) => {
                    proof {
                        lemma_transitions_error(self@, update.position, all, i + 1);
                    }
                    return Err(e);
                },
            }
        }
        assert(all.take(all.len() as int) =~= all);
        Ok(())
    }

    fn check_position(&self, position: &Position) -> (r: Result<(), InputError>)
        ensures
            match r {
                Ok(_) => self@.history_error(*position) is None,
                Err(e) => self@.history_error(*position) == Some(e),
            },
    {
        if position.serial > self.applied_serial && position.barrier < self.applied_barrier {
            return Err(InputError::BarrierRewound);
        }
        if let Some(latest) = &self.latest_position {
            if latest.serial == position.serial && *latest != *position {
                return Err(InputError::ConflictingPosition);
            }
        }
        Ok(())
    }

    fn remember_position(&mut self, position: Position)
        ensures
            final(self)@ == old(self)@.remembering(position),
    {
        if position.serial < self.applied_serial {
            return ;
        }
        if let Some(latest) = &self.latest_position {
            if position.serial < latest.serial {
                return ;
            }
        }
        self.latest_position = Some(position);
    }

    /// An edge that came out, under the same number, that differs.
    fn differs_from_emitted(&self, edge: &Transition) -> (r: bool)
        ensures
            r == exists|k: int|
                0 <= k < self@.emitted.len() && (#[trigger] self@.emitted[k]).id == edge.id
                    && self@.emitted[k] != *edge,
    {
        for k in 0..self.emitted.len()
            invariant
                forall|j: int|
                    0 <= j < k ==> (#[trigger] self@.emitted[j]).id != edge.id || self@.emitted[j]
                        == *edge,
        {
            let known = self.emitted[k];
            assert(known == self@.emitted[k as int]);
            if known.id == edge.id && known != *edge {
                return true;
            }
        }
        false
    }

    /// The new edges of an update; `Err` where one conflicts or the window is full.
    fn fresh(&self, transitions: &Vec<Transition>) -> (r: Result<(), InputError>)
        requires
            self@.wf(),
        ensures
            match r {
                Ok(_) => !self@.conflicting(transitions@) && filled(
                    self@.buffered,
                    transitions@,
                    self@.next_transition,
                ).len() <= MAX_TRANSITIONS,
                Err(e) => if self@.conflicting(transitions@) {
                    e == InputError::ConflictingTransition
                } else {
                    e == InputError::WindowFull && filled(
                        self@.buffered,
                        transitions@,
                        self@.next_transition,
                    ).len() > MAX_TRANSITIONS
                },
            },
    {
        let mut incoming: BTreeMap<u64, Transition> = BTreeMap::new();
        let ghost all = transitions@;
        let ghost next = self.next_transition;
        assert(all.take(0) =~= Seq::empty());
        assert(self@.buffered =~= self@.buffered.union_prefer_right(incoming@));
        for i in 0..transitions.len()
            invariant
                self@.wf(),
                all == transitions@,
                next == self.next_transition,
                incoming@.dom().finite(),
                incoming@.len() <= i,
                incoming@.dom().disjoint(self@.buffered.dom()),
                filled(self@.buffered, all.take(i as int), next) == self@.buffered.union_prefer_right(
                    incoming@,
                ),
                filled(self@.buffered, all.take(i as int), next).len() == self@.buffered.len()
                    + incoming@.len(),
                forall|k: int| 0 <= k < i ==> !#[trigger] self@.conflicts(all, k),
        {
            let edge = transitions[i];
            let ghost before = filled(self@.buffered, all.take(i as int), next);
            assert(all.take(i + 1).drop_last() =~= all.take(i as int));
            proof {
                lemma_filled(self@.buffered, all.take(i as int), next);
            }
            if edge.id < self.next_transition {
                if self.differs_from_emitted(&edge) {
                    assert(self@.conflicts(all, i as int));
                    return Err(InputError::ConflictingTransition);
                }
            } else {
                match self.buffered.get(&edge.id) {
                    Some(existing) => {
                        if *existing != edge {
                            assert(self@.conflicts(all, i as int));
                            return Err(InputError::ConflictingTransition);
                        }
                    },
                    None => {
                        let known: Option<Transition> = match incoming.get(&edge.id) {
                            Some(existing) => Some(*existing),
                            None => None,
                        };
                        match known {
                            Some(existing) => {
                                if existing != edge {
                                    assert(self@.conflicts(all, i as int));
                                    return Err(InputError::ConflictingTransition);
                                }
                            },
                            None => {
                                let ghost earlier = incoming@;
                                incoming.insert(edge.id, edge);
                                assert(self@.buffered.union_prefer_right(incoming@)
                                    =~= self@.buffered.union_prefer_right(earlier).insert(
                                    edge.id,
                                    edge,
                                ));
                            },
                        }
                    },
                }
            }
            assert(!self@.conflicts(all, i as int));
        }
        assert(all.take(all.len() as int) =~= all);
        if incoming.len() > MAX_TRANSITIONS - self.buffered.len() {
            return Err(InputError::WindowFull);
        }
        Ok(())
    }

    fn take_in(&mut self, transitions: &Vec<Transition>)
        requires
            old(self)@.buffered.dom().finite(),
        ensures
            final(self)@ == (Reception {
                buffered: filled(
                    old(self)@.buffered,
                    transitions@,
                    old(self)@.next_transition,
                ),
                ..old(self)@
            }),
    {
        let ghost start = self@;
        let ghost all = transitions@;
        assert(all.take(0) =~= Seq::empty());
        for i in 0..transitions.len()
            invariant
                all == transitions@,
                self@ == (Reception {
                    buffered: filled(start.buffered, all.take(i as int), start.next_transition),
                    ..start
                }),
        {
            let edge = transitions[i];
            assert(all.take(i + 1).drop_last() =~= all.take(i as int));
            if edge.id >= self.next_transition && !self.buffered.contains_key(&edge.id) {
                self.buffered.insert(edge.id, edge);
            }
        }
        assert(all.take(all.len() as int) =~= all);
    }

    fn apply_position(&mut self, position: &Position, out: &mut Vec<Stamped>) -> (r: Result<
        (),
        InputError,
    >)
        ensures
            match r {
                Ok(_) => old(self)@.moved_to(*position) == Ok::<Reception, InputError>(final(self)@)
                    && final(out)@ == old(out)@ + old(self)@.motion_to(*position),
                Err(e) => old(self)@.moved_to(*position) == Err::<Reception, InputError>(e)
                    && final(self)@ == old(self)@,
            },
    {
        if position.serial < self.applied_serial {
            return Err(InputError::PositionSerialRewound);
        }
        if position.barrier < self.applied_barrier {
            return Err(InputError::PositionBarrierRewound);
        }
        match push_delta(out, self.totals, position) {
            Ok(_) => {},
            Err(e) => {
                return Err(e);
            },
        }
        self.totals = position.totals;
        self.applied_serial = position.serial;
        self.applied_barrier = position.barrier;
        Ok(())
    }

    /// Lets the edges out that are next in line.
    fn drain(&mut self, out: &mut Vec<Stamped>) -> (r: Result<(), InputError>)
        requires
            old(self)@.wf(),
            all_of(old(out)@, old(self)@.mode),
        ensures
            final(self)@.wf(),
            final(self)@ == old(self)@.drained(old(out)@).state,
            match r {
                Ok(_) => old(self)@.drained(old(out)@).error is None && final(out)@
                    == old(self)@.drained(old(out)@).events && all_of(
                    final(out)@,
                    old(self)@.mode,
                ),
                Err(e) => old(self)@.drained(old(out)@).error == Some(e),
            },
            final(self)@.mode == old(self)@.mode,
    {
        let ghost goal = self@.drained(out@);
        let ghost mode = self.mode;
        loop
            invariant
                self@.wf(),
                self@.mode == mode,
                all_of(out@, mode),
                self@.drained(out@) == goal,
                goal == old(self)@.drained(old(out)@),
                mode == old(self)@.mode,
            ensures
                self@.wf(),
                self@.mode == mode,
                all_of(out@, mode),
                goal.state == self@,
                goal.events == out@,
                goal.error is None,
            decreases self@.buffered.len(),
        {
            let ghost before = self@;
            let edge: Transition = match self.buffered.get(&self.next_transition) {
                Some(edge) => *edge,
                None => {
                    break ;
                },
            };
            self.buffered.remove(&self.next_transition);
            assert(self@ == before.without_next());
            proof {
                assert(before.waits(before.next_transition));
            }
            match self.apply_position(&edge.position, out) {
                Ok(_) => {},
                Err(e) => {
                    proof {
                        lemma_without_next(before);
                    }
                    return Err(e);
                },
            }
            let ghost there = self@;
            proof {
                lemma_past(before, there);
                lemma_delta_mode(before.totals, edge.position.totals, mode);
            }
            push_stamped(out, &edge.position, edge_event(self.mode, edge.event));
            self.next_transition = self.next_transition + 1;
            self.applied_barrier = self.next_transition;
            self.emitted.push_back(edge);
            if self.emitted.len() > MAX_TRANSITIONS {
                self.emitted.pop_front();
            }
            assert(self@.emitted =~= recent(there.emitted.push(edge)));
            assert(self@ == there.past(edge));
        }
        Ok(())
    }

    /// Takes an update and lets out what it completes.
    pub fn receive(&mut self, update: Update) -> (r: Result<Vec<Delivery>, InputError>)
        requires
            old(self)@.wf(),
        ensures
            final(self)@.wf(),
            ({
                let outcome = old(self)@.received(update.position, update.transitions@);
                &&& final(self)@ == outcome.state
                &&& match r {
                    Ok(deliveries) => outcome.error is None && delivered(
                        deliveries@,
                        batches(outcome.events),
                        old(self)@.mode,
                    ),
                    Err(e) => outcome.error == Some(e),
                }
            }),
    {
        self.validate_update(&update)?;
        self.check_position(&update.position)?;
        self.fresh(&update.transitions)?;
        let ghost start = self@;
        proof {
            lemma_taking(start, update.position, update.transitions@);
        }
        self.take_in(&update.transitions);
        self.remember_position(update.position);
        assert(self@ == start.taking(update.position, update.transitions@));
        let mut events: Vec<Stamped> = Vec::new();
        assert(events@ =~= Seq::empty());
        self.drain(&mut events)?;
        if let Some(position) = self.latest_position {
            if position.barrier <= self.next_transition && (position.serial > self.applied_serial
                || (position.serial == self.applied_serial && position.barrier
                >= self.applied_barrier)) {
                proof {
                    lemma_delta_mode(self@.totals, position.totals, self@.mode);
                }
                self.apply_position(&position, &mut events)?;
            }
        }
        Ok(group(&events, self.mode))
    }
}

/// Adds an event to the last delivery of its input mode.
fn extend_last(deliveries: &mut Vec<Delivery>, event: Emitted, mode: InputMode, Ghost(all): Ghost<Seq<Batch>>)
    requires
        all.len() > 0,
        delivered(old(deliveries)@, all, mode),
        match mode {
            InputMode::Raw => event is Raw,
            InputMode::Desktop => event is Desktop,
        },
    ensures
        delivered(
            final(deliveries)@,
            all.drop_last().push(Batch { events: all.last().events.push(event), ..all.last() }),
            mode,
        ),
{
    let ghost before = deliveries@;
    let ghost grown = Batch { events: all.last().events.push(event), ..all.last() };
    let ghost after = all.drop_last().push(grown);
    assert(delivers(before[all.len() - 1], all[all.len() - 1], mode));
    let Some(last) = deliveries.pop() else {
        return ;
    };
    let captured_us: u64 = last.captured_us;
    let events: Events = match (last.events, event) {
        (Events::Raw(mut list), Emitted::Raw(event)) => {
            let ghost was = list@;
            list.push(event);
            assert(raw_emitted(list@) =~= raw_emitted(was).push(Emitted::Raw(event)));
            Events::Raw(list)
        },
        (Events::Desktop(mut list), Emitted::Desktop(event)) => {
            let ghost was = list@;
            list.push(event);
            assert(desktop_emitted(list@) =~= desktop_emitted(was).push(Emitted::Desktop(event)));
            Events::Desktop(list)
        },
        (events, _) => {
            assert(false);
            events
        },
    };
    let delivery = Delivery { captured_us, events };
    assert(delivers(delivery, grown, mode));
    deliveries.push(delivery);
    assert forall|i: int| 0 <= i < after.len() implies delivers(
        #[trigger] deliveries@[i],
        after[i],
        mode,
    ) by {
        if i < all.len() - 1 {
            assert(delivers(before[i], all[i], mode));
        }
    }
}

/// Events as deliveries, one for each run of events of one serial.
fn group(events: &Vec<Stamped>, mode: InputMode) -> (r: Vec<Delivery>)
    requires
        all_of(events@, mode),
    ensures
        delivered(r@, batches(events@), mode),
{
    let mut deliveries: Vec<Delivery> = Vec::new();
    let mut serial: Option<u64> = None;
    let ghost all = events@;
    for i in 0..events.len()
        invariant
            all == events@,
            all_of(all, mode),
            delivered(deliveries@, batches(all.take(i as int)), mode),
            serial == if batches(all.take(i as int)).len() == 0 {
                None::<u64>
            } else {
                Some(batches(all.take(i as int)).last().serial)
            },
    {
        let stamped = events[i];
        let ghost before = batches(all.take(i as int));
        let ghost after = batches(all.take(i + 1));
        assert(all.take(i + 1).drop_last() =~= all.take(i as int));
        assert(all.take(i + 1).last() == stamped);
        assert(all[i as int] == stamped);
        let same: bool = match serial {
            Some(serial) => serial == stamped.serial,
            None => false,
        };
        if same {
            extend_last(&mut deliveries, stamped.event, mode, Ghost(before));
        } else {
            let ghost earlier = deliveries@;
            let events: Events = match stamped.event {
                Emitted::Raw(event) => {
                    let mut list: Vec<RawEvent> = Vec::new();
                    list.push(event);
                    assert(raw_emitted(list@) =~= seq![Emitted::Raw(event)]);
                    Events::Raw(list)
                },
                Emitted::Desktop(event) => {
                    let mut list: Vec<InputEvent> = Vec::new();
                    list.push(event);
                    assert(desktop_emitted(list@) =~= seq![Emitted::Desktop(event)]);
                    Events::Desktop(list)
                },
            };
            deliveries.push(Delivery { captured_us: stamped.captured_us, events });
            assert forall|k: int| 0 <= k < after.len() implies delivers(
                #[trigger] deliveries@[k],
                after[k],
                mode,
            ) by {
                if k < before.len() {
                    assert(delivers(earlier[k], before[k], mode));
                }
            }
        }
        serial = Some(stamped.serial);
    }
    assert(all.take(all.len() as int) =~= all);
    deliveries
}

proof fn lemma_without_next(state: Reception)
    requires
        state.wf(),
    ensures
        state.without_next().wf(),
{
    let after = state.without_next();
    assert forall|id: u64| #[trigger] after.buffered.contains_key(id) implies after.waits(id) by {
        assert(state.buffered.contains_key(id));
        assert(state.waits(id));
    }
}

/// Totals of one mode differ by events of that mode.
proof fn lemma_delta_mode(from: Totals, to: Totals, mode: InputMode)
    requires
        from.is_of(mode),
        to.is_of(mode),
    ensures
        delta(from, to) matches Ok(events) ==> forall|i: int|
            0 <= i < events.len() ==> match mode {
                InputMode::Raw => (#[trigger] events[i]) is Raw,
                InputMode::Desktop => events[i] is Desktop,
            },
{
}

} // verus!
