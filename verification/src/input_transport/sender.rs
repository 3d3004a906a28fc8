//! The sending side: a report becomes new totals, and edges that wait in a journal until
//! they are acknowledged.

use super::state::{edge_error, InputError, Position, Totals, Transition, MAX_TRANSITIONS};
use crate::codes::{ascending, lemma_with_code, lemma_without_code, with_code, without_code, CodeSet};
use crate::input::{
    button_of, is_keyboard_code, raw_button, valid_event, InputEvent, InputMode, RawEvent, RawReport,
    MAX_DEVICES,
};
use std::collections::VecDeque;
use vstd::prelude::*;

verus! {

/// Codes of buttons follow those of keys.
pub const BUTTON_BASE: u32 = 0x1_0000;

/// What one device holds down.
#[derive(Debug)]
pub struct HeldDevice {
    pub device: u64,
    pub held: CodeSet,
}

/// What one device holds down: codes of keys, then of buttons.
pub ghost struct Station {
    pub device: u64,
    pub held: Seq<u32>,
}

impl View for HeldDevice {
    type V = Station;

    open spec fn view(&self) -> Station {
        Station { device: self.device, held: self.held@ }
    }
}

pub open spec fn stations(devices: Seq<HeldDevice>) -> Seq<Station> {
    Seq::new(devices.len(), |i: int| devices[i]@)
}

/// Codes that a device can hold.
pub open spec fn is_held_code(code: u32) -> bool {
    is_keyboard_code(code as int) || BUTTON_BASE < code <= BUTTON_BASE + 8
}

/// Devices differ, and hold codes of keys and buttons in ascending order.
pub open spec fn stations_wf(devices: Seq<Station>) -> bool {
    &&& forall|i: int, j: int|
        0 <= i < j < devices.len() ==> (#[trigger] devices[i]).device != (
        #[trigger] devices[j]).device
    &&& forall|i: int| 0 <= i < devices.len() ==> ascending((#[trigger] devices[i]).held)
    &&& forall|i: int, k: int|
        0 <= i < devices.len() && 0 <= k < devices[i].held.len() ==> is_held_code(
            #[trigger] devices[i].held[k],
        )
}

/// Where a device stands, or the number of devices where it is unknown.
pub open spec fn seat(devices: Seq<Station>, device: u64) -> int
    decreases devices.len(),
{
    if devices.len() == 0 {
        0
    } else if devices[0].device == device {
        0
    } else {
        1 + seat(devices.skip(1), device)
    }
}

/// Some device holds the code.
pub open spec fn held_anywhere(devices: Seq<Station>, code: u32) -> bool {
    exists|i: int| 0 <= i < devices.len() && (#[trigger] devices[i]).held.contains(code)
}

/// The device is known, holding nothing where it is new.
pub open spec fn seated(devices: Seq<Station>, device: u64) -> Seq<Station> {
    if seat(devices, device) < devices.len() {
        devices
    } else {
        devices.push(Station { device, held: Seq::empty() })
    }
}

/// A known device presses or releases a code.
pub open spec fn turned(devices: Seq<Station>, device: u64, code: u32, pressed: bool) -> Seq<
    Station,
> {
    let at = seat(devices, device);
    devices.update(
        at,
        Station {
            device,
            held: if pressed {
                with_code(devices[at].held, code)
            } else {
                without_code(devices[at].held, code)
            },
        },
    )
}

/// The event that presses or releases a code.
pub open spec fn code_event(code: u32, pressed: bool) -> InputEvent {
    if code < BUTTON_BASE {
        InputEvent::Key { code, pressed }
    } else {
        InputEvent::Button { button: button_of(code - BUTTON_BASE)->0, pressed }
    }
}

/// An edge and the totals it comes at.
#[derive(Clone, Copy, Debug, PartialEq, Eq, Structural)]
pub struct Edge {
    pub totals: Totals,
    pub event: InputEvent,
}

/// Sums of raw motion and wheel.
pub ghost struct Sums {
    pub x: int,
    pub y: int,
    pub wheel_x: int,
    pub wheel_y: int,
}

pub open spec fn sums_of(totals: Totals) -> Sums {
    match totals {
        Totals::Raw { x, y, wheel_x, wheel_y } => Sums {
            x: x as int,
            y: y as int,
            wheel_x: wheel_x as int,
            wheel_y: wheel_y as int,
        },
        _ => Sums { x: 0, y: 0, wheel_x: 0, wheel_y: 0 },
    }
}

pub open spec fn raw_totals(sums: Sums) -> Totals {
    Totals::Raw {
        x: sums.x as i64,
        y: sums.y as i64,
        wheel_x: sums.wheel_x as i64,
        wheel_y: sums.wheel_y as i64,
    }
}

pub open spec fn moved(sums: Sums, event: RawEvent) -> Sums {
    match event {
        RawEvent::Motion { x, y } => Sums { x: sums.x + x, y: sums.y + y, ..sums },
        RawEvent::Wheel { x120, y120 } => Sums {
            wheel_x: sums.wheel_x + x120,
            wheel_y: sums.wheel_y + y120,
            ..sums
        },
        _ => sums,
    }
}

/// Sums after a report's events.
pub open spec fn moved_by(sums: Sums, events: Seq<RawEvent>) -> Sums
    decreases events.len(),
{
    if events.len() == 0 {
        sums
    } else {
        moved(moved_by(sums, events.drop_last()), events.last())
    }
}

pub open spec fn fits(value: int) -> bool {
    i64::MIN <= value <= i64::MAX
}

/// The first total that leaves its range.
pub open spec fn totals_error(sums: Sums, events: Seq<RawEvent>) -> Option<InputError>
    decreases events.len(),
{
    if events.len() == 0 {
        None
    } else if totals_error(sums, events.drop_last()) is Some {
        totals_error(sums, events.drop_last())
    } else {
        let after = moved_by(sums, events);
        if !fits(after.x) {
            Some(InputError::RawXOverflow)
        } else if !fits(after.y) {
            Some(InputError::RawYOverflow)
        } else if !fits(after.wheel_x) {
            Some(InputError::RawWheelXOverflow)
        } else if !fits(after.wheel_y) {
            Some(InputError::RawWheelYOverflow)
        } else {
            None
        }
    }
}

/// Releases of the codes that no device holds any longer.
pub open spec fn freed(held: Seq<u32>, devices: Seq<Station>, totals: Totals) -> Seq<Edge>
    decreases held.len(),
{
    if held.len() == 0 {
        Seq::empty()
    } else {
        let before = freed(held.drop_last(), devices, totals);
        if held_anywhere(devices, held.last()) {
            before
        } else {
            before.push(Edge { totals, event: code_event(held.last(), false) })
        }
    }
}

/// Devices and edges after some events of a report.
pub ghost struct Pass {
    pub devices: Seq<Station>,
    pub edges: Seq<Edge>,
}

/// A code is pressed or released on a device: an edge where all devices together change.
pub open spec fn pass_code(
    before: Pass,
    device: u64,
    code: u32,
    pressed: bool,
    totals: Totals,
) -> Pass {
    let devices = turned(seated(before.devices, device), device, code, pressed);
    Pass {
        devices,
        edges: if held_anywhere(before.devices, code) != held_anywhere(devices, code) {
            before.edges.push(Edge { totals, event: code_event(code, pressed) })
        } else {
            before.edges
        },
    }
}

pub open spec fn pass_event(before: Pass, device: u64, event: RawEvent, totals: Totals) -> Pass {
    match event {
        RawEvent::Key { code, pressed } => pass_code(before, device, code as u32, pressed, totals),
        RawEvent::Button { number, pressed } => pass_code(
            before,
            device,
            (BUTTON_BASE + number) as u32,
            pressed,
            totals,
        ),
        RawEvent::Removed => {
            let at = seat(before.devices, device);
            if at < before.devices.len() {
                let devices = before.devices.remove(at);
                Pass {
                    devices,
                    edges: before.edges + freed(before.devices[at].held, devices, totals),
                }
            } else {
                before
            }
        },
        _ => before,
    }
}

/// Devices and edges after a report's events.
pub open spec fn pass_events(
    devices: Seq<Station>,
    sums: Sums,
    device: u64,
    events: Seq<RawEvent>,
) -> Pass
    decreases events.len(),
{
    if events.len() == 0 {
        Pass { devices, edges: Seq::empty() }
    } else {
        pass_event(
            pass_events(devices, sums, device, events.drop_last()),
            device,
            events.last(),
            raw_totals(moved_by(sums, events)),
        )
    }
}

/// Devices known before a report's events.
pub open spec fn known(devices: Seq<Station>, device: u64, events: Seq<RawEvent>) -> Seq<Station> {
    if events.len() == 1 && events[0] is Removed {
        devices
    } else {
        seated(devices, device)
    }
}

/// Edges numbered from `first` on.
pub open spec fn numbered(edges: Seq<Edge>, serial: u64, captured_us: u64, first: int) -> Seq<
    Transition,
> {
    Seq::new(
        edges.len(),
        |i: int|
            Transition {
                id: (first + i) as u64,
                position: Position {
                    serial,
                    captured_us,
                    totals: edges[i].totals,
                    barrier: (first + i) as u64,
                },
                event: edges[i].event,
            },
    )
}

proof fn lemma_seat(devices: Seq<Station>, device: u64)
    ensures
        0 <= seat(devices, device) <= devices.len(),
        seat(devices, device) < devices.len() ==> devices[seat(devices, device)].device == device,
        forall|i: int|
            0 <= i < seat(devices, device) ==> (#[trigger] devices[i]).device != device,
    decreases devices.len(),
{
    if devices.len() > 0 && devices[0].device != device {
        let rest = devices.skip(1);
        lemma_seat(rest, device);
        assert forall|i: int| 0 <= i < seat(devices, device) implies (
        #[trigger] devices[i]).device != device by {
            if i > 0 {
                assert(rest[i - 1].device != device);
            }
        }
    }
}

fn find_device(devices: &Vec<HeldDevice>, device: u64) -> (r: usize)
    ensures
        r == seat(stations(devices@), device),
        r <= devices@.len(),
{
    let mut at: usize = 0;
    proof {
        lemma_seat(stations(devices@), device);
    }
    while at < devices.len() && devices[at].device != device
        invariant
            at <= devices@.len(),
            forall|i: int| 0 <= i < at ==> (#[trigger] stations(devices@)[i]).device != device,
        ensures
            at <= devices@.len(),
            forall|i: int| 0 <= i < at ==> (#[trigger] stations(devices@)[i]).device != device,
            at < devices@.len() ==> stations(devices@)[at as int].device == device,
        decreases devices.len() - at,
    {
        at = at + 1;
    }
    proof {
        let s = seat(stations(devices@), device);
        if at < s {
            assert(stations(devices@)[at as int].device != device);
        }
        if s < at {
            assert(stations(devices@)[s].device != device);
        }
    }
    at
}

fn any_holds(devices: &Vec<HeldDevice>, code: u32) -> (r: bool)
    requires
        stations_wf(stations(devices@)),
    ensures
        r == held_anywhere(stations(devices@), code),
{
    for i in 0..devices.len()
        invariant
            stations_wf(stations(devices@)),
            forall|k: int|
                0 <= k < i ==> !(#[trigger] stations(devices@)[k]).held.contains(code),
    {
        assert(ascending(stations(devices@)[i as int].held));
        if devices[i].held.contains(code) {
            assert(stations(devices@)[i as int].held.contains(code));
            return true;
        }
    }
    false
}

fn copy_devices(devices: &Vec<HeldDevice>) -> (r: Vec<HeldDevice>)
    ensures
        stations(r@) == stations(devices@),
{
    let mut out: Vec<HeldDevice> = Vec::new();
    for i in 0..devices.len()
        invariant
            stations(out@) == stations(devices@).take(i as int),
    {
        let ghost before = stations(out@);
        let copy = HeldDevice { device: devices[i].device, held: devices[i].held.clone() };
        let ghost station = copy@;
        out.push(copy);
        assert(stations(out@) =~= before.push(station));
        assert(station == stations(devices@)[i as int]);
        assert(stations(out@) =~= stations(devices@).take(i + 1));
    }
    assert(stations(devices@).take(devices@.len() as int) =~= stations(devices@));
    out
}

proof fn lemma_seated(devices: Seq<Station>, device: u64)
    requires
        stations_wf(devices),
    ensures
        stations_wf(seated(devices, device)),
        seat(seated(devices, device), device) < seated(devices, device).len(),
        seat(seated(devices, device), device) == seat(devices, device),
{
    lemma_seat(devices, device);
    let after = seated(devices, device);
    lemma_seat(after, device);
    if seat(devices, device) == devices.len() {
        assert(after[devices.len() as int].device == device);
        if seat(after, device) < devices.len() {
            assert(devices[seat(after, device)].device != device);
        }
        assert forall|i: int, k: int|
            0 <= i < after.len() && 0 <= k < after[i].held.len() implies is_held_code(
            #[trigger] after[i].held[k],
        ) by {
            assert(is_held_code(devices[i].held[k]));
        }
    }
}

proof fn lemma_turned(devices: Seq<Station>, device: u64, code: u32, pressed: bool)
    requires
        stations_wf(devices),
        seat(devices, device) < devices.len(),
        is_held_code(code),
    ensures
        stations_wf(turned(devices, device, code, pressed)),
{
    lemma_seat(devices, device);
    let at = seat(devices, device);
    let after = turned(devices, device, code, pressed);
    lemma_with_code(devices[at].held, code);
    lemma_without_code(devices[at].held, code);
    assert forall|i: int, k: int|
        0 <= i < after.len() && 0 <= k < after[i].held.len() implies is_held_code(
        #[trigger] after[i].held[k],
    ) by {
        if i == at {
            let c = after[i].held[k];
            assert(after[i].held.contains(c));
            if c != code {
                assert(devices[at].held.contains(c));
                let j = choose|j: int| 0 <= j < devices[at].held.len() && devices[at].held[j] == c;
                assert(is_held_code(devices[at].held[j]));
            }
        } else {
            assert(is_held_code(devices[i].held[k]));
        }
    }
    assert forall|i: int| 0 <= i < after.len() implies ascending((#[trigger] after[i]).held) by {
        if i != at {
            assert(ascending(devices[i].held));
        }
    }
    assert forall|i: int, j: int| 0 <= i < j < after.len() implies (
    #[trigger] after[i]).device != (#[trigger] after[j]).device by {
        assert(devices[i].device != devices[j].device);
    }
}

/// Devices known before a report's events remain well formed.
pub proof fn lemma_known(devices: Seq<Station>, device: u64, events: Seq<RawEvent>)
    requires
        stations_wf(devices),
    ensures
        stations_wf(known(devices, device, events)),
{
    lemma_seated(devices, device);
}

proof fn lemma_unseated(devices: Seq<Station>, at: int)
    requires
        stations_wf(devices),
        0 <= at < devices.len(),
    ensures
        stations_wf(devices.remove(at)),
{
    let after = devices.remove(at);
    assert forall|i: int, j: int| 0 <= i < j < after.len() implies (
    #[trigger] after[i]).device != (#[trigger] after[j]).device by {
        let p = if i < at {
            i
        } else {
            i + 1
        };
        let q = if j < at {
            j
        } else {
            j + 1
        };
        assert(devices[p].device != devices[q].device);
    }
    assert forall|i: int| 0 <= i < after.len() implies ascending((#[trigger] after[i]).held) by {
        let p = if i < at {
            i
        } else {
            i + 1
        };
        assert(ascending(devices[p].held));
    }
    assert forall|i: int, k: int|
        0 <= i < after.len() && 0 <= k < after[i].held.len() implies is_held_code(
        #[trigger] after[i].held[k],
    ) by {
        let p = if i < at {
            i
        } else {
            i + 1
        };
        assert(is_held_code(devices[p].held[k]));
    }
}

proof fn lemma_freed(held: Seq<u32>, devices: Seq<Station>, totals: Totals)
    requires
        totals is Raw,
        forall|k: int| 0 <= k < held.len() ==> is_held_code(#[trigger] held[k]),
    ensures
        forall|i: int|
            0 <= i < freed(held, devices, totals).len() ==> ({
                let edge = #[trigger] freed(held, devices, totals)[i];
                edge.totals is Raw && edge_error(InputMode::Raw, edge.event) is None
            }),
    decreases held.len(),
{
    if held.len() > 0 {
        let front = held.drop_last();
        assert forall|k: int| 0 <= k < front.len() implies is_held_code(#[trigger] front[k]) by {
            assert(is_held_code(held[k]));
        }
        lemma_freed(front, devices, totals);
        assert(is_held_code(held[held.len() - 1]));
    }
}

/// One event of a valid report keeps the devices well formed and adds valid edges.
pub proof fn lemma_pass_event(
    before: Pass,
    device: u64,
    event: RawEvent,
    totals: Totals,
    count: int,
)
    requires
        stations_wf(before.devices),
        forall|i: int|
            0 <= i < before.edges.len() ==> (#[trigger] before.edges[i]).totals is Raw
                && edge_error(InputMode::Raw, before.edges[i].event) is None,
        valid_event(event, count),
        totals is Raw,
    ensures
        stations_wf(pass_event(before, device, event, totals).devices),
        forall|i: int|
            0 <= i < pass_event(before, device, event, totals).edges.len() ==> ({
                let edge = #[trigger] pass_event(before, device, event, totals).edges[i];
                edge.totals is Raw && edge_error(InputMode::Raw, edge.event) is None
            }),
{
    lemma_seated(before.devices, device);
    lemma_seat(before.devices, device);
    match event {
        RawEvent::Key { code, pressed } => {
            lemma_turned(seated(before.devices, device), device, code as u32, pressed);
        },
        RawEvent::Button { number, pressed } => {
            lemma_turned(
                seated(before.devices, device),
                device,
                (BUTTON_BASE + number) as u32,
                pressed,
            );
        },
        RawEvent::Removed => {
            let at = seat(before.devices, device);
            if at < before.devices.len() {
                let held = before.devices[at].held;
                assert forall|k: int| 0 <= k < held.len() implies is_held_code(
                    #[trigger] held[k],
                ) by {
                    assert(is_held_code(before.devices[at].held[k]));
                }
                lemma_unseated(before.devices, at);
                lemma_freed(held, before.devices.remove(at), totals);
            }
        },
        _ => {},
    }
}

/// The event that presses or releases a code.
fn event_of(code: u32, pressed: bool) -> (r: InputEvent)
    requires
        is_held_code(code),
    ensures
        r == code_event(code, pressed),
{
    if code < BUTTON_BASE {
        InputEvent::Key { code, pressed }
    } else {
        match raw_button((code - BUTTON_BASE) as u8) {
            Some(button) => InputEvent::Button { button, pressed },
            None => InputEvent::Key { code, pressed },
        }
    }
}

fn seat_device(devices: &mut Vec<HeldDevice>, device: u64) -> (at: usize)
    requires
        stations_wf(stations(old(devices)@)),
    ensures
        stations(final(devices)@) == seated(stations(old(devices)@), device),
        stations_wf(stations(final(devices)@)),
        at == seat(stations(final(devices)@), device),
        at < final(devices)@.len(),
{
    let at: usize = find_device(devices, device);
    proof {
        lemma_seated(stations(devices@), device);
        lemma_seat(stations(devices@), device);
    }
    if at == devices.len() {
        devices.push(HeldDevice { device, held: CodeSet::new() });
        assert(stations(devices@) =~= seated(stations(old(devices)@), device));
    }
    at
}

fn pass_held_code(
    devices: &mut Vec<HeldDevice>,
    edges: &mut Vec<Edge>,
    device: u64,
    code: u32,
    pressed: bool,
    totals: Totals,
)
    requires
        stations_wf(stations(old(devices)@)),
        is_held_code(code),
    ensures
        stations_wf(stations(final(devices)@)),
        (Pass { devices: stations(final(devices)@), edges: final(edges)@ }) == pass_code(
            Pass { devices: stations(old(devices)@), edges: old(edges)@ },
            device,
            code,
            pressed,
            totals,
        ),
{
    let was_held: bool = any_holds(devices, code);
    let at: usize = seat_device(devices, device);
    let ghost seats = stations(devices@);
    proof {
        lemma_turned(seats, device, code, pressed);
        lemma_seat(seats, device);
        assert(ascending(seats[at as int].held));
    }
    let mut held = devices[at].held.clone();
    if pressed {
        held.insert(code);
    } else {
        held.remove(code);
    }
    devices.set(at, HeldDevice { device, held });
    assert(stations(devices@) =~= turned(seats, device, code, pressed));
    let is_held: bool = any_holds(devices, code);
    if was_held != is_held {
        edges.push(Edge { totals, event: event_of(code, pressed) });
    }
}

fn remove_device(devices: &mut Vec<HeldDevice>, edges: &mut Vec<Edge>, device: u64, totals: Totals)
    requires
        stations_wf(stations(old(devices)@)),
    ensures
        stations_wf(stations(final(devices)@)),
        (Pass { devices: stations(final(devices)@), edges: final(edges)@ }) == pass_event(
            Pass { devices: stations(old(devices)@), edges: old(edges)@ },
            device,
            RawEvent::Removed,
            totals,
        ),
{
    let at: usize = find_device(devices, device);
    if at < devices.len() {
        let ghost before = stations(devices@);
        let ghost earlier = edges@;
        let removed = devices.remove(at);
        let ghost after = stations(devices@);
        proof {
            assert(after =~= before.remove(at as int));
            lemma_unseated(before, at as int);
        }
        let ghost held = removed.held@;
        assert(held == before[at as int].held);
        for i in 0..removed.held.codes.len()
            invariant
                held == removed.held@,
                before[at as int].held == held,
                stations_wf(before),
                0 <= at < before.len(),
                stations(devices@) == after,
                stations_wf(after),
                edges@ == earlier + freed(held.take(i as int), after, totals),
        {
            let code: u32 = removed.held.codes[i];
            assert(is_held_code(before[at as int].held[i as int]));
            assert(held.take(i + 1).drop_last() =~= held.take(i as int));
            if !any_holds(devices, code) {
                edges.push(Edge { totals, event: event_of(code, false) });
            }
            assert(edges@ =~= earlier + freed(held.take(i + 1), after, totals));
        }
        assert(held.take(held.len() as int) =~= held);
    }
}

fn add_motion(total: i64, delta: i32) -> (r: Option<i64>)
    ensures
        r == if fits(total + delta) {
            Some((total + delta) as i64)
        } else {
            None::<i64>
        },
{
    total.checked_add(delta as i64)
}

/// The totals after one more event.
fn step_totals(totals: Totals, event: RawEvent) -> (r: Result<Totals, InputError>)
    requires
        totals is Raw,
    ensures
        match r {
            Ok(after) => after == raw_totals(moved(sums_of(totals), event)) && sums_of(after) == moved(
                sums_of(totals),
                event,
            ),
            Err(e) => {
                let after = moved(sums_of(totals), event);
                e == if !fits(after.x) {
                    InputError::RawXOverflow
                } else if !fits(after.y) {
                    InputError::RawYOverflow
                } else if !fits(after.wheel_x) {
                    InputError::RawWheelXOverflow
                } else {
                    InputError::RawWheelYOverflow
                }
            },
        },
        r is Ok == {
            let after = moved(sums_of(totals), event);
            fits(after.x) && fits(after.y) && fits(after.wheel_x) && fits(after.wheel_y)
        },
{
    match totals {
        Totals::Raw { x, y, wheel_x, wheel_y } => match event {
            RawEvent::Motion { x: dx, y: dy } => {
                let Some(x) = add_motion(x, dx) else {
                    return Err(InputError::RawXOverflow);
                };
                let Some(y) = add_motion(y, dy) else {
                    return Err(InputError::RawYOverflow);
                };
                Ok(Totals::Raw { x, y, wheel_x, wheel_y })
            },
            RawEvent::Wheel { x120, y120 } => {
                let Some(wheel_x) = add_motion(wheel_x, x120) else {
                    return Err(InputError::RawWheelXOverflow);
                };
                let Some(wheel_y) = add_motion(wheel_y, y120) else {
                    return Err(InputError::RawWheelYOverflow);
                };
                Ok(Totals::Raw { x, y, wheel_x, wheel_y })
            },
            _ => Ok(totals),
        },
        Totals::Desktop { .. } => Ok(totals),
    }
}

/// The totals after a report's events.
pub fn raw_totals_after(totals: Totals, events: &Vec<RawEvent>) -> (r: Result<Totals, InputError>)
    requires
        totals is Raw,
    ensures
        match r {
            Ok(after) => {
                &&& totals_error(sums_of(totals), events@) is None
                &&& after == raw_totals(moved_by(sums_of(totals), events@))
                &&& sums_of(after) == moved_by(sums_of(totals), events@)
            },
            Err(e) => totals_error(sums_of(totals), events@) == Some(e),
        },
{
    let mut now: Totals = totals;
    let ghost start = sums_of(totals);
    for i in 0..events.len()
        invariant
            now is Raw,
            start == sums_of(totals),
            sums_of(now) == moved_by(start, events@.take(i as int)),
            totals_error(start, events@.take(i as int)) is None,
    {
        proof {
            assert(events@.take(i + 1).drop_last() =~= events@.take(i as int));
            assert(events@.take(i + 1).last() == events@[i as int]);
        }
        match step_totals(now, events[i]) {
            Ok(after) => {
                now = after;
            },
            Err(e) => {
                proof {
                    lemma_totals_error(start, events@, i + 1);
                }
                return Err(e);
            },
        }
    }
    assert(events@.take(events@.len() as int) =~= events@);
    Ok(now)
}

/// An overflow after some events remains the first one.
proof fn lemma_totals_error(sums: Sums, events: Seq<RawEvent>, n: int)
    requires
        0 <= n <= events.len(),
        totals_error(sums, events.take(n)) is Some,
    ensures
        totals_error(sums, events) == totals_error(sums, events.take(n)),
    decreases events.len() - n,
{
    if n < events.len() {
        assert(events.take(n + 1).drop_last() =~= events.take(n));
        lemma_totals_error(sums, events, n + 1);
    } else {
        assert(events.take(n) =~= events);
    }
}

/// Devices and edges of a report whose totals stay in range.
fn run_events(
    devices: &mut Vec<HeldDevice>,
    totals: Totals,
    report: &RawReport,
) -> (edges: Vec<Edge>)
    requires
        stations_wf(stations(old(devices)@)),
        totals is Raw,
        report.is_valid(),
        totals_error(sums_of(totals), report.events@) is None,
    ensures
        stations_wf(stations(final(devices)@)),
        (Pass { devices: stations(final(devices)@), edges: edges@ }) == pass_events(
            stations(old(devices)@),
            sums_of(totals),
            report.device,
            report.events@,
        ),
{
    let mut edges: Vec<Edge> = Vec::new();
    let mut now: Totals = totals;
    let ghost start = sums_of(totals);
    let ghost first = stations(devices@);
    let ghost events = report.events@;
    for i in 0..report.events.len()
        invariant
            report.is_valid(),
            events == report.events@,
            start == sums_of(totals),
            totals_error(start, events) is None,
            now is Raw,
            sums_of(now) == moved_by(start, events.take(i as int)),
            stations_wf(stations(devices@)),
            (Pass { devices: stations(devices@), edges: edges@ }) == pass_events(
                first,
                start,
                report.device,
                events.take(i as int),
            ),
    {
        let event = report.events[i];
        proof {
            assert(events.take(i + 1).drop_last() =~= events.take(i as int));
            assert(events.take(i + 1).last() == event);
            if totals_error(start, events.take(i + 1)) is Some {
                lemma_totals_error(start, events, i + 1);
            }
            assert(crate::input::valid_event(events[i as int], events.len() as int));
        }
        match step_totals(now, event) {
            Ok(after) => {
                now = after;
            },
            Err(_) => {
                assert(false);
            },
        }
        match event {
            RawEvent::Key { code, pressed } => {
                pass_held_code(devices, &mut edges, report.device, code as u32, pressed, now);
            },
            RawEvent::Button { number, pressed } => {
                pass_held_code(
                    devices,
                    &mut edges,
                    report.device,
                    BUTTON_BASE + number as u32,
                    pressed,
                    now,
                );
            },
            RawEvent::Removed => {
                remove_device(devices, &mut edges, report.device, now);
            },
            _ => {},
        }
    }
    assert(events.take(events.len() as int) =~= events);
    edges
}

pub struct Sender {
    pub mode: InputMode,
    pub devices: Vec<HeldDevice>,
    pub position: Option<Position>,
    pub pending: VecDeque<Transition>,
    pub serial: u64,
    pub next_transition: u64,
}

/// What a sender holds.
pub ghost struct Sending {
    pub mode: InputMode,
    pub devices: Seq<Station>,
    pub position: Option<Position>,
    pub pending: Seq<Transition>,
    pub serial: u64,
    pub next_transition: u64,
}

impl View for Sender {
    type V = Sending;

    open spec fn view(&self) -> Sending {
        Sending {
            mode: self.mode,
            devices: stations(self.devices@),
            position: self.position,
            pending: self.pending@,
            serial: self.serial,
            next_transition: self.next_transition,
        }
    }
}

impl Sending {
    /// The journal holds the latest edges, numbered without a gap, and every total is of
    /// the sender's input mode.
    pub open spec fn wf(self) -> bool {
        &&& stations_wf(self.devices)
        &&& self.pending.len() <= MAX_TRANSITIONS
        &&& self.pending.len() <= self.next_transition
        &&& forall|i: int|
            0 <= i < self.pending.len() ==> (#[trigger] self.pending[i]).id
                == self.next_transition - self.pending.len() + i
        &&& self.position matches Some(p) ==> p.totals.is_of(self.mode)
    }

    /// The totals so far.
    pub open spec fn totals(self) -> Totals {
        match self.position {
            Some(p) => p.totals,
            None => Totals::none(self.mode),
        }
    }

    /// The journal with some edges more, at a new position.
    pub open spec fn advanced(
        self,
        edges: Seq<Edge>,
        totals: Totals,
        captured_us: u64,
    ) -> Sending {
        let serial = (self.serial + 1) as u64;
        let next = (self.next_transition + edges.len()) as u64;
        Sending {
            pending: self.pending + numbered(
                edges,
                serial,
                captured_us,
                self.next_transition as int,
            ),
            serial,
            next_transition: next,
            position: Some(Position { serial, captured_us, totals, barrier: next }),
            ..self
        }
    }

    /// Why a journal cannot take some edges more.
    pub open spec fn journal_error(self, count: int) -> Option<InputError> {
        if self.pending.len() + count > MAX_TRANSITIONS {
            Some(InputError::JournalFull)
        } else if self.next_transition + count > u64::MAX {
            Some(InputError::SequenceExhausted)
        } else {
            None
        }
    }

    /// What a raw report does.
    pub open spec fn after_report(self, report: RawReport) -> Result<Sending, InputError> {
        let sums = sums_of(self.totals());
        let events = report.events@;
        if !(self.mode is Raw) {
            Err(InputError::RawInDesktopMode)
        } else if !report.is_valid() {
            Err(InputError::InvalidReport)
        } else if self.serial == u64::MAX {
            Err(InputError::SerialExhausted)
        } else if totals_error(sums, events) is Some {
            Err(totals_error(sums, events)->0)
        } else if seat(self.devices, report.device) == self.devices.len() && self.devices.len()
            == MAX_DEVICES {
            Err(InputError::TooManyDevices)
        } else {
            let pass = pass_events(
                known(self.devices, report.device, events),
                sums,
                report.device,
                events,
            );
            match self.journal_error(pass.edges.len() as int) {
                Some(e) => Err(e),
                None => Ok(
                    Sending {
                        devices: pass.devices,
                        ..self.advanced(
                            pass.edges,
                            raw_totals(moved_by(sums, events)),
                            report.captured_us,
                        )
                    },
                ),
            }
        }
    }

    /// What a desktop event does.
    pub open spec fn after_event(self, event: InputEvent, captured_us: u64) -> Result<
        Sending,
        InputError,
    > {
        if !(self.mode is Desktop) {
            Err(InputError::DesktopInRawMode)
        } else if self.serial == u64::MAX {
            Err(InputError::SerialExhausted)
        } else {
            match desktop_moved(self.totals(), event) {
                Err(e) => Err(e),
                Ok(totals) => {
                    let edges = if is_desktop_edge(event) {
                        seq![Edge { totals, event }]
                    } else {
                        Seq::empty()
                    };
                    if is_desktop_edge(event) && self.journal_error(1) is Some {
                        Err(self.journal_error(1)->0)
                    } else {
                        Ok(self.advanced(edges, totals, captured_us))
                    }
                },
            }
        }
    }
}

/// Events that are issued as edges.
pub open spec fn is_desktop_edge(event: InputEvent) -> bool {
    event is Key || event is Button || event is ScrollStop
}

/// Desktop totals after an event.
pub open spec fn desktop_moved(totals: Totals, event: InputEvent) -> Result<Totals, InputError> {
    match totals {
        Totals::Desktop { x, y, scroll_x, scroll_y, wheel_x, wheel_y } => match event {
            InputEvent::Motion { dx, dy } => if fits(x + dx) && fits(y + dy) {
                Ok(
                    Totals::Desktop {
                        x: (x + dx) as i64,
                        y: (y + dy) as i64,
                        scroll_x,
                        scroll_y,
                        wheel_x,
                        wheel_y,
                    },
                )
            } else {
                Err(InputError::DesktopTotalOverflow)
            },
            InputEvent::ScrollPixels { dx, dy } => if fits(scroll_x + dx) && fits(scroll_y + dy) {
                Ok(
                    Totals::Desktop {
                        x,
                        y,
                        scroll_x: (scroll_x + dx) as i64,
                        scroll_y: (scroll_y + dy) as i64,
                        wheel_x,
                        wheel_y,
                    },
                )
            } else {
                Err(InputError::DesktopTotalOverflow)
            },
            InputEvent::Scroll120 { dx, dy } => if !fits(wheel_x + dx) {
                Err(InputError::DesktopWheelXOverflow)
            } else if !fits(wheel_y + dy) {
                Err(InputError::DesktopWheelYOverflow)
            } else {
                Ok(
                    Totals::Desktop {
                        x,
                        y,
                        scroll_x,
                        scroll_y,
                        wheel_x: (wheel_x + dx) as i64,
                        wheel_y: (wheel_y + dy) as i64,
                    },
                )
            },
            InputEvent::Key { code, .. } => if 1 <= code <= 0x2ff {
                Ok(totals)
            } else {
                Err(InputError::UnsupportedKey)
            },
            _ => Ok(totals),
        },
        Totals::Raw { .. } => Ok(totals),
    }
}

fn desktop_totals_after(totals: Totals, event: InputEvent) -> (r: Result<Totals, InputError>)
    ensures
        r == desktop_moved(totals, event),
{
    match totals {
        Totals::Desktop { x, y, scroll_x, scroll_y, wheel_x, wheel_y } => match event {
            InputEvent::Motion { dx, dy } => match (x.checked_add(dx), y.checked_add(dy)) {
                (Some(x), Some(y)) => Ok(
                    Totals::Desktop { x, y, scroll_x, scroll_y, wheel_x, wheel_y },
                ),
                _ => Err(InputError::DesktopTotalOverflow),
            },
            InputEvent::ScrollPixels { dx, dy } => match (
                scroll_x.checked_add(dx),
                scroll_y.checked_add(dy),
            ) {
                (Some(scroll_x), Some(scroll_y)) => Ok(
                    Totals::Desktop { x, y, scroll_x, scroll_y, wheel_x, wheel_y },
                ),
                _ => Err(InputError::DesktopTotalOverflow),
            },
            InputEvent::Scroll120 { dx, dy } => {
                let Some(wheel_x) = add_motion(wheel_x, dx) else {
                    return Err(InputError::DesktopWheelXOverflow);
                };
                let Some(wheel_y) = add_motion(wheel_y, dy) else {
                    return Err(InputError::DesktopWheelYOverflow);
                };
                Ok(Totals::Desktop { x, y, scroll_x, scroll_y, wheel_x, wheel_y })
            },
            InputEvent::Key { code, .. } => if code < 1 || code > 0x2ff {
                Err(InputError::UnsupportedKey)
            } else {
                Ok(totals)
            },
            _ => Ok(totals),
        },
        Totals::Raw { .. } => Ok(totals),
    }
}

impl Sender {
    pub fn new(mode: InputMode) -> (r: Self)
        ensures
            r@ == (Sending {
                mode,
                devices: Seq::empty(),
                position: None,
                pending: Seq::empty(),
                serial: 0,
                next_transition: 0,
            }),
            r@.wf(),
    {
        let r = Sender {
            mode,
            devices: Vec::new(),
            position: None,
            pending: VecDeque::new(),
            serial: 0,
            next_transition: 0,
        };
        assert(r@.devices =~= Seq::empty());
        r
    }

    fn totals(&self) -> (r: Totals)
        ensures
            r == self@.totals(),
    {
        match &self.position {
            Some(position) => position.totals,
            None => Totals::zero(self.mode),
        }
    }

    /// Takes the edges into the journal and moves to a new position.
    fn advance(&mut self, edges: &Vec<Edge>, totals: Totals, captured_us: u64)
        requires
            old(self)@.wf(),
            old(self).serial < u64::MAX,
            old(self)@.journal_error(edges@.len() as int) is None,
            totals.is_of(old(self).mode),
        ensures
            final(self)@ == old(self)@.advanced(edges@, totals, captured_us),
            final(self)@.wf(),
    {
        let serial: u64 = self.serial + 1;
        let ghost before = self@;
        let ghost fresh = numbered(edges@, serial, captured_us, before.next_transition as int);
        for i in 0..edges.len()
            invariant
                self@ == (Sending {
                    pending: before.pending + fresh.take(i as int),
                    next_transition: (before.next_transition + i) as u64,
                    ..before
                }),
                fresh == numbered(edges@, serial, captured_us, before.next_transition as int),
                before.next_transition + edges@.len() <= u64::MAX,
        {
            let id: u64 = self.next_transition;
            let edge = edges[i];
            self.pending.push_back(
                Transition {
                    id,
                    position: Position { serial, captured_us, totals: edge.totals, barrier: id },
                    event: edge.event,
                },
            );
            self.next_transition = id + 1;
            assert(self@.pending =~= before.pending + fresh.take(i + 1));
        }
        assert(fresh.take(fresh.len() as int) =~= fresh);
        self.serial = serial;
        self.position = Some(
            Position { serial, captured_us, totals, barrier: self.next_transition },
        );
    }

    /// Takes a report of a raw device; a refused report changes nothing.
    pub fn push_raw(&mut self, report: &RawReport) -> (r: Result<(), InputError>)
        requires
            old(self)@.wf(),
        ensures
            final(self)@.wf(),
            match r {
                Ok(_) => old(self)@.after_report(*report) == Ok::<Sending, InputError>(final(self)@),
                Err(e) => old(self)@.after_report(*report) == Err::<Sending, InputError>(e)
                    && final(self)@ == old(self)@,
            },
    {
        if self.mode != InputMode::Raw {
            return Err(InputError::RawInDesktopMode);
        }
        if !report.validate() {
            return Err(InputError::InvalidReport);
        }
        if self.serial == u64::MAX {
            return Err(InputError::SerialExhausted);
        }
        let before: Totals = self.totals();
        let totals: Totals = match raw_totals_after(before, &report.events) {
            Ok(totals) => totals,
            Err(e) => {
                return Err(e);
            },
        };
        if find_device(&self.devices, report.device) == self.devices.len() && self.devices.len()
            == MAX_DEVICES {
            return Err(InputError::TooManyDevices);
        }
        let mut devices = copy_devices(&self.devices);
        let removed: bool = report.events.len() == 1 && matches!(report.events[0], RawEvent::Removed);
        if !removed {
            seat_device(&mut devices, report.device);
        }
        let edges = run_events(&mut devices, before, report);
        let count: usize = edges.len();
        if count > MAX_TRANSITIONS - self.pending.len() {
            return Err(InputError::JournalFull);
        }
        if count as u64 > u64::MAX - self.next_transition {
            return Err(InputError::SequenceExhausted);
        }
        self.advance(&edges, totals, report.captured_us);
        self.devices = devices;
        Ok(())
    }

    /// Takes a desktop event; a refused event changes nothing.
    pub fn push_desktop(&mut self, event: InputEvent, captured_us: u64) -> (r: Result<
        (),
        InputError,
    >)
        requires
            old(self)@.wf(),
        ensures
            final(self)@.wf(),
            match r {
                Ok(_) => old(self)@.after_event(event, captured_us) == Ok::<Sending, InputError>(
                    final(self)@,
                ),
                Err(e) => old(self)@.after_event(event, captured_us) == Err::<Sending, InputError>(e)
                    && final(self)@ == old(self)@,
            },
    {
        if self.mode != InputMode::Desktop {
            return Err(InputError::DesktopInRawMode);
        }
        if self.serial == u64::MAX {
            return Err(InputError::SerialExhausted);
        }
        let totals: Totals = match desktop_totals_after(self.totals(), event) {
            Ok(totals) => totals,
            Err(e) => {
                return Err(e);
            },
        };
        let edge: bool = match event {
            InputEvent::Key { .. } => true,
            InputEvent::Button { .. } => true,
            InputEvent::ScrollStop { .. } => true,
            _ => false,
        };
        let mut edges: Vec<Edge> = Vec::new();
        if edge {
            if self.pending.len() >= MAX_TRANSITIONS {
                return Err(InputError::JournalFull);
            }
            if self.next_transition == u64::MAX {
                return Err(InputError::SequenceExhausted);
            }
            edges.push(Edge { totals, event });
            assert(edges@ =~= seq![Edge { totals, event }]);
        } else {
            assert(edges@ =~= Seq::empty());
        }
        self.advance(&edges, totals, captured_us);
        Ok(())
    }

    pub fn position(&self) -> (r: Option<&Position>)
        ensures
            match r {
                Some(p) => self@.position == Some(*p),
                None => self@.position is None,
            },
    {
        self.position.as_ref()
    }

    pub fn pending(&self) -> (r: &VecDeque<Transition>)
        ensures
            r@ == self@.pending,
    {
        &self.pending
    }

    /// Drops the edges before `next`, and no other.
    pub fn acknowledge(&mut self, next: u64) -> (r: Result<(), InputError>)
        requires
            old(self)@.wf(),
        ensures
            final(self)@.wf(),
            r == if next > old(self)@.next_transition {
                Err::<(), InputError>(InputError::AcknowledgementAhead)
            } else {
                Ok(())
            },
            final(self)@ == old(self)@.acknowledged(next),
    {
        let ghost before = self@;
        let ghost dropped: int = 0;
        proof {
            assert(before.pending.skip(0) =~= before.pending);
        }
        if next > self.next_transition {
            return Err(InputError::AcknowledgementAhead);
        }
        while self.pending.len() > 0 && self.pending[0].id < next
            invariant
                before.wf(),
                next <= before.next_transition,
                0 <= dropped <= before.pending.len(),
                self@ == (Sending { pending: before.pending.skip(dropped), ..before }),
                dropped > 0 ==> before.next_transition - before.pending.len() + dropped <= next,
            ensures
                before.wf(),
                0 <= dropped <= before.pending.len(),
                self@ == (Sending { pending: before.pending.skip(dropped), ..before }),
                dropped > 0 ==> before.next_transition - before.pending.len() + dropped <= next,
                dropped < before.pending.len() ==> before.pending[dropped].id >= next,
            decreases self.pending@.len(),
        {
            assert(self.pending@[0] == before.pending[dropped]);
            self.pending.pop_front();
            proof {
                dropped = dropped + 1;
                assert(self.pending@ =~= before.pending.skip(dropped));
            }
        }
        Ok(())
    }
}

impl Sending {
    /// Acknowledged edges that the journal still holds.
    pub open spec fn settled(self, next: u64) -> int {
        let first = self.next_transition - self.pending.len();
        if next > self.next_transition || next <= first {
            0
        } else {
            next - first
        }
    }

    pub open spec fn acknowledged(self, next: u64) -> Sending {
        Sending { pending: self.pending.skip(self.settled(next)), ..self }
    }
}

} // verus!
