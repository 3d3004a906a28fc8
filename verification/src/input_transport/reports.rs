//! What a report of a raw device brings about, whatever other devices do.

use super::receiver::{emitted_edge, Emitted};
use super::sender::{
    code_event, held_anywhere, known, lemma_known, moved_by, pass_code, pass_events, raw_totals,
    seat, seated, sums_of, turned, Pass, Sending, Station,
};
use super::state::{edge_error, Totals};
use crate::codes::{lemma_with_code, lemma_without_code};
use crate::input::{number_of, InputEvent, InputMode, PointerButton, RawEvent, RawReport};
use vstd::prelude::*;

verus! {

/// Some device other than one holds a code.
pub open spec fn held_elsewhere(devices: Seq<Station>, device: u64, code: u32) -> bool {
    exists|i: int|
        0 <= i < devices.len() && (#[trigger] devices[i]).device != device
            && devices[i].held.contains(code)
}

proof fn lemma_seated_holds(devices: Seq<Station>, device: u64, code: u32)
    ensures
        held_anywhere(seated(devices, device), code) == held_anywhere(devices, code),
        held_elsewhere(seated(devices, device), device, code) == held_elsewhere(
            devices,
            device,
            code,
        ),
{
    let after = seated(devices, device);
    if held_anywhere(devices, code) {
        let i = choose|i: int|
            0 <= i < devices.len() && (#[trigger] devices[i]).held.contains(code);
        assert(after[i].held.contains(code));
    }
    if held_anywhere(after, code) {
        let i = choose|i: int| 0 <= i < after.len() && (#[trigger] after[i]).held.contains(code);
        assert(i < devices.len());
        assert(devices[i].held.contains(code));
    }
    if held_elsewhere(devices, device, code) {
        let i = choose|i: int|
            0 <= i < devices.len() && (#[trigger] devices[i]).device != device
                && devices[i].held.contains(code);
        assert(after[i].device != device);
    }
    if held_elsewhere(after, device, code) {
        let i = choose|i: int|
            0 <= i < after.len() && (#[trigger] after[i]).device != device
                && after[i].held.contains(code);
        assert(devices[i].device != device);
    }
}

proof fn lemma_found(devices: Seq<Station>, device: u64)
    ensures
        0 <= seat(devices, device) <= devices.len(),
        seat(devices, device) < devices.len() ==> devices[seat(devices, device)].device == device,
    decreases devices.len(),
{
    if devices.len() > 0 && devices[0].device != device {
        lemma_found(devices.skip(1), device);
    }
}

proof fn lemma_turned_holds(devices: Seq<Station>, device: u64, code: u32, pressed: bool)
    requires
        super::sender::stations_wf(devices),
        seat(devices, device) < devices.len(),
    ensures
        held_anywhere(turned(devices, device, code, pressed), code) == (pressed || held_elsewhere(
            devices,
            device,
            code,
        )),
{
    lemma_found(devices, device);
    let at = seat(devices, device);
    let after = turned(devices, device, code, pressed);
    lemma_with_code(devices[at].held, code);
    lemma_without_code(devices[at].held, code);
    assert(after[at].held.contains(code) == pressed);
    if held_elsewhere(devices, device, code) {
        let i = choose|i: int|
            0 <= i < devices.len() && (#[trigger] devices[i]).device != device
                && devices[i].held.contains(code);
        assert(after[i].held.contains(code));
    }
    if held_anywhere(after, code) && !pressed {
        let i = choose|i: int| 0 <= i < after.len() && (#[trigger] after[i]).held.contains(code);
        assert(i != at);
        assert(devices[i].device != devices[at].device);
    }
}

/// The code of a key or button, and whether it goes down.
pub open spec fn turn_of(event: RawEvent) -> Option<(u32, bool)> {
    match event {
        RawEvent::Key { code, pressed } => Some((code as u32, pressed)),
        RawEvent::Button { number, pressed } => Some(((0x1_0000 + number) as u32, pressed)),
        _ => None,
    }
}

/// A key or button that several devices share goes down once and up once: pressing it issues
/// an edge exactly where no device held it before, and letting go of it exactly where this
/// device held it and no other one does. The edge is the press or release itself, at the
/// latest totals and dated by the report.
pub proof fn a_shared_key_goes_down_once(state: Sending, report: RawReport, after: Sending)
    requires
        state.wf(),
        report.events@.len() == 1,
        turn_of(report.events@[0]) is Some,
        state.after_report(report) == Ok::<Sending, super::state::InputError>(after),
    ensures
        ({
            let (code, pressed) = turn_of(report.events@[0])->0;
            let was = held_anywhere(state.devices, code);
            let elsewhere = held_elsewhere(state.devices, report.device, code);
            let goes = if pressed {
                !was
            } else {
                was && !elsewhere
            };
            &&& held_anywhere(after.devices, code) == (pressed || elsewhere)
            &&& !goes ==> after.pending == state.pending
            &&& goes ==> {
                &&& after.pending.len() == state.pending.len() + 1
                &&& after.pending.drop_last() == state.pending
                &&& after.pending.last().event == code_event(code, pressed)
                &&& report.events@[0] is Key ==> after.pending.last().event == (InputEvent::Key {
                    code,
                    pressed,
                })
                &&& report.events@[0] is Button ==> (after.pending.last().event
                    matches InputEvent::Button { button: _, pressed: down } && down == pressed)
                &&& after.pending.last().id == state.next_transition
                &&& after.pending.last().position.captured_us == report.captured_us
            }
            &&& after.position->0.totals == state.totals()
            &&& after.position->0.captured_us == report.captured_us
        }),
{
    let events = report.events@;
    let sums = sums_of(state.totals());
    let first = known(state.devices, report.device, events);
    let (code, pressed) = turn_of(events[0])->0;
    lemma_known(state.devices, report.device, events);
    assert(first == seated(state.devices, report.device));
    let none = events.drop_last();
    assert(none.len() == 0);
    assert(events.last() == events[0]);
    let start = pass_events(first, sums, report.device, none);
    assert(start == Pass { devices: first, edges: Seq::empty() });
    assert(moved_by(sums, none) == sums);
    assert(moved_by(sums, events) == sums);
    let totals = raw_totals(sums);
    assert(pass_events(first, sums, report.device, events) == pass_code(
        start,
        report.device,
        code,
        pressed,
        totals,
    ));
    assert(seated(first, report.device) == first) by {
        lemma_found(state.devices, report.device);
        lemma_last_seat(state.devices, report.device);
    }
    lemma_last_seat(state.devices, report.device);
    lemma_seated_holds(state.devices, report.device, code);
    lemma_turned_holds(first, report.device, code, pressed);
    if held_elsewhere(first, report.device, code) {
        let i = choose|i: int|
            0 <= i < first.len() && (#[trigger] first[i]).device != report.device
                && first[i].held.contains(code);
        assert(first[i].held.contains(code));
    }
    let pass = pass_events(first, sums, report.device, events);
    if pass.edges.len() == 0 {
        assert(after.pending =~= state.pending);
    } else {
        assert(after.pending.drop_last() =~= state.pending);
    }
}

proof fn lemma_last_seat(devices: Seq<Station>, device: u64)
    ensures
        seat(seated(devices, device), device) < seated(devices, device).len(),
    decreases devices.len(),
{
    lemma_found(devices, device);
    let after = seated(devices, device);
    lemma_found(after, device);
    if seat(devices, device) == devices.len() {
        lemma_seat_pushed(devices, device);
    }
}

proof fn lemma_seat_pushed(devices: Seq<Station>, device: u64)
    requires
        seat(devices, device) == devices.len(),
    ensures
        seat(devices.push(Station { device, held: Seq::empty() }), device) == devices.len(),
    decreases devices.len(),
{
    let all = devices.push(Station { device, held: Seq::empty() });
    if devices.len() > 0 {
        lemma_seat_pushed(devices.skip(1), device);
        assert(all.skip(1) =~= devices.skip(1).push(Station { device, held: Seq::empty() }));
        assert(all[0] == devices[0]);
    }
}

/// Raw motion and wheel add up: a report of either moves the totals by just as much, issues no
/// edge and leaves what is held alone.
pub proof fn raw_motion_adds_up(state: Sending, report: RawReport, after: Sending)
    requires
        state.wf(),
        report.events@.len() == 1,
        report.events@[0] is Motion || report.events@[0] is Wheel,
        state.after_report(report) == Ok::<Sending, super::state::InputError>(after),
    ensures
        after.pending == state.pending,
        after.position->0.captured_us == report.captured_us,
        after.serial == state.serial + 1,
        ({
            let before = sums_of(state.totals());
            match report.events@[0] {
                RawEvent::Motion { x, y } => after.position->0.totals == (Totals::Raw {
                    x: (before.x + x) as i64,
                    y: (before.y + y) as i64,
                    wheel_x: before.wheel_x as i64,
                    wheel_y: before.wheel_y as i64,
                }) && i64::MIN <= before.x + x <= i64::MAX && i64::MIN <= before.y + y <= i64::MAX,
                RawEvent::Wheel { x120, y120 } => after.position->0.totals == (Totals::Raw {
                    x: before.x as i64,
                    y: before.y as i64,
                    wheel_x: (before.wheel_x + x120) as i64,
                    wheel_y: (before.wheel_y + y120) as i64,
                }),
                _ => true,
            }
        }),
{
    let events = report.events@;
    let sums = sums_of(state.totals());
    let first = known(state.devices, report.device, events);
    let none = events.drop_last();
    assert(none.len() == 0);
    assert(events.last() == events[0]);
    assert(moved_by(sums, none) == sums);
    let start = pass_events(first, sums, report.device, none);
    assert(pass_events(first, sums, report.device, events) == start);
    assert(after.pending =~= state.pending);
}

/// An edge that raw input may carry comes out as the same key or button, pressed or released as
/// it was, and two buttons never come out as one.
pub proof fn a_raw_edge_comes_out_as_it_went_in(
    code: u32,
    button: PointerButton,
    other: PointerButton,
    pressed: bool,
)
    ensures
        edge_error(InputMode::Raw, InputEvent::Key { code, pressed }) is None ==> (emitted_edge(
            InputMode::Raw,
            InputEvent::Key { code, pressed },
        ) matches Emitted::Raw(RawEvent::Key { code: c, pressed: p }) && c == code && p == pressed),
        edge_error(InputMode::Raw, InputEvent::Button { button, pressed }) is None ==> (
        emitted_edge(
            InputMode::Raw,
            InputEvent::Button { button, pressed },
        ) matches Emitted::Raw(RawEvent::Button { number, pressed: p }) && 1 <= number <= 8 && p
            == pressed),
        number_of(button) is Some && number_of(button) == number_of(other) ==> button == other,
        number_of(PointerButton::Left) == Some(1u8),
        number_of(PointerButton::Right) == Some(2u8),
        number_of(PointerButton::Middle) == Some(3u8),
        emitted_edge(InputMode::Desktop, InputEvent::Key { code, pressed }) == Emitted::Desktop(
            InputEvent::Key { code, pressed },
        ),
        emitted_edge(InputMode::Desktop, InputEvent::Button { button, pressed })
            == Emitted::Desktop(InputEvent::Button { button, pressed }),
{
}

} // verus!
