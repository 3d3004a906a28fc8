//! What a sender and a receiver keep together.

use super::receiver::{
    delta, desktop_motion, desktop_scroll, desktop_wheel, emitted_edge, filled, lemma_past,
    lemma_taking, pieces, pieces_add_up, raw_motion, raw_wheel, stamped, sum_x, sum_y, Emitted,
    Outcome, Reception, Stamped,
};
use super::sender::{
    known, moved_by, pass_events, raw_totals, sums_of, Edge, Sending, Station, Sums,
};
use super::state::{edge_error, position_error, Position, Totals, Transition, MAX_TRANSITIONS};
use crate::input::{InputEvent, InputMode, RawEvent, RawReport};
use vstd::prelude::*;

verus! {

/// Everything moved and scrolled, in either input mode.
pub ghost struct Travel {
    pub x: int,
    pub y: int,
    pub scroll_x: int,
    pub scroll_y: int,
    pub wheel_x: int,
    pub wheel_y: int,
}

pub open spec fn travel_of(totals: Totals) -> Travel {
    match totals {
        Totals::Raw { x, y, wheel_x, wheel_y } => Travel {
            x: x as int,
            y: y as int,
            scroll_x: 0,
            scroll_y: 0,
            wheel_x: wheel_x as int,
            wheel_y: wheel_y as int,
        },
        Totals::Desktop { x, y, scroll_x, scroll_y, wheel_x, wheel_y } => Travel {
            x: x as int,
            y: y as int,
            scroll_x: scroll_x as int,
            scroll_y: scroll_y as int,
            wheel_x: wheel_x as int,
            wheel_y: wheel_y as int,
        },
    }
}

/// Travel after one more event.
pub open spec fn travelled(from: Travel, event: Emitted) -> Travel {
    match event {
        Emitted::Raw(RawEvent::Motion { x, y }) => Travel { x: from.x + x, y: from.y + y, ..from },
        Emitted::Raw(RawEvent::Wheel { x120, y120 }) => Travel {
            wheel_x: from.wheel_x + x120,
            wheel_y: from.wheel_y + y120,
            ..from
        },
        Emitted::Desktop(InputEvent::Motion { dx, dy }) => Travel {
            x: from.x + dx,
            y: from.y + dy,
            ..from
        },
        Emitted::Desktop(InputEvent::ScrollPixels { dx, dy }) => Travel {
            scroll_x: from.scroll_x + dx,
            scroll_y: from.scroll_y + dy,
            ..from
        },
        Emitted::Desktop(InputEvent::Scroll120 { dx, dy }) => Travel {
            wheel_x: from.wheel_x + dx,
            wheel_y: from.wheel_y + dy,
            ..from
        },
        _ => from,
    }
}

/// Travel after a list of events.
pub open spec fn journey(from: Travel, events: Seq<Stamped>) -> Travel
    decreases events.len(),
{
    if events.len() == 0 {
        from
    } else {
        travelled(journey(from, events.drop_last()), events.last().event)
    }
}

pub proof fn lemma_journey_concat(from: Travel, one: Seq<Stamped>, two: Seq<Stamped>)
    ensures
        journey(from, one + two) == journey(journey(from, one), two),
    decreases two.len(),
{
    if two.len() == 0 {
        assert(one + two =~= one);
    } else {
        lemma_journey_concat(from, one, two.drop_last());
        assert((one + two).drop_last() =~= one + two.drop_last());
    }
}

proof fn lemma_raw_motion(from: Travel, parts: Seq<(i32, i32)>, position: Position)
    ensures
        journey(from, stamped(raw_motion(parts), position)) == (Travel {
            x: from.x + sum_x(parts),
            y: from.y + sum_y(parts),
            ..from
        }),
    decreases parts.len(),
{
    let events = stamped(raw_motion(parts), position);
    if parts.len() > 0 {
        lemma_raw_motion(from, parts.drop_last(), position);
        assert(events.drop_last() =~= stamped(raw_motion(parts.drop_last()), position));
    }
}

proof fn lemma_raw_wheel(from: Travel, parts: Seq<(i32, i32)>, position: Position)
    ensures
        journey(from, stamped(raw_wheel(parts), position)) == (Travel {
            wheel_x: from.wheel_x + sum_x(parts),
            wheel_y: from.wheel_y + sum_y(parts),
            ..from
        }),
    decreases parts.len(),
{
    let events = stamped(raw_wheel(parts), position);
    if parts.len() > 0 {
        lemma_raw_wheel(from, parts.drop_last(), position);
        assert(events.drop_last() =~= stamped(raw_wheel(parts.drop_last()), position));
    }
}

proof fn lemma_desktop_wheel(from: Travel, parts: Seq<(i32, i32)>, position: Position)
    ensures
        journey(from, stamped(desktop_wheel(parts), position)) == (Travel {
            wheel_x: from.wheel_x + sum_x(parts),
            wheel_y: from.wheel_y + sum_y(parts),
            ..from
        }),
    decreases parts.len(),
{
    let events = stamped(desktop_wheel(parts), position);
    if parts.len() > 0 {
        lemma_desktop_wheel(from, parts.drop_last(), position);
        assert(events.drop_last() =~= stamped(desktop_wheel(parts.drop_last()), position));
    }
}

proof fn lemma_delta_travel(from: Totals, to: Position)
    requires
        delta(from, to.totals) is Ok,
    ensures
        journey(travel_of(from), stamped(delta(from, to.totals)->Ok_0, to)) == travel_of(to.totals),
{
    let start = travel_of(from);
    match (from, to.totals) {
        (
            Totals::Raw { x, y, wheel_x, wheel_y },
            Totals::Raw { x: tx, y: ty, wheel_x: twx, wheel_y: twy },
        ) => {
            let motion = pieces(tx - x, ty - y);
            let wheel = pieces(twx - wheel_x, twy - wheel_y);
            pieces_add_up(tx - x, ty - y);
            pieces_add_up(twx - wheel_x, twy - wheel_y);
            let one = stamped(raw_motion(motion), to);
            let two = stamped(raw_wheel(wheel), to);
            assert(stamped(raw_motion(motion) + raw_wheel(wheel), to) =~= one + two);
            lemma_journey_concat(start, one, two);
            lemma_raw_motion(start, motion, to);
            lemma_raw_wheel(journey(start, one), wheel, to);
        },
        (
            Totals::Desktop { x, y, scroll_x, scroll_y, wheel_x, wheel_y },
            Totals::Desktop {
                x: tx,
                y: ty,
                scroll_x: tsx,
                scroll_y: tsy,
                wheel_x: twx,
                wheel_y: twy,
            },
        ) => {
            let motion = desktop_motion(tx - x, ty - y);
            let scroll = desktop_scroll(tsx - scroll_x, tsy - scroll_y);
            let wheel = pieces(twx - wheel_x, twy - wheel_y);
            pieces_add_up(twx - wheel_x, twy - wheel_y);
            let one = stamped(motion, to);
            let two = stamped(scroll, to);
            let three = stamped(desktop_wheel(wheel), to);
            assert(stamped(motion + scroll + desktop_wheel(wheel), to) =~= one + two + three);
            lemma_journey_concat(start, one, two);
            lemma_journey_concat(start, one + two, three);
            assert(journey(start, one) == (Travel { x: tx as int, y: ty as int, ..start })) by {
                reveal_with_fuel(journey, 2);
                if motion.len() > 0 {
                    assert(one.drop_last() =~= Seq::empty());
                }
            }
            let mid = journey(start, one);
            assert(journey(mid, two) == (Travel {
                scroll_x: tsx as int,
                scroll_y: tsy as int,
                ..mid
            })) by {
                reveal_with_fuel(journey, 2);
                if scroll.len() > 0 {
                    assert(two.drop_last() =~= Seq::empty());
                }
            }
            lemma_desktop_wheel(journey(mid, two), wheel, to);
        },
        _ => {},
    }
}

proof fn lemma_drained_travel(state: Reception, events: Seq<Stamped>, from: Travel)
    requires
        state.wf(),
        journey(from, events) == travel_of(state.totals),
    ensures
        ({
            let outcome = state.drained(events);
            outcome.error is None ==> outcome.state.wf() && journey(from, outcome.events)
                == travel_of(outcome.state.totals)
        }),
    decreases state.buffered.len(),
{
    if state.buffered.contains_key(state.next_transition) {
        let edge = state.buffered[state.next_transition];
        assert(state.waits(state.next_transition));
        let without = state.without_next();
        match without.moved_to(edge.position) {
            Ok(there) => {
                lemma_past(state, there);
                let motion = state.motion_to(edge.position);
                let last = Stamped {
                    serial: edge.position.serial,
                    captured_us: edge.position.captured_us,
                    event: emitted_edge(state.mode, edge.event),
                };
                let after = (events + motion).push(last);
                lemma_delta_travel(state.totals, edge.position);
                lemma_journey_concat(from, events, motion);
                assert(after.drop_last() =~= events + motion);
                lemma_drained_travel(there.past(edge), after, from);
            },
            Err(_) => {},
        }
    }
}

/// What an accepted update lets out leads exactly from the totals before it to the totals
/// after it: no motion is lost, and none is made twice.
pub proof fn delivered_motion_adds_up(
    state: Reception,
    position: Position,
    transitions: Seq<Transition>,
)
    requires
        state.wf(),
        state.received(position, transitions).error is None,
    ensures
        ({
            let outcome = state.received(position, transitions);
            journey(travel_of(state.totals), outcome.events) == travel_of(outcome.state.totals)
        }),
{
    let from = travel_of(state.totals);
    lemma_taking(state, position, transitions);
    let taking = state.taking(position, transitions);
    lemma_drained_travel(taking, Seq::empty(), from);
    let drained = taking.drained(Seq::empty());
    let mid = drained.state;
    if mid.latest_position is Some && mid.due(mid.latest_position->0) {
        let newest = mid.latest_position->0;
        lemma_delta_travel(mid.totals, newest);
        lemma_journey_concat(from, drained.events, mid.motion_to(newest));
    }
}

/// What draining keeps.
pub proof fn lemma_drained_progress(state: Reception, events: Seq<Stamped>)
    requires
        state.wf(),
    ensures
        ({
            let outcome = state.drained(events);
            &&& outcome.state.wf()
            &&& outcome.state.mode == state.mode
            &&& outcome.state.latest_position == state.latest_position
            &&& outcome.state.next_transition >= state.next_transition
            &&& outcome.state.applied_serial >= state.applied_serial
            &&& outcome.state.applied_barrier >= state.applied_barrier
            &&& outcome.error is None ==> !outcome.state.buffered.contains_key(
                outcome.state.next_transition,
            )
            &&& forall|id: u64| #[trigger]
                outcome.state.buffered.contains_key(id) ==> state.buffered.contains_key(id)
                    && outcome.state.buffered[id] == state.buffered[id]
            &&& forall|id: u64| #[trigger]
                state.buffered.contains_key(id) && id >= outcome.state.next_transition
                    && outcome.error is None ==> outcome.state.buffered.contains_key(id)
        }),
    decreases state.buffered.len(),
{
    if state.buffered.contains_key(state.next_transition) {
        let edge = state.buffered[state.next_transition];
        assert(state.waits(state.next_transition));
        let without = state.without_next();
        assert(without.wf()) by {
            assert forall|id: u64| #[trigger] without.buffered.contains_key(
                id,
            ) implies without.waits(id) by {
                assert(state.buffered.contains_key(id));
                assert(state.waits(id));
            }
        }
        match without.moved_to(edge.position) {
            Ok(there) => {
                lemma_past(state, there);
                let after = (events + state.motion_to(edge.position)).push(
                    Stamped {
                        serial: edge.position.serial,
                        captured_us: edge.position.captured_us,
                        event: emitted_edge(state.mode, edge.event),
                    },
                );
                lemma_drained_progress(there.past(edge), after);
            },
            Err(_) => {},
        }
    }
}

/// A receiver never goes back: neither in the edges it awaits nor in the position it
/// reached, whether an update is accepted or refused.
pub proof fn progress_never_rewinds(
    state: Reception,
    position: Position,
    transitions: Seq<Transition>,
)
    requires
        state.wf(),
    ensures
        ({
            let after = state.received(position, transitions).state;
            &&& after.wf()
            &&& after.mode == state.mode
            &&& after.next_transition >= state.next_transition
            &&& after.applied_serial >= state.applied_serial
            &&& after.applied_barrier >= state.applied_barrier
        }),
{
    if state.refusal(position, transitions) is None {
        lemma_taking(state, position, transitions);
        lemma_drained_progress(state.taking(position, transitions), Seq::empty());
    }
}

/// Whether an event is an edge.
pub open spec fn is_edge(event: Emitted) -> bool {
    match event {
        Emitted::Raw(e) => e is Key || e is Button,
        Emitted::Desktop(e) => e is Key || e is Button || e is ScrollStop,
    }
}

/// The edges among some events.
pub open spec fn edges_of(events: Seq<Stamped>) -> Seq<Emitted>
    decreases events.len(),
{
    if events.len() == 0 {
        Seq::empty()
    } else {
        let before = edges_of(events.drop_last());
        if is_edge(events.last().event) {
            before.push(events.last().event)
        } else {
            before
        }
    }
}

proof fn lemma_edges_of_motion(events: Seq<Stamped>, motion: Seq<Stamped>)
    requires
        forall|i: int| 0 <= i < motion.len() ==> !is_edge((#[trigger] motion[i]).event),
    ensures
        edges_of(events + motion) == edges_of(events),
    decreases motion.len(),
{
    if motion.len() == 0 {
        assert(events + motion =~= events);
    } else {
        lemma_edges_of_motion(events, motion.drop_last());
        assert((events + motion).drop_last() =~= events + motion.drop_last());
        assert((events + motion).last() == motion[motion.len() - 1]);
    }
}

proof fn lemma_delta_has_no_edge(from: Totals, position: Position)
    requires
        delta(from, position.totals) is Ok,
    ensures
        forall|i: int|
            0 <= i < stamped(delta(from, position.totals)->Ok_0, position).len() ==> !is_edge(
                (#[trigger] stamped(delta(from, position.totals)->Ok_0, position)[i]).event,
            ),
{
}

/// The edges with numbers from `first` on, below `end`, as they come out.
pub open spec fn run_of(
    mode: InputMode,
    buffered: Map<u64, Transition>,
    first: int,
    end: int,
) -> Seq<Emitted> {
    Seq::new(
        (end - first) as nat,
        |k: int| emitted_edge(mode, buffered[(first + k) as u64].event),
    )
}

proof fn lemma_drained_edges(state: Reception, events: Seq<Stamped>)
    requires
        state.wf(),
    ensures
        ({
            let outcome = state.drained(events);
            outcome.error is None ==> edges_of(outcome.events) == edges_of(events) + run_of(
                state.mode,
                state.buffered,
                state.next_transition as int,
                outcome.state.next_transition as int,
            )
        }),
    decreases state.buffered.len(),
{
    lemma_drained_progress(state, events);
    let outcome = state.drained(events);
    if state.buffered.contains_key(state.next_transition) {
        let edge = state.buffered[state.next_transition];
        assert(state.waits(state.next_transition));
        match state.without_next().moved_to(edge.position) {
            Ok(there) => {
                lemma_past(state, there);
                let motion = state.motion_to(edge.position);
                let last = Stamped {
                    serial: edge.position.serial,
                    captured_us: edge.position.captured_us,
                    event: emitted_edge(state.mode, edge.event),
                };
                let after = (events + motion).push(last);
                let past = there.past(edge);
                lemma_delta_has_no_edge(state.totals, edge.position);
                lemma_edges_of_motion(events, motion);
                assert(after.drop_last() =~= events + motion);
                lemma_drained_edges(past, after);
                lemma_drained_progress(past, after);
                if outcome.error is None {
                    let end = outcome.state.next_transition as int;
                    let rest = run_of(
                        state.mode,
                        past.buffered,
                        past.next_transition as int,
                        end,
                    );
                    let whole = run_of(
                        state.mode,
                        state.buffered,
                        state.next_transition as int,
                        end,
                    );
                    assert(whole =~= seq![last.event] + rest) by {
                        assert forall|k: int| 0 <= k < whole.len() implies whole[k] == (seq![
                            last.event,
                        ] + rest)[k] by {
                            if k > 0 {
                                assert((past.next_transition + (k - 1)) as u64 == (
                                state.next_transition + k) as u64);
                            }
                        }
                    }
                    assert(edges_of(after) == edges_of(events).push(last.event));
                    assert(edges_of(after) + rest =~= edges_of(events) + whole);
                }
            },
            Err(_) => {},
        }
    } else {
        assert(edges_of(events) + run_of(
            state.mode,
            state.buffered,
            state.next_transition as int,
            state.next_transition as int,
        ) =~= edges_of(events));
    }
}

/// Edges come out in the order of their numbers, each once and none left out: an accepted
/// update lets out exactly the edges between the number awaited before and the one awaited
/// after.
pub proof fn edges_come_out_in_order(
    state: Reception,
    position: Position,
    transitions: Seq<Transition>,
)
    requires
        state.wf(),
        state.received(position, transitions).error is None,
    ensures
        ({
            let outcome = state.received(position, transitions);
            edges_of(outcome.events) == run_of(
                state.mode,
                filled(state.buffered, transitions, state.next_transition),
                state.next_transition as int,
                outcome.state.next_transition as int,
            )
        }),
{
    lemma_taking(state, position, transitions);
    let taking = state.taking(position, transitions);
    lemma_drained_edges(taking, Seq::empty());
    let drained = taking.drained(Seq::empty());
    let mid = drained.state;
    let run = run_of(
        state.mode,
        taking.buffered,
        state.next_transition as int,
        mid.next_transition as int,
    );
    assert(edges_of(Seq::<Stamped>::empty()) + run =~= run);
    if mid.latest_position is Some && mid.due(mid.latest_position->0) {
        let newest = mid.latest_position->0;
        lemma_delta_has_no_edge(mid.totals, newest);
        lemma_edges_of_motion(drained.events, mid.motion_to(newest));
    }
}

/// Edges that are known already fill nothing.
proof fn lemma_nothing_fresh(
    buffered: Map<u64, Transition>,
    transitions: Seq<Transition>,
    next: u64,
)
    requires
        forall|i: int|
            0 <= i < transitions.len() && (#[trigger] transitions[i]).id >= next
                ==> buffered.contains_key(transitions[i].id),
    ensures
        filled(buffered, transitions, next) == buffered,
    decreases transitions.len(),
{
    if transitions.len() > 0 {
        let front = transitions.drop_last();
        assert forall|i: int| 0 <= i < front.len() && (
        #[trigger] front[i]).id >= next implies buffered.contains_key(front[i].id) by {
            assert(transitions[i].id >= next);
        }
        lemma_nothing_fresh(buffered, front, next);
        assert(transitions[transitions.len() - 1] == transitions.last());
    }
}

proof fn lemma_filled_keys(
    buffered: Map<u64, Transition>,
    transitions: Seq<Transition>,
    next: u64,
    i: int,
)
    requires
        0 <= i < transitions.len(),
        transitions[i].id >= next,
    ensures
        filled(buffered, transitions, next).contains_key(transitions[i].id),
    decreases transitions.len(),
{
    if i < transitions.len() - 1 {
        lemma_filled_keys(buffered, transitions.drop_last(), next, i);
    }
}

proof fn lemma_no_delta(totals: Totals)
    ensures
        delta(totals, totals) is Ok,
        delta(totals, totals)->Ok_0 == Seq::<Emitted>::empty(),
{
    pieces_add_up(0, 0);
    assert(delta(totals, totals)->Ok_0 =~= Seq::<Emitted>::empty());
}

/// An update that was accepted, and is valid and without conflict once more, lets nothing
/// out and changes nothing the second time.
pub proof fn an_update_taken_again_delivers_nothing(
    state: Reception,
    position: Position,
    transitions: Seq<Transition>,
)
    requires
        state.wf(),
        state.received(position, transitions).error is None,
        state.received(position, transitions).state.update_error(position, transitions) is None,
        state.received(position, transitions).state.history_error(position) is None,
        !state.received(position, transitions).state.conflicting(transitions),
    ensures
        ({
            let after = state.received(position, transitions).state;
            let again = after.received(position, transitions);
            &&& again.error is None
            &&& again.events == Seq::<Stamped>::empty()
            &&& again.state == after
        }),
{
    let taking = state.taking(position, transitions);
    lemma_taking(state, position, transitions);
    lemma_drained_progress(taking, Seq::empty());
    let drained = taking.drained(Seq::empty());
    let mid = drained.state;
    let after = state.received(position, transitions).state;
    assert(after.buffered == mid.buffered);
    assert(after.next_transition == mid.next_transition);
    assert(after.latest_position == taking.latest_position);
    assert forall|i: int|
        0 <= i < transitions.len() && (
        #[trigger] transitions[i]).id >= after.next_transition implies after.buffered.contains_key(
        transitions[i].id,
    ) by {
        lemma_filled_keys(state.buffered, transitions, state.next_transition, i);
        assert(taking.buffered.contains_key(transitions[i].id));
    }
    lemma_nothing_fresh(after.buffered, transitions, after.next_transition);
    assert(after.buffered.len() <= MAX_TRANSITIONS);
    assert(after.refusal(position, transitions) is None);
    assert(after.remembering(position).latest_position == after.latest_position);
    assert(after.taking(position, transitions) == after);
    assert(after.drained(Seq::empty()) == (Outcome {
        state: after,
        events: Seq::empty(),
        error: None,
    }));
    if after.latest_position is Some && after.due(after.latest_position->0) {
        let newest = after.latest_position->0;
        assert(mid.due(newest));
        assert(after.totals == newest.totals);
        lemma_no_delta(newest.totals);
        assert(after.motion_to(newest) =~= Seq::<Stamped>::empty());
        assert(Seq::<Stamped>::empty() + after.motion_to(newest) =~= Seq::<Stamped>::empty());
    }
}

/// One of a sender's edges.
pub open spec fn sound_edge(state: Sending, i: int) -> bool {
    let edge = state.pending[i];
    &&& edge.position.barrier == edge.id
    &&& position_error(state.mode, edge.position) is None
    &&& edge_error(state.mode, edge.event) is None
    &&& edge.position.serial <= state.serial
}

/// The edges of a sender's journal are valid, come at serials that never fall, and lie
/// before its position.
pub open spec fn chained(state: Sending) -> bool {
    &&& forall|i: int| 0 <= i < state.pending.len() ==> #[trigger] sound_edge(state, i)
    &&& forall|i: int, j: int|
        0 <= i < j < state.pending.len() ==> (#[trigger] state.pending[i]).position.serial <= (
        #[trigger] state.pending[j]).position.serial
    &&& match state.position {
        Some(p) => p.serial == state.serial && p.serial > 0 && p.barrier
            == state.next_transition,
        None => state.serial == 0 && state.pending.len() == 0,
    }
}

proof fn lemma_advanced(state: Sending, edges: Seq<Edge>, totals: Totals, captured_us: u64)
    requires
        state.wf(),
        chained(state),
        state.serial < u64::MAX,
        state.journal_error(edges.len() as int) is None,
        totals.is_of(state.mode),
        forall|i: int|
            0 <= i < edges.len() ==> (#[trigger] edges[i]).totals.is_of(state.mode) && edge_error(
                state.mode,
                edges[i].event,
            ) is None,
    ensures
        chained(state.advanced(edges, totals, captured_us)),
{
    let after = state.advanced(edges, totals, captured_us);
    let n = state.pending.len() as int;
    assert forall|i: int| 0 <= i < after.pending.len() implies #[trigger] sound_edge(after, i) by {
        if i < n {
            assert(sound_edge(state, i));
            assert(after.pending[i] == state.pending[i]);
        } else {
            assert(edges[i - n].totals.is_of(state.mode));
        }
    }
    assert forall|i: int, j: int| 0 <= i < j < after.pending.len() implies (
    #[trigger] after.pending[i]).position.serial <= (
    #[trigger] after.pending[j]).position.serial by {
        if i < n {
            assert(sound_edge(state, i));
            assert(after.pending[i] == state.pending[i]);
            if j < n {
                assert(after.pending[j] == state.pending[j]);
            }
        }
    }
}

/// A report's edges are valid raw edges.
pub proof fn lemma_pass_edges(
    devices: Seq<Station>,
    sums: Sums,
    device: u64,
    events: Seq<RawEvent>,
    count: int,
)
    requires
        super::sender::stations_wf(devices),
        forall|i: int|
            0 <= i < events.len() ==> crate::input::valid_event(#[trigger] events[i], count),
    ensures
        super::sender::stations_wf(pass_events(devices, sums, device, events).devices),
        forall|i: int|
            0 <= i < pass_events(devices, sums, device, events).edges.len() ==> ({
                let edge = #[trigger] pass_events(devices, sums, device, events).edges[i];
                edge.totals is Raw && edge_error(InputMode::Raw, edge.event) is None
            }),
    decreases events.len(),
{
    if events.len() > 0 {
        let front = events.drop_last();
        assert forall|i: int| 0 <= i < front.len() implies crate::input::valid_event(
            #[trigger] front[i],
            count,
        ) by {
            assert(front[i] == events[i]);
        }
        lemma_pass_edges(devices, sums, device, front, count);
        let before = pass_events(devices, sums, device, front);
        let totals = raw_totals(moved_by(sums, events));
        assert(crate::input::valid_event(events[events.len() - 1], count));
        super::sender::lemma_pass_event(before, device, events.last(), totals, count);
    }
}

/// A sender's journal stays in order: it is so from the start, and whatever is pushed or
/// acknowledged leaves it so.
pub proof fn the_journal_stays_in_order(
    mode: InputMode,
    state: Sending,
    report: RawReport,
    event: InputEvent,
    captured_us: u64,
    next: u64,
)
    requires
        state.wf(),
        chained(state),
    ensures
        chained(
            Sending {
                mode,
                devices: Seq::empty(),
                position: None,
                pending: Seq::empty(),
                serial: 0,
                next_transition: 0,
            },
        ),
        state.after_report(report) matches Ok(after) ==> chained(after),
        state.after_event(event, captured_us) matches Ok(after) ==> chained(after),
        chained(state.acknowledged(next)),
{
    let sums = sums_of(state.totals());
    let events = report.events@;
    if state.after_report(report) is Ok {
        let first = known(state.devices, report.device, events);
        super::sender::lemma_known(state.devices, report.device, events);
        lemma_pass_edges(first, sums, report.device, events, events.len() as int);
        let pass = pass_events(first, sums, report.device, events);
        lemma_advanced(
            state,
            pass.edges,
            raw_totals(moved_by(sums, events)),
            report.captured_us,
        );
        let advanced = state.advanced(
            pass.edges,
            raw_totals(moved_by(sums, events)),
            report.captured_us,
        );
        let after = Sending { devices: pass.devices, ..advanced };
        assert forall|i: int| 0 <= i < after.pending.len() implies #[trigger] sound_edge(
            after,
            i,
        ) by {
            assert(sound_edge(advanced, i));
        }
    }
    if state.after_event(event, captured_us) is Ok {
        let totals = super::sender::desktop_moved(state.totals(), event)->Ok_0;
        let edges = if super::sender::is_desktop_edge(event) {
            seq![Edge { totals, event }]
        } else {
            Seq::empty()
        };
        lemma_advanced(state, edges, totals, captured_us);
    }
    let kept = state.acknowledged(next);
    let dropped = state.settled(next);
    assert forall|i: int| 0 <= i < kept.pending.len() implies #[trigger] sound_edge(kept, i) by {
        assert(sound_edge(state, i + dropped));
        assert(kept.pending[i] == state.pending[i + dropped]);
    }
    assert forall|i: int, j: int| 0 <= i < j < kept.pending.len() implies (
    #[trigger] kept.pending[i]).position.serial <= (#[trigger] kept.pending[j]).position.serial by {
        assert(kept.pending[i] == state.pending[i + dropped]);
        assert(kept.pending[j] == state.pending[j + dropped]);
    }
}

/// The number of the first edge in a sender's journal.
pub open spec fn journal_start(sender: Sending) -> int {
    sender.next_transition - sender.pending.len()
}

/// A receiver knows nothing that its sender did not issue, and lacks nothing that its
/// sender has dropped.
pub open spec fn in_step(sender: Sending, receiver: Reception) -> bool {
    &&& receiver.mode == sender.mode
    &&& sender.position is Some
    &&& journal_start(sender) <= receiver.next_transition <= sender.next_transition
    &&& forall|id: u64| #[trigger]
        receiver.buffered.contains_key(id) ==> id < sender.next_transition && receiver.buffered[id]
            == sender.pending[id - journal_start(sender)]
    &&& forall|k: int|
        0 <= k < receiver.emitted.len() && (#[trigger] receiver.emitted[k]).id >= journal_start(
            sender,
        ) ==> receiver.emitted[k].id < sender.next_transition && receiver.emitted[k]
            == sender.pending[receiver.emitted[k].id - journal_start(sender)]
    &&& receiver.applied_serial <= sender.serial
    &&& receiver.next_transition < sender.next_transition ==> receiver.applied_serial
        <= sender.pending[receiver.next_transition - journal_start(sender)].position.serial
    &&& receiver.latest_position matches Some(p) ==> p.serial < sender.serial || Some(p)
        == sender.position
}

/// Every step from `totals` over the edges from `at` on to the sender's position is small
/// enough to be delivered.
pub open spec fn steps_fit(totals: Totals, sender: Sending, at: int) -> bool
    decreases sender.pending.len() - at,
{
    if at >= sender.pending.len() {
        delta(totals, sender.totals()) is Ok
    } else {
        &&& delta(totals, sender.pending[at].position.totals) is Ok
        &&& steps_fit(sender.pending[at].position.totals, sender, at + 1)
    }
}

/// Keys below a bound number at most that many.
pub proof fn lemma_keys_in_range(keys: Set<u64>, low: int, high: int)
    requires
        keys.finite(),
        low <= high,
        forall|k: u64| #[trigger] keys.contains(k) ==> low <= k < high,
    ensures
        keys.len() <= high - low,
    decreases high - low,
{
    if low == high {
        assert(keys =~= Set::empty());
    } else {
        let last = (high - 1) as u64;
        if 0 <= high - 1 <= u64::MAX && keys.contains(last) {
            lemma_keys_in_range(keys.remove(last), low, high - 1);
        } else {
            assert forall|k: u64| #[trigger] keys.contains(k) implies low <= k < high - 1 by {
                if k == high - 1 {
                    assert(k == last);
                }
            }
            lemma_keys_in_range(keys, low, high - 1);
        }
    }
}

/// What the journal fills in is what the journal holds.
proof fn lemma_journal_filled(sender: Sending, receiver: Reception, n: int)
    requires
        sender.wf(),
        in_step(sender, receiver),
        receiver.wf(),
        0 <= n <= sender.pending.len(),
    ensures
        ({
            let map = filled(receiver.buffered, sender.pending.take(n), receiver.next_transition);
            &&& map.dom().finite()
            &&& forall|id: u64| #[trigger]
                map.contains_key(id) ==> receiver.next_transition <= id < sender.next_transition
                    && map[id] == sender.pending[id - journal_start(sender)]
            &&& forall|id: u64|
                receiver.next_transition <= id < journal_start(sender) + n
                    ==> #[trigger] map.contains_key(id)
        }),
    decreases n,
{
    let next = receiver.next_transition;
    if n == 0 {
        assert forall|id: u64| #[trigger] receiver.buffered.contains_key(id) implies next <= id by {
            assert(receiver.waits(id));
        }
        assert(sender.pending.take(0) =~= Seq::empty());
    } else {
        lemma_journal_filled(sender, receiver, n - 1);
        let all = sender.pending.take(n);
        assert(all.drop_last() =~= sender.pending.take(n - 1));
        let before = filled(receiver.buffered, sender.pending.take(n - 1), next);
        let map = filled(receiver.buffered, all, next);
        let last = sender.pending[n - 1];
        assert(all.last() == last);
        assert(last.id == journal_start(sender) + n - 1);
        assert forall|id: u64| next <= id < journal_start(sender) + n implies #[trigger]
            map.contains_key(id) by {
            if id < journal_start(sender) + n - 1 {
                assert(before.contains_key(id));
            } else {
                assert(id == last.id);
            }
        }
    }
}

proof fn lemma_journal_accepted(sender: Sending, receiver: Reception)
    requires
        sender.wf(),
        chained(sender),
        receiver.wf(),
        in_step(sender, receiver),
    ensures
        receiver.refusal(sender.position->0, sender.pending) is None,
{
    let position = sender.position->0;
    let all = sender.pending;
    assert forall|n: int| 0 <= n <= all.len() implies #[trigger] receiver.transitions_error(
        position,
        all.take(n),
    ) is None by {
        lemma_journal_valid(sender, receiver, n);
    }
    assert(all.take(all.len() as int) =~= all);
    assert(receiver.transitions_error(position, all.take(all.len() as int)) is None);
    assert(receiver.update_error(position, all) is None);
    assert(receiver.history_error(position) is None);
    assert(!receiver.conflicting(all)) by {
        assert forall|i: int| 0 <= i < all.len() implies !#[trigger] receiver.conflicts(all, i) by {
            assert(all[i].id == journal_start(sender) + i);
            if all[i].id >= receiver.next_transition {
                lemma_journal_filled(sender, receiver, i);
            }
        }
    }
    lemma_journal_filled(sender, receiver, all.len() as int);
    let map = filled(receiver.buffered, all, receiver.next_transition);
    lemma_keys_in_range(
        map.dom(),
        receiver.next_transition as int,
        sender.next_transition as int,
    );
}

proof fn lemma_journal_valid(sender: Sending, receiver: Reception, n: int)
    requires
        sender.wf(),
        chained(sender),
        receiver.wf(),
        in_step(sender, receiver),
        0 <= n <= sender.pending.len(),
    ensures
        receiver.transitions_error(sender.position->0, sender.pending.take(n)) is None,
    decreases n,
{
    if n > 0 {
        lemma_journal_valid(sender, receiver, n - 1);
        let all = sender.pending.take(n);
        assert(all.drop_last() =~= sender.pending.take(n - 1));
        assert(sound_edge(sender, n - 1));
        assert(sender.pending[n - 1].id == journal_start(sender) + n - 1);
        assert(all.last() == sender.pending[n - 1]);
    }
}

/// A receiver that holds the rest of the journal lets it out to the end.
proof fn lemma_journal_drains(sender: Sending, state: Reception, events: Seq<Stamped>)
    requires
        sender.wf(),
        chained(sender),
        state.wf(),
        state.mode == sender.mode,
        journal_start(sender) <= state.next_transition <= sender.next_transition,
        forall|id: u64| #[trigger]
            state.buffered.contains_key(id) ==> id < sender.next_transition && state.buffered[id]
                == sender.pending[id - journal_start(sender)],
        forall|id: u64|
            state.next_transition <= id < sender.next_transition
                ==> #[trigger] state.buffered.contains_key(id),
        state.applied_serial <= sender.serial,
        state.next_transition < sender.next_transition ==> state.applied_serial
            <= sender.pending[state.next_transition - journal_start(sender)].position.serial,
        steps_fit(state.totals, sender, state.next_transition - journal_start(sender)),
    ensures
        ({
            let outcome = state.drained(events);
            &&& outcome.error is None
            &&& outcome.state.next_transition == sender.next_transition
            &&& outcome.state.applied_serial <= sender.serial
            &&& delta(outcome.state.totals, sender.totals()) is Ok
        }),
    decreases sender.next_transition - state.next_transition,
{
    if state.next_transition < sender.next_transition {
        let id = state.next_transition;
        let at = id - journal_start(sender);
        assert(state.buffered.contains_key(id));
        let edge = sender.pending[at];
        assert(state.buffered[id] == edge);
        assert(state.waits(id));
        assert(sound_edge(sender, at));
        let without = state.without_next();
        assert(without.moved_to(edge.position) is Ok);
        let there = without.moved_to(edge.position)->Ok_0;
        lemma_past(state, there);
        let past = there.past(edge);
        let after = (events + state.motion_to(edge.position)).push(
            Stamped {
                serial: edge.position.serial,
                captured_us: edge.position.captured_us,
                event: emitted_edge(state.mode, edge.event),
            },
        );
        assert forall|k: u64|
            past.next_transition <= k < sender.next_transition implies #[trigger]
        past.buffered.contains_key(k) by {
            assert(state.buffered.contains_key(k));
        }
        assert forall|k: u64| #[trigger] past.buffered.contains_key(k) implies k
            < sender.next_transition && past.buffered[k] == sender.pending[k - journal_start(
            sender,
        )] by {
            assert(state.buffered.contains_key(k));
        }
        if past.next_transition < sender.next_transition {
            assert(sender.pending[at].position.serial <= sender.pending[at + 1].position.serial);
        }
        lemma_journal_drains(sender, past, after);
    }
}

/// A receiver in step that gets its sender's whole journal and position lets every missing
/// edge out and ends where the sender is, whatever was lost, delayed or repeated before.
pub proof fn the_latest_update_makes_up_for_all_lost_ones(sender: Sending, receiver: Reception)
    requires
        sender.wf(),
        chained(sender),
        receiver.wf(),
        in_step(sender, receiver),
        steps_fit(receiver.totals, sender, receiver.next_transition - journal_start(sender)),
    ensures
        ({
            let outcome = receiver.received(sender.position->0, sender.pending);
            &&& outcome.error is None
            &&& outcome.state.next_transition == sender.next_transition
            &&& outcome.state.totals == sender.totals()
            &&& outcome.state.applied_serial == sender.serial
        }),
{
    let position = sender.position->0;
    lemma_journal_accepted(sender, receiver);
    let taking = receiver.taking(position, sender.pending);
    lemma_taking(receiver, position, sender.pending);
    lemma_journal_filled(sender, receiver, sender.pending.len() as int);
    assert(sender.pending.take(sender.pending.len() as int) =~= sender.pending);
    lemma_journal_drains(sender, taking, Seq::empty());
    lemma_drained_progress(taking, Seq::empty());
    let mid = taking.drained(Seq::empty()).state;
    assert(taking.latest_position == Some(position));
    assert(mid.due(position));
}

/// What the whole journal lets out at a receiver in step: the edges that it lacked.
pub proof fn lemma_journal_comes_out(sender: Sending, receiver: Reception)
    requires
        sender.wf(),
        chained(sender),
        receiver.wf(),
        in_step(sender, receiver),
        steps_fit(receiver.totals, sender, receiver.next_transition - journal_start(sender)),
    ensures
        ({
            let first = receiver.next_transition - journal_start(sender);
            edges_of(receiver.received(sender.position->0, sender.pending).events) == Seq::new(
                (sender.pending.len() - first) as nat,
                |n: int| emitted_edge(sender.mode, sender.pending[first + n].event),
            )
        }),
{
    the_latest_update_makes_up_for_all_lost_ones(sender, receiver);
    edges_come_out_in_order(receiver, sender.position->0, sender.pending);
    lemma_journal_filled(sender, receiver, sender.pending.len() as int);
    assert(sender.pending.take(sender.pending.len() as int) =~= sender.pending);
    let first = receiver.next_transition - journal_start(sender);
    let map = filled(receiver.buffered, sender.pending, receiver.next_transition);
    let out = Seq::new(
        (sender.pending.len() - first) as nat,
        |n: int| emitted_edge(sender.mode, sender.pending[first + n].event),
    );
    let run = run_of(
        receiver.mode,
        map,
        receiver.next_transition as int,
        sender.next_transition as int,
    );
    assert forall|n: int| 0 <= n < run.len() implies run[n] == out[n] by {
        let id = (receiver.next_transition + n) as u64;
        assert(map.contains_key(id));
    }
    assert(run =~= out);
}

} // verus!
