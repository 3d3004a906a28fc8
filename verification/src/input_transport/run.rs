//! Whole runs of updates: what comes out of a receiver from its beginning on.

use super::history::{
    abreast, an_accepted_update_keeps_to_the_history, lemma_taking_known, History,
};
use super::laws::{
    delivered_motion_adds_up, edges_come_out_in_order, edges_of, is_edge, journey,
    lemma_journey_concat, progress_never_rewinds, run_of, travel_of,
};
use super::receiver::{
    emitted_edge, filled, lemma_past, lemma_taking, Emitted, Outcome, Reception, Stamped,
};
use super::state::{Position, Totals, Transition};
use crate::input::InputMode;
use vstd::prelude::*;

verus! {

/// What comes of updates one after the other, until one is refused.
pub open spec fn delivery(
    state: Reception,
    updates: Seq<(Position, Seq<Transition>)>,
) -> Outcome
    decreases updates.len(),
{
    if updates.len() == 0 {
        Outcome { state, events: Seq::empty(), error: None }
    } else {
        let before = delivery(state, updates.drop_last());
        if before.error is Some {
            before
        } else {
            let last = before.state.received(updates.last().0, updates.last().1);
            Outcome {
                state: last.state,
                events: before.events + last.events,
                error: last.error,
            }
        }
    }
}

/// The first edges of a history, as they come out.
pub open spec fn issued_edges(history: History, n: nat) -> Seq<Emitted> {
    Seq::new(n, |i: int| emitted_edge(history.mode, history.edges[i].event))
}

/// All updates are some that the sender of a history sent.
pub open spec fn all_of_history(
    history: History,
    updates: Seq<(Position, Seq<Transition>)>,
) -> bool {
    forall|i: int|
        0 <= i < updates.len() ==> history.is_update(
            (#[trigger] updates[i]).0,
            updates[i].1,
        )
}

/// No position among the updates is newer than this one.
pub open spec fn is_newest(updates: Seq<(Position, Seq<Transition>)>, n: int) -> bool {
    &&& 0 <= n < updates.len()
    &&& forall|i: int|
        0 <= i < updates.len() ==> (#[trigger] updates[i]).0.serial <= updates[n].0.serial
}

proof fn lemma_edges_concat(one: Seq<Stamped>, two: Seq<Stamped>)
    ensures
        edges_of(one + two) == edges_of(one) + edges_of(two),
    decreases two.len(),
{
    if two.len() == 0 {
        assert(one + two =~= one);
        assert(edges_of(one) + edges_of(two) =~= edges_of(one));
    } else {
        lemma_edges_concat(one, two.drop_last());
        assert((one + two).drop_last() =~= one + two.drop_last());
        assert((one + two).last() == two.last());
        let front = edges_of(two.drop_last());
        if is_edge(two.last().event) {
            assert(edges_of(one) + front.push(two.last().event) =~= (edges_of(one) + front).push(
                two.last().event,
            ));
        }
    }
}

/// Every edge that is let out waited.
proof fn lemma_drained_waited(state: Reception, events: Seq<Stamped>)
    requires
        state.wf(),
    ensures
        forall|id: u64|
            state.next_transition <= id < state.drained(events).state.next_transition
                ==> #[trigger] state.buffered.contains_key(id),
    decreases state.buffered.len(),
{
    if state.buffered.contains_key(state.next_transition) {
        let edge = state.buffered[state.next_transition];
        assert(state.waits(state.next_transition));
        if let Ok(there) = state.without_next().moved_to(edge.position) {
            lemma_past(state, there);
            let past = there.past(edge);
            let after = (events + state.motion_to(edge.position)).push(
                Stamped {
                    serial: edge.position.serial,
                    captured_us: edge.position.captured_us,
                    event: emitted_edge(state.mode, edge.event),
                },
            );
            lemma_drained_waited(past, after);
            assert forall|id: u64|
                state.next_transition <= id < state.drained(
                    events,
                ).state.next_transition implies #[trigger] state.buffered.contains_key(id) by {
                if id > state.next_transition {
                    assert(past.buffered.contains_key(id));
                }
            }
        }
    }
}

/// What one more update of the history lets out are the next edges of the history.
proof fn lemma_next_edges(
    history: History,
    state: Reception,
    position: Position,
    transitions: Seq<Transition>,
)
    requires
        history.sound(),
        state.wf(),
        history.is_known_by(state),
        history.is_update(position, transitions),
        state.received(position, transitions).error is None,
    ensures
        ({
            let outcome = state.received(position, transitions);
            let next = outcome.state.next_transition as nat;
            &&& state.next_transition <= next
            &&& issued_edges(history, state.next_transition as nat) + edges_of(outcome.events)
                == issued_edges(history, next)
        }),
{
    let outcome = state.received(position, transitions);
    let first = state.next_transition as int;
    let next = outcome.state.next_transition as int;
    let taking = state.taking(position, transitions);
    lemma_taking(state, position, transitions);
    lemma_taking_known(history, state, position, transitions);
    lemma_drained_waited(taking, Seq::empty());
    edges_come_out_in_order(state, position, transitions);
    progress_never_rewinds(state, position, transitions);
    let fresh = run_of(
        state.mode,
        filled(state.buffered, transitions, state.next_transition),
        first,
        next,
    );
    assert(edges_of(outcome.events) == fresh);
    assert forall|k: int| 0 <= k < fresh.len() implies #[trigger] fresh[k] == emitted_edge(
        history.mode,
        history.edges[first + k].event,
    ) by {
        let id = (first + k) as u64;
        assert(taking.buffered.contains_key(id));
        assert(taking.buffered[id] == history.edges[id as int]);
    }
    assert(issued_edges(history, first as nat) + fresh =~= issued_edges(history, next as nat));
}

proof fn lemma_delivery(
    history: History,
    mode: InputMode,
    updates: Seq<(Position, Seq<Transition>)>,
)
    requires
        history.sound(),
        history.mode == mode,
        history.is_known_by(Reception::new(mode)),
        all_of_history(history, updates),
        delivery(Reception::new(mode), updates).error is None,
    ensures
        ({
            let outcome = delivery(Reception::new(mode), updates);
            let after = outcome.state;
            &&& after.wf()
            &&& history.is_known_by(after)
            &&& edges_of(outcome.events) == issued_edges(history, after.next_transition as nat)
            &&& journey(travel_of(Totals::none(mode)), outcome.events) == travel_of(after.totals)
            &&& updates.len() > 0 ==> {
                &&& abreast(after)
                &&& after.latest_position is Some
                &&& exists|i: int|
                    0 <= i < updates.len() && (#[trigger] updates[i]).0
                        == after.latest_position->0
                &&& forall|i: int|
                    0 <= i < updates.len() ==> (#[trigger] updates[i]).0.serial
                        <= after.latest_position->0.serial
            }
            &&& updates.len() == 0 ==> after.latest_position is None
        }),
    decreases updates.len(),
{
    let start = Reception::new(mode);
    let outcome = delivery(start, updates);
    if updates.len() == 0 {
        assert(edges_of(outcome.events) =~= issued_edges(history, 0));
    } else {
        let front = updates.drop_last();
        let (position, transitions) = updates.last();
        let before = delivery(start, front);
        assert forall|i: int| 0 <= i < front.len() implies history.is_update(
            (#[trigger] front[i]).0,
            front[i].1,
        ) by {
            assert(front[i] == updates[i]);
        }
        lemma_delivery(history, mode, front);
        assert(history.is_update(
            updates[updates.len() - 1].0,
            updates[updates.len() - 1].1,
        ));
        let last = before.state.received(position, transitions);
        an_accepted_update_keeps_to_the_history(history, before.state, position, transitions);
        lemma_next_edges(history, before.state, position, transitions);
        lemma_edges_concat(before.events, last.events);
        delivered_motion_adds_up(before.state, position, transitions);
        lemma_journey_concat(travel_of(Totals::none(mode)), before.events, last.events);
        lemma_taking_known(history, before.state, position, transitions);
        let newest = last.state.latest_position->0;
        assert forall|i: int| 0 <= i < updates.len() implies (#[trigger] updates[i]).0.serial
            <= newest.serial by {
            if i < front.len() {
                assert(front[i] == updates[i]);
            }
        }
        if last.state.latest_position == before.state.latest_position {
            if front.len() > 0 {
                let i = choose|i: int|
                    0 <= i < front.len() && (#[trigger] front[i]).0
                        == before.state.latest_position->0;
                assert(updates[i].0 == newest);
            }
        } else {
            assert(updates[updates.len() - 1].0 == newest);
        }
    }
}

/// However a sender's updates get lost, repeated or reordered on their way to a new receiver,
/// as long as each that arrives is accepted: the edges that have come out are the first ones
/// issued, each once and in order, and all motion that has come out leads to the receiver's
/// totals. Where no edge before the newest position that arrived is missing, those are that
/// position's totals.
pub proof fn a_run_delivers_everything_once(
    history: History,
    mode: InputMode,
    updates: Seq<(Position, Seq<Transition>)>,
    n: int,
)
    requires
        history.sound(),
        history.mode == mode,
        all_of_history(history, updates),
        delivery(Reception::new(mode), updates).error is None,
    ensures
        ({
            let outcome = delivery(Reception::new(mode), updates);
            let after = outcome.state;
            let travel = journey(travel_of(Totals::none(mode)), outcome.events);
            &&& after.next_transition <= history.edges.len()
            &&& edges_of(outcome.events) == issued_edges(history, after.next_transition as nat)
            &&& travel == travel_of(after.totals)
            &&& is_newest(updates, n) && updates[n].0.barrier <= after.next_transition ==> travel
                == travel_of(updates[n].0.totals)
        }),
{
    assert(history.is_known_by(Reception::new(mode)));
    lemma_delivery(history, mode, updates);
    let after = delivery(Reception::new(mode), updates).state;
    if is_newest(updates, n) && updates[n].0.barrier <= after.next_transition {
        let newest = after.latest_position->0;
        let i = choose|i: int| 0 <= i < updates.len() && (#[trigger] updates[i]).0 == newest;
        assert(updates[i].0.serial <= updates[n].0.serial);
        assert(history.is_update(updates[n].0, updates[n].1));
        assert(updates[n].0 == newest);
    }
}

} // verus!
