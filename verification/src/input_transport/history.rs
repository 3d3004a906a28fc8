//! Everything a sender ever issued, and what a receiver makes of it: whatever is lost,
//! repeated or late on the way, the two ends stay in step.

use super::laws::{
    an_update_taken_again_delivers_nothing, chained, in_step, journal_start, lemma_drained_progress,
    lemma_keys_in_range, lemma_pass_edges, progress_never_rewinds, sound_edge,
};
use super::packets::outgoing;
use super::receiver::{
    delta, emitted_edge, filled, lemma_filled, lemma_past, lemma_taking, Reception, Stamped,
};
use super::sender::{
    desktop_moved, is_desktop_edge, known, lemma_known, moved_by, pass_events, raw_totals, sums_of,
    Edge, Sending,
};
use super::state::{edge_error, position_error, Position, Totals, Transition, MAX_TRANSITIONS};
use crate::input::{InputEvent, InputMode, RawReport};
use vstd::prelude::*;

verus! {

/// All edges a sender issued, by their number, and all its positions, by their serial.
pub ghost struct History {
    pub mode: InputMode,
    pub edges: Seq<Transition>,
    pub positions: Seq<Position>,
}

impl History {
    /// The edge with a number was issued on the way to the position of its serial.
    pub open spec fn sound_edge(self, i: int) -> bool {
        let edge = self.edges[i];
        let serial = edge.position.serial as int;
        &&& edge.id == i
        &&& edge.position.barrier == i
        &&& position_error(self.mode, edge.position) is None
        &&& edge_error(self.mode, edge.event) is None
        &&& 1 <= serial <= self.positions.len()
        &&& i < self.positions[serial - 1].barrier
        &&& serial >= 2 ==> self.positions[serial - 2].barrier <= i
    }

    pub open spec fn sound_position(self, k: int) -> bool {
        let position = self.positions[k];
        &&& position.serial == k + 1
        &&& position_error(self.mode, position) is None
        &&& position.barrier <= self.edges.len()
    }

    pub open spec fn sound(self) -> bool {
        &&& forall|i: int| 0 <= i < self.edges.len() ==> #[trigger] self.sound_edge(i)
        &&& forall|k: int| 0 <= k < self.positions.len() ==> #[trigger] self.sound_position(k)
        &&& forall|j: int, k: int|
            0 <= j <= k < self.positions.len() ==> (#[trigger] self.positions[j]).barrier <= (
            #[trigger] self.positions[k]).barrier
    }

    /// This is what a sender issued; its journal holds the end of it.
    pub open spec fn is_of(self, sender: Sending) -> bool {
        &&& sender.mode == self.mode
        &&& sender.next_transition == self.edges.len()
        &&& sender.serial == self.positions.len()
        &&& sender.pending.len() <= self.edges.len()
        &&& sender.pending == self.edges.skip(self.edges.len() - sender.pending.len())
        &&& sender.position == if self.positions.len() == 0 {
            None::<Position>
        } else {
            Some(self.positions.last())
        }
    }

    /// The history with what a sender issued since.
    pub open spec fn continued(self, before: Sending, after: Sending) -> History {
        History {
            mode: self.mode,
            edges: self.edges + after.pending.skip(before.pending.len() as int),
            positions: self.positions.push(after.position->0),
        }
    }

    /// Totals that the sender once had.
    pub open spec fn holds(self, totals: Totals) -> bool {
        ||| totals == Totals::none(self.mode)
        ||| exists|i: int|
            0 <= i < self.edges.len() && (#[trigger] self.edges[i]).position.totals == totals
        ||| exists|k: int|
            0 <= k < self.positions.len() && (#[trigger] self.positions[k]).totals == totals
    }

    /// Every step between two of the totals is small enough to be delivered.
    pub open spec fn within_reach(self) -> bool {
        forall|from: Totals, to: Totals| #[trigger]
            self.holds(from) && #[trigger] self.holds(to) ==> delta(from, to) is Ok
    }

    /// A receiver knows nothing but what was issued.
    pub open spec fn is_known_by(self, receiver: Reception) -> bool {
        let next = receiver.next_transition as int;
        &&& receiver.mode == self.mode
        &&& next <= self.edges.len()
        &&& forall|id: u64| #[trigger]
            receiver.buffered.contains_key(id) ==> id < self.edges.len() && receiver.buffered[id]
                == self.edges[id as int]
        &&& forall|k: int|
            0 <= k < receiver.emitted.len() ==> (#[trigger] receiver.emitted[k]).id < next
                && receiver.emitted[k] == self.edges[receiver.emitted[k].id as int]
        &&& receiver.applied_serial <= self.positions.len()
        &&& next < self.edges.len() ==> receiver.applied_serial
            <= self.edges[next].position.serial
        &&& forall|k: int|
            receiver.applied_serial <= k < self.positions.len() ==> receiver.applied_barrier <= (
            #[trigger] self.positions[k]).barrier
        &&& receiver.applied_serial > 0 ==> receiver.applied_barrier
            <= self.positions[receiver.applied_serial - 1].barrier
        &&& receiver.latest_position matches Some(p) ==> self.is_position(p)
        &&& receiver.applied_serial > 0 ==> receiver.latest_position is Some
            && receiver.applied_serial <= receiver.latest_position->0.serial
        &&& forall|id: u64| #[trigger]
            receiver.buffered.contains_key(id) ==> receiver.latest_position is Some
                && receiver.buffered[id].position.serial <= receiver.latest_position->0.serial
        &&& self.holds(receiver.totals)
    }

    pub open spec fn is_position(self, position: Position) -> bool {
        &&& 1 <= position.serial <= self.positions.len()
        &&& position == self.positions[position.serial - 1]
    }

    /// An update that the sender could send at one of its positions: edges issued before.
    pub open spec fn is_update(self, position: Position, transitions: Seq<Transition>) -> bool {
        &&& self.is_position(position)
        &&& transitions.len() <= MAX_TRANSITIONS
        &&& forall|i: int|
            0 <= i < transitions.len() ==> (#[trigger] transitions[i]).id < position.barrier
                && transitions[i] == self.edges[transitions[i].id as int]
    }
}

/// A new sender has no history, and a new receiver knows nothing but that.
pub proof fn a_history_begins_empty(mode: InputMode)
    ensures
        ({
            let history = History { mode, edges: Seq::empty(), positions: Seq::empty() };
            &&& history.sound()
            &&& history.is_of(
                Sending {
                    mode,
                    devices: Seq::empty(),
                    position: None,
                    pending: Seq::empty(),
                    serial: 0,
                    next_transition: 0,
                },
            )
            &&& history.is_known_by(Reception::new(mode))
        }),
{
    let history = History { mode, edges: Seq::empty(), positions: Seq::empty() };
    assert(history.edges.skip(0) =~= Seq::<Transition>::empty());
}

/// Whatever a sender issues continues its history, and what a receiver knew it still knows.
proof fn lemma_continued(
    history: History,
    sender: Sending,
    edges: Seq<Edge>,
    totals: Totals,
    captured_us: u64,
    after: Sending,
    receiver: Reception,
)
    requires
        sender.wf(),
        history.sound(),
        history.is_of(sender),
        sender.serial < u64::MAX,
        sender.journal_error(edges.len() as int) is None,
        totals.is_of(sender.mode),
        forall|i: int|
            0 <= i < edges.len() ==> (#[trigger] edges[i]).totals.is_of(sender.mode) && edge_error(
                sender.mode,
                edges[i].event,
            ) is None,
        after == (Sending {
            devices: after.devices,
            ..sender.advanced(edges, totals, captured_us)
        }),
    ensures
        history.continued(sender, after).sound(),
        history.continued(sender, after).is_of(after),
        receiver.wf() && history.is_known_by(receiver) ==> history.continued(
            sender,
            after,
        ).is_known_by(receiver),
{
    let later = history.continued(sender, after);
    let n = history.edges.len() as int;
    let m = history.positions.len() as int;
    let held = sender.pending.len() as int;
    let fresh = after.pending.skip(held);
    assert(fresh.len() == edges.len());
    assert forall|i: int| 0 <= i < later.edges.len() implies #[trigger] later.sound_edge(i) by {
        if i < n {
            assert(history.sound_edge(i));
            assert(later.edges[i] == history.edges[i]);
        } else {
            assert(later.edges[i] == fresh[i - n]);
            assert(fresh[i - n] == after.pending[held + i - n]);
            assert(edges[i - n].totals.is_of(sender.mode));
            if m > 0 {
                assert(history.sound_position(m - 1));
            }
        }
    }
    assert forall|k: int| 0 <= k < later.positions.len() implies #[trigger] later.sound_position(
        k,
    ) by {
        if k < m {
            assert(history.sound_position(k));
        }
    }
    assert forall|j: int, k: int| 0 <= j <= k < later.positions.len() implies (
    #[trigger] later.positions[j]).barrier <= (#[trigger] later.positions[k]).barrier by {
        if j < m {
            assert(history.sound_position(j));
        }
    }
    assert(later.edges.skip(later.edges.len() - after.pending.len()) =~= after.pending) by {
        assert forall|i: int| 0 <= i < after.pending.len() implies later.edges[n - held + i]
            == #[trigger] after.pending[i] by {
            if i < held {
                assert(sender.pending[i] == history.edges[n - held + i]);
            } else {
                assert(fresh[i - held] == after.pending[i]);
            }
        }
    }
    if receiver.wf() && history.is_known_by(receiver) {
        lemma_held_later(history, later, receiver.totals);
        assert forall|k: int|
            0 <= k < receiver.emitted.len() implies (
        #[trigger] receiver.emitted[k]).id < receiver.next_transition && receiver.emitted[k]
            == later.edges[receiver.emitted[k].id as int] by {}
        if receiver.next_transition == n && edges.len() > 0 {
            assert(later.edges[n] == fresh[0]);
        }
    }
}

proof fn lemma_held_later(history: History, later: History, totals: Totals)
    requires
        history.mode == later.mode,
        history.edges.is_prefix_of(later.edges),
        history.positions.is_prefix_of(later.positions),
        history.holds(totals),
    ensures
        later.holds(totals),
{
    if totals != Totals::none(history.mode) {
        if exists|i: int|
            0 <= i < history.edges.len() && (#[trigger] history.edges[i]).position.totals
                == totals {
            let i = choose|i: int|
                0 <= i < history.edges.len() && (#[trigger] history.edges[i]).position.totals
                    == totals;
            assert(later.edges[i].position.totals == totals);
        } else {
            let k = choose|k: int|
                0 <= k < history.positions.len() && (#[trigger] history.positions[k]).totals
                    == totals;
            assert(later.positions[k].totals == totals);
        }
    }
}

/// A history goes on with whatever its sender pushes and stays what it is when edges are
/// acknowledged; what a receiver knew of it, it still knows.
pub proof fn a_history_goes_on(
    history: History,
    sender: Sending,
    receiver: Reception,
    report: RawReport,
    event: InputEvent,
    captured_us: u64,
    next: u64,
)
    requires
        history.sound(),
        sender.wf(),
        history.is_of(sender),
        receiver.wf(),
        history.is_known_by(receiver),
    ensures
        sender.after_report(report) matches Ok(after) ==> ({
            let later = history.continued(sender, after);
            &&& later.sound() && later.is_of(after) && later.is_known_by(receiver)
            &&& journal_start(after) == journal_start(sender)
        }),
        sender.after_event(event, captured_us) matches Ok(after) ==> ({
            let later = history.continued(sender, after);
            &&& later.sound() && later.is_of(after) && later.is_known_by(receiver)
            &&& journal_start(after) == journal_start(sender)
        }),
        history.is_of(sender.acknowledged(next)),
        journal_start(sender) <= receiver.next_transition && next <= receiver.next_transition
            ==> journal_start(sender.acknowledged(next)) <= receiver.next_transition,
{
    let events = report.events@;
    if sender.after_report(report) is Ok {
        let sums = sums_of(sender.totals());
        let first = known(sender.devices, report.device, events);
        lemma_known(sender.devices, report.device, events);
        lemma_pass_edges(first, sums, report.device, events, events.len() as int);
        let pass = pass_events(first, sums, report.device, events);
        lemma_continued(
            history,
            sender,
            pass.edges,
            raw_totals(moved_by(sums, events)),
            report.captured_us,
            sender.after_report(report)->Ok_0,
            receiver,
        );
    }
    if sender.after_event(event, captured_us) is Ok {
        let totals = desktop_moved(sender.totals(), event)->Ok_0;
        let edges = if is_desktop_edge(event) {
            seq![Edge { totals, event }]
        } else {
            Seq::empty()
        };
        lemma_continued(
            history,
            sender,
            edges,
            totals,
            captured_us,
            sender.after_event(event, captured_us)->Ok_0,
            receiver,
        );
    }
    let kept = sender.acknowledged(next);
    assert(kept.pending =~= history.edges.skip(history.edges.len() - kept.pending.len()));
}

/// The two ends are in step as long as the receiver has all edges that the sender dropped.
pub proof fn a_shared_history_keeps_in_step(
    history: History,
    sender: Sending,
    receiver: Reception,
)
    requires
        history.sound(),
        sender.wf(),
        sender.position is Some,
        history.is_of(sender),
        receiver.wf(),
        history.is_known_by(receiver),
        journal_start(sender) <= receiver.next_transition,
    ensures
        chained(sender),
        in_step(sender, receiver),
{
    let start = journal_start(sender);
    let m = history.positions.len() as int;
    assert(history.sound_position(m - 1));
    assert forall|i: int| 0 <= i < sender.pending.len() implies #[trigger] sender.pending[i]
        == history.edges[start + i] by {}
    assert forall|i: int| 0 <= i < sender.pending.len() implies #[trigger] sound_edge(
        sender,
        i,
    ) by {
        assert(sender.pending[i] == history.edges[start + i]);
        assert(history.sound_edge(start + i));
    }
    assert forall|i: int, j: int| 0 <= i < j < sender.pending.len() implies (
    #[trigger] sender.pending[i]).position.serial <= (
    #[trigger] sender.pending[j]).position.serial by {
        assert(sender.pending[i] == history.edges[start + i]);
        assert(sender.pending[j] == history.edges[start + j]);
        lemma_serials(history, start + i, start + j);
    }
    lemma_barrier(history);
    assert forall|id: u64| #[trigger] receiver.buffered.contains_key(id) implies id
        < sender.next_transition && receiver.buffered[id] == sender.pending[id - start] by {
        assert(receiver.waits(id));
        assert(sender.pending[id - start] == history.edges[id as int]);
    }
}

/// A later edge has no lower serial.
proof fn lemma_serials(history: History, i: int, j: int)
    requires
        history.sound(),
        0 <= i <= j < history.edges.len(),
    ensures
        history.edges[i].position.serial <= history.edges[j].position.serial,
{
    assert(history.sound_edge(i));
    assert(history.sound_edge(j));
    let a = history.edges[i].position.serial as int;
    let b = history.edges[j].position.serial as int;
    if a > b {
        assert(history.positions[b - 1].barrier <= history.positions[a - 2].barrier);
    }
}

proof fn lemma_valid_edges(
    history: History,
    receiver: Reception,
    position: Position,
    transitions: Seq<Transition>,
)
    requires
        history.sound(),
        history.is_update(position, transitions),
        history.edges.len() - receiver.next_transition <= MAX_TRANSITIONS,
        receiver.mode == history.mode,
    ensures
        receiver.transitions_error(position, transitions) is None,
    decreases transitions.len(),
{
    if transitions.len() > 0 {
        let front = transitions.drop_last();
        assert forall|i: int| 0 <= i < front.len() implies (#[trigger] front[i]).id
            < position.barrier && front[i] == history.edges[front[i].id as int] by {
            assert(front[i] == transitions[i]);
        }
        lemma_valid_edges(history, receiver, position, front);
        let last = transitions.last();
        assert(transitions[transitions.len() - 1] == last);
        assert(history.sound_position(position.serial - 1));
        assert(history.sound_edge(last.id as int));
        lemma_before_barrier(history, position, last.id as int);
    }
}

/// Every edge that waits once an update was taken in was issued.
proof fn lemma_filled_known(
    history: History,
    receiver: Reception,
    position: Position,
    transitions: Seq<Transition>,
)
    requires
        history.sound(),
        receiver.wf(),
        history.is_known_by(receiver),
        history.is_update(position, transitions),
    ensures
        ({
            let all = filled(receiver.buffered, transitions, receiver.next_transition);
            all.dom().finite() && forall|id: u64| #[trigger]
                all.contains_key(id) ==> receiver.next_transition <= id < history.edges.len()
                    && all[id] == history.edges[id as int] && (receiver.buffered.contains_key(id)
                    || all[id].position.serial <= position.serial)
        }),
{
    let next = receiver.next_transition;
    lemma_filled(receiver.buffered, transitions, next);
    let all = filled(receiver.buffered, transitions, next);
    assert(history.sound_position(position.serial - 1));
    assert forall|id: u64| #[trigger] all.contains_key(id) implies next <= id
        < history.edges.len() && all[id] == history.edges[id as int] && (
    receiver.buffered.contains_key(id) || all[id].position.serial <= position.serial) by {
        if receiver.buffered.contains_key(id) {
            assert(receiver.waits(id));
        } else {
            let i = choose|i: int|
                0 <= i < transitions.len() && #[trigger] transitions[i] == all[id]
                    && transitions[i].id == id;
            assert(transitions[i].id < position.barrier);
            lemma_before_barrier(history, position, id as int);
        }
    }
}

/// An edge before a position's barrier was issued by then.
proof fn lemma_before_barrier(history: History, position: Position, i: int)
    requires
        history.sound(),
        history.is_position(position),
        0 <= i < position.barrier,
    ensures
        i < history.edges.len(),
        history.edges[i].position.serial <= position.serial,
{
    let at = position.serial - 1;
    assert(history.sound_position(at));
    assert(history.sound_edge(i));
    let serial = history.edges[i].position.serial as int;
    if serial > position.serial {
        assert(history.positions[at].barrier <= history.positions[serial - 2].barrier);
    }
}

/// What an update brings, a receiver knows from then on.
pub proof fn lemma_taking_known(
    history: History,
    receiver: Reception,
    position: Position,
    transitions: Seq<Transition>,
)
    requires
        history.sound(),
        receiver.wf(),
        history.is_known_by(receiver),
        history.is_update(position, transitions),
    ensures
        history.is_known_by(receiver.taking(position, transitions)),
        receiver.taking(position, transitions).latest_position is Some,
        position.serial <= receiver.taking(position, transitions).latest_position->0.serial,
        receiver.taking(position, transitions).latest_position == receiver.latest_position
            || receiver.taking(position, transitions).latest_position == Some(position),
        receiver.latest_position matches Some(p) ==> p.serial <= receiver.taking(
            position,
            transitions,
        ).latest_position->0.serial,
{
    lemma_filled_known(history, receiver, position, transitions);
    let taking = receiver.taking(position, transitions);
    assert forall|id: u64| #[trigger] taking.buffered.contains_key(
        id,
    ) implies taking.buffered[id].position.serial <= taking.latest_position->0.serial by {
        if receiver.buffered.contains_key(id) {
            lemma_filled(receiver.buffered, transitions, receiver.next_transition);
        }
    }
}

proof fn lemma_update_accepted(
    history: History,
    receiver: Reception,
    position: Position,
    transitions: Seq<Transition>,
)
    requires
        history.sound(),
        receiver.wf(),
        history.is_known_by(receiver),
        history.is_update(position, transitions),
        history.edges.len() - receiver.next_transition <= MAX_TRANSITIONS,
    ensures
        receiver.refusal(position, transitions) is None,
{
    let next = receiver.next_transition;
    assert(history.sound_position(position.serial - 1));
    lemma_valid_edges(history, receiver, position, transitions);
    assert(receiver.update_error(position, transitions) is None);
    assert(receiver.history_error(position) is None);
    lemma_no_conflict(history, receiver, position, transitions);
    lemma_filled_known(history, receiver, position, transitions);
    lemma_keys_in_range(
        filled(receiver.buffered, transitions, next).dom(),
        next as int,
        history.edges.len() as int,
    );
}

/// No edge of an update differs from one that is known.
proof fn lemma_no_conflict(
    history: History,
    receiver: Reception,
    position: Position,
    transitions: Seq<Transition>,
)
    requires
        history.sound(),
        receiver.wf(),
        history.is_known_by(receiver),
        history.is_update(position, transitions),
    ensures
        !receiver.conflicting(transitions),
{
    assert forall|i: int| 0 <= i < transitions.len() implies !#[trigger] receiver.conflicts(
        transitions,
        i,
    ) by {
        let edge = transitions[i];
        assert(edge == history.edges[edge.id as int]);
        let part = transitions.take(i);
        assert forall|j: int| 0 <= j < part.len() implies (#[trigger] part[j]).id
            < position.barrier && part[j] == history.edges[part[j].id as int] by {
            assert(part[j] == transitions[j]);
        }
        assert(history.is_update(position, part));
        lemma_filled_known(history, receiver, position, part);
    }
}

/// Letting edges out leaves the receiver with what was issued, and fails only where a step
/// is too large.
proof fn lemma_drained_known(history: History, state: Reception, events: Seq<Stamped>)
    requires
        history.sound(),
        state.wf(),
        history.is_known_by(state),
    ensures
        history.within_reach() ==> state.drained(events).error is None,
        state.drained(events).error is None ==> history.is_known_by(state.drained(events).state),
    decreases state.buffered.len(),
{
    let id = state.next_transition;
    if state.buffered.contains_key(id) {
        let edge = state.buffered[id];
        let serial = edge.position.serial as int;
        assert(state.waits(id));
        assert(edge == history.edges[id as int]);
        assert(history.sound_edge(id as int));
        assert(history.holds(edge.position.totals));
        let without = state.without_next();
        assert(history.within_reach() ==> delta(state.totals, edge.position.totals) is Ok);
        assert(history.within_reach() ==> without.moved_to(edge.position) is Ok);
        if let Ok(there) = without.moved_to(edge.position) {
            lemma_past(state, there);
            let past = there.past(edge);
            assert forall|k: u64| #[trigger] past.buffered.contains_key(k) implies k
                < history.edges.len() && past.buffered[k] == history.edges[k as int] by {
                assert(state.buffered.contains_key(k));
            }
            let grown = state.emitted.push(edge);
            assert forall|k: int| 0 <= k < past.emitted.len() implies (
            #[trigger] past.emitted[k]).id < past.next_transition && past.emitted[k]
                == history.edges[past.emitted[k].id as int] by {
                let at = k + grown.len() - past.emitted.len();
                assert(past.emitted[k] == grown[at]);
                if at < state.emitted.len() {
                    assert(grown[at] == state.emitted[at]);
                }
            }
            if past.next_transition < history.edges.len() {
                lemma_serials(history, id as int, id + 1);
            }
            assert forall|k: int| serial <= k < history.positions.len() implies past.applied_barrier
                <= (#[trigger] history.positions[k]).barrier by {
                assert(history.positions[serial - 1].barrier <= history.positions[k].barrier);
            }
            lemma_drained_known(
                history,
                past,
                (events + state.motion_to(edge.position)).push(
                    Stamped {
                        serial: edge.position.serial,
                        captured_us: edge.position.captured_us,
                        event: emitted_edge(state.mode, edge.event),
                    },
                ),
            );
        }
    }
}

proof fn lemma_caught_up_known(history: History, state: Reception, events: Seq<Stamped>)
    requires
        history.sound(),
        state.wf(),
        history.is_known_by(state),
    ensures
        history.within_reach() ==> state.caught_up(events).error is None,
        state.caught_up(events).error is None ==> history.is_known_by(
            state.caught_up(events).state,
        ) && abreast(state.caught_up(events).state),
{
    if state.latest_position is Some && state.due(state.latest_position->0) {
        let position = state.latest_position->0;
        let at = position.serial - 1;
        let next = state.next_transition as int;
        assert(history.is_position(position));
        assert(history.positions[at].totals == position.totals);
        assert(history.holds(position.totals));
        assert(history.within_reach() ==> delta(state.totals, position.totals) is Ok);
        if next < history.edges.len() {
            assert(history.sound_edge(next));
            let serial = history.edges[next].position.serial as int;
            if serial < position.serial {
                assert(history.positions[serial - 1].barrier <= history.positions[at].barrier);
            }
        }
        assert forall|k: int| position.serial <= k < history.positions.len() implies position.barrier
            <= (#[trigger] history.positions[k]).barrier by {
            assert(history.positions[at].barrier <= history.positions[k].barrier);
        }
    }
}

/// Where no edge before the newest position is missing, the receiver is there.
pub open spec fn abreast(receiver: Reception) -> bool {
    receiver.latest_position matches Some(p) ==> p.barrier <= receiver.next_transition
        ==> receiver.totals == p.totals
}

/// A receiver that accepts one of the sender's updates still knows nothing but what was
/// issued, and is as far as the newest position it got allows.
pub proof fn an_accepted_update_keeps_to_the_history(
    history: History,
    receiver: Reception,
    position: Position,
    transitions: Seq<Transition>,
)
    requires
        history.sound(),
        receiver.wf(),
        history.is_known_by(receiver),
        history.is_update(position, transitions),
        receiver.received(position, transitions).error is None,
    ensures
        ({
            let after = receiver.received(position, transitions).state;
            &&& after.wf()
            &&& history.is_known_by(after)
            &&& abreast(after)
            &&& after.latest_position == receiver.taking(position, transitions).latest_position
        }),
{
    let taking = receiver.taking(position, transitions);
    lemma_taking(receiver, position, transitions);
    lemma_taking_known(history, receiver, position, transitions);
    lemma_drained_known(history, taking, Seq::empty());
    lemma_drained_progress(taking, Seq::empty());
    let drained = taking.drained(Seq::empty());
    lemma_caught_up_known(history, drained.state, drained.events);
    progress_never_rewinds(receiver, position, transitions);
}

/// An update of the sender's that was accepted is accepted again, and then delivers nothing
/// and changes nothing.
pub proof fn a_repeated_update_delivers_nothing(
    history: History,
    receiver: Reception,
    position: Position,
    transitions: Seq<Transition>,
)
    requires
        history.sound(),
        receiver.wf(),
        history.is_known_by(receiver),
        history.is_update(position, transitions),
        receiver.received(position, transitions).error is None,
    ensures
        ({
            let after = receiver.received(position, transitions).state;
            let again = after.received(position, transitions);
            &&& again.error is None
            &&& again.events == Seq::<Stamped>::empty()
            &&& again.state == after
        }),
{
    let after = receiver.received(position, transitions).state;
    an_accepted_update_keeps_to_the_history(history, receiver, position, transitions);
    progress_never_rewinds(receiver, position, transitions);
    lemma_still_valid(receiver, after, position, transitions);
    assert(after.update_error(position, transitions) is None);
    assert(after.history_error(position) is None);
    lemma_no_conflict(history, after, position, transitions);
    an_update_taken_again_delivers_nothing(receiver, position, transitions);
}

/// What was valid stays so when the receiver awaits a later edge.
proof fn lemma_still_valid(
    before: Reception,
    after: Reception,
    position: Position,
    transitions: Seq<Transition>,
)
    requires
        before.mode == after.mode,
        before.next_transition <= after.next_transition,
        before.transitions_error(position, transitions) is None,
    ensures
        after.transitions_error(position, transitions) is None,
    decreases transitions.len(),
{
    if transitions.len() > 0 {
        lemma_still_valid(before, after, position, transitions.drop_last());
    }
}

/// Any update that the sender sent at any time is taken, however late it comes, in
/// whatever order and however often, and leaves the two ends in step.
pub proof fn any_update_ever_sent_is_taken(
    history: History,
    sender: Sending,
    receiver: Reception,
    position: Position,
    transitions: Seq<Transition>,
)
    requires
        history.sound(),
        history.within_reach(),
        sender.wf(),
        history.is_of(sender),
        receiver.wf(),
        history.is_known_by(receiver),
        journal_start(sender) <= receiver.next_transition,
        history.is_update(position, transitions),
    ensures
        ({
            let outcome = receiver.received(position, transitions);
            &&& outcome.error is None
            &&& outcome.state.wf()
            &&& history.is_known_by(outcome.state)
            &&& journal_start(sender) <= outcome.state.next_transition
            &&& in_step(sender, outcome.state)
        }),
{
    lemma_update_accepted(history, receiver, position, transitions);
    let taking = receiver.taking(position, transitions);
    lemma_taking(receiver, position, transitions);
    lemma_taking_known(history, receiver, position, transitions);
    lemma_drained_known(history, taking, Seq::empty());
    lemma_drained_progress(taking, Seq::empty());
    let drained = taking.drained(Seq::empty());
    lemma_caught_up_known(history, drained.state, drained.events);
    progress_never_rewinds(receiver, position, transitions);
    a_shared_history_keeps_in_step(
        history,
        sender,
        receiver.received(position, transitions).state,
    );
}

proof fn lemma_outgoing_issued(pending: Seq<Transition>, sent: u64, repair: bool)
    ensures
        outgoing(pending, sent, repair).len() <= pending.len(),
        forall|k: int|
            0 <= k < outgoing(pending, sent, repair).len() ==> pending.contains(
                #[trigger] outgoing(pending, sent, repair)[k],
            ),
    decreases pending.len(),
{
    if pending.len() > 0 {
        let front = pending.drop_last();
        lemma_outgoing_issued(front, sent, repair);
        let before = outgoing(front, sent, repair);
        let all = outgoing(pending, sent, repair);
        assert forall|k: int| 0 <= k < all.len() implies pending.contains(#[trigger] all[k]) by {
            if k < before.len() {
                let i = choose|i: int| 0 <= i < front.len() && front[i] == before[k];
                assert(pending[i] == all[k]);
            } else {
                assert(pending[pending.len() - 1] == all[k]);
            }
        }
    }
}

/// Whatever part of the journal a sender sends at its position is an update of its history,
/// and stays one while the history goes on.
pub proof fn what_is_sent_stays_part_of_the_history(
    history: History,
    sender: Sending,
    sent: u64,
    repair: bool,
    from: int,
    to: int,
    later: History,
)
    requires
        history.sound(),
        sender.wf(),
        history.is_of(sender),
        sender.position is Some,
        0 <= from <= to <= outgoing(sender.pending, sent, repair).len(),
        history.edges.is_prefix_of(later.edges),
        history.positions.is_prefix_of(later.positions),
    ensures
        history.is_update(
            sender.position->0,
            outgoing(sender.pending, sent, repair).subrange(from, to),
        ),
        later.is_update(
            sender.position->0,
            outgoing(sender.pending, sent, repair).subrange(from, to),
        ),
{
    let position = sender.position->0;
    let all = outgoing(sender.pending, sent, repair);
    let part = all.subrange(from, to);
    let start = journal_start(sender);
    assert(history.sound_position(history.positions.len() - 1));
    lemma_barrier(history);
    lemma_outgoing_issued(sender.pending, sent, repair);
    assert forall|k: int| 0 <= k < part.len() implies (#[trigger] part[k]).id < position.barrier
        && part[k] == history.edges[part[k].id as int] && part[k]
        == later.edges[part[k].id as int] by {
        assert(part[k] == all[from + k]);
        let i = choose|i: int| 0 <= i < sender.pending.len() && sender.pending[i] == part[k];
        assert(sender.pending[i] == history.edges[start + i]);
    }
    assert(later.positions[position.serial - 1] == position);
}

/// The last position lies behind every edge.
proof fn lemma_barrier(history: History)
    requires
        history.sound(),
        history.positions.len() > 0,
    ensures
        history.positions.last().barrier == history.edges.len(),
{
    assert(history.sound_position(history.positions.len() - 1));
    let last = history.edges.len() - 1;
    if last >= 0 {
        assert(history.sound_edge(last));
    }
}

} // verus!
