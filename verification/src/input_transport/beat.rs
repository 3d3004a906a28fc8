//! What the beat of a connection brings about, whatever was lost on the way.

use super::desktop::{
    acknowledgement, fed, feed_error, going_on, lemma_slot, repaired, repairs, sends, sends_of, slot, tick_all, tick_error, ticks_through,
    update_of, waiters, Linking, Outgoing, Sourcing,
};
use super::laws::{
    chained, edges_of, in_step, journal_start, lemma_journal_comes_out, steps_fit,
    the_latest_update_makes_up_for_all_lost_ones,
};
use super::packets::{nothing_new_stays_behind, outgoing, since, INPUT_TIMEOUT_US};
use super::receiver::{emitted_edge, Emitted, Reception};
use super::state::{Position, Totals, Update};
use crate::input::InputEvent;
use vstd::prelude::*;

verus! {

/// A session that is sent again stands among those that are, and nothing else does.
proof fn lemma_repaired(sources: Seq<Sourcing>)
    ensures
        forall|i: int|
            0 <= i < sources.len() && repairs(#[trigger] sources[i]) ==> repaired(
                sources,
            ).contains(sources[i]),
        forall|k: int|
            0 <= k < repaired(sources).len() ==> sources.contains(#[trigger] repaired(sources)[k])
                && repairs(repaired(sources)[k]),
        repaired(sources).len() <= sources.len(),
    decreases sources.len(),
{
    if sources.len() > 0 {
        let front = sources.drop_last();
        lemma_repaired(front);
        assert forall|i: int| 0 <= i < sources.len() && repairs(
            #[trigger] sources[i],
        ) implies repaired(sources).contains(sources[i]) by {
            if i < front.len() {
                assert(sources[i] == front[i]);
                let k = choose|k: int|
                    0 <= k < repaired(front).len() && repaired(front)[k] == front[i];
                assert(repaired(sources)[k] == sources[i]);
            } else {
                assert(repaired(sources).last() == sources[i]);
            }
        }
        assert forall|k: int| 0 <= k < repaired(sources).len() implies sources.contains(
            #[trigger] repaired(sources)[k],
        ) && repairs(repaired(sources)[k]) by {
            if k < repaired(front).len() {
                assert(repaired(sources)[k] == repaired(front)[k]);
                let i = choose|i: int| 0 <= i < front.len() && front[i] == repaired(front)[k];
                assert(sources[i] == repaired(sources)[k]);
            } else {
                assert(sources[sources.len() - 1] == repaired(sources)[k]);
            }
        }
    }
}

/// At every beat that does not end the connection, each session that has a position and of
/// which something is not acknowledged yet, be it an edge of its journal or its latest
/// position, is sent again: an update of that session goes out with its whole journal, in
/// order, and its latest position.
pub proof fn what_is_not_acknowledged_is_sent_again(
    before: Linking,
    now: u64,
    sends: Seq<Outgoing>,
    i: int,
)
    requires
        ticks_through(before.sources, now) == before.sources.len(),
        sends_of(sends, repaired(before.sources.take(ticks_through(before.sources, now)))),
        0 <= i < before.sources.len(),
        before.sources[i].state.position is Some,
        before.sources[i].state.pending.len() > 0 || before.sources[i].state.position->0.serial
            > before.sources[i].acknowledged_serial,
    ensures
        exists|k: int|
            0 <= k < sends.len() && (#[trigger] sends[k]).session == before.sources[i].session
                && Some(sends[k].update.position) == before.sources[i].state.position
                && sends[k].update.transitions@ == before.sources[i].state.pending,
{
    let all = before.sources;
    let source = all[i];
    assert(all.take(all.len() as int) =~= all);
    lemma_repaired(all);
    assert(repairs(all[i]));
    let k = choose|k: int| 0 <= k < repaired(all).len() && repaired(all)[k] == all[i];
    nothing_new_stays_behind(source.state.pending, source.sent_transition, true);
    assert(sends[k].session == source.session);
}

/// A beat sends nothing else: each of its updates is the whole journal and the latest position
/// of a session of which something is not acknowledged yet, and there is at most one for each
/// session.
pub proof fn a_beat_sends_only_what_is_missing(
    before: Linking,
    now: u64,
    sends: Seq<Outgoing>,
    k: int,
)
    requires
        ticks_through(before.sources, now) == before.sources.len(),
        sends_of(sends, repaired(before.sources.take(ticks_through(before.sources, now)))),
        0 <= k < sends.len(),
    ensures
        sends.len() <= before.sources.len(),
        exists|i: int|
            0 <= i < before.sources.len() && (#[trigger] before.sources[i]).session
                == sends[k].session && before.sources[i].state.position == Some(
                sends[k].update.position,
            ) && before.sources[i].state.pending == sends[k].update.transitions@ && (
            before.sources[i].state.pending.len() > 0 || before.sources[i].state.position->0.serial
                > before.sources[i].acknowledged_serial),
{
    let all = before.sources;
    assert(all.take(all.len() as int) =~= all);
    lemma_repaired(all);
    let source = repaired(all)[k];
    assert(all.contains(source));
    let i = choose|i: int| 0 <= i < all.len() && all[i] == source;
    nothing_new_stays_behind(source.state.pending, source.sent_transition, true);
    assert(sends[k].session == source.session);
    assert(all[i].session == sends[k].session);
}

/// However much of a session's input was lost on the way: the update that one beat sends for
/// it, given to a receiver in step with it, is taken, lets out every edge that the receiver
/// lacked, each once and in the order of the journal, and leads to where the sender is.
pub proof fn a_beat_makes_up_for_what_was_lost(
    before: Linking,
    now: u64,
    sends: Seq<Outgoing>,
    i: int,
    receiver: Reception,
)
    requires
        before.wf(),
        ticks_through(before.sources, now) == before.sources.len(),
        sends_of(sends, repaired(before.sources.take(ticks_through(before.sources, now)))),
        0 <= i < before.sources.len(),
        before.sources[i].state.pending.len() > 0,
        chained(before.sources[i].state),
        receiver.wf(),
        in_step(before.sources[i].state, receiver),
        steps_fit(
            receiver.totals,
            before.sources[i].state,
            receiver.next_transition - journal_start(before.sources[i].state),
        ),
    ensures
        ({
            let sender = before.sources[i].state;
            let first = receiver.next_transition - journal_start(sender);
            exists|k: int|
                0 <= k < sends.len() && (#[trigger] sends[k]).session == before.sources[i].session
                    && ({
                    let outcome = receiver.received(
                        sends[k].update.position,
                        sends[k].update.transitions@,
                    );
                    &&& outcome.error is None
                    &&& outcome.state.next_transition == sender.next_transition
                    &&& outcome.state.totals == sender.position->0.totals
                    &&& edges_of(outcome.events) == Seq::new(
                        (sender.pending.len() - first) as nat,
                        |n: int| Emitted::Desktop(sender.pending[first + n].event),
                    )
                })
        }),
{
    let sender = before.sources[i].state;
    assert(before.sources[i].wf());
    what_is_not_acknowledged_is_sent_again(before, now, sends, i);
    let k = choose|k: int|
        0 <= k < sends.len() && (#[trigger] sends[k]).session == before.sources[i].session && Some(
            sends[k].update.position,
        ) == sender.position && sends[k].update.transitions@ == sender.pending;
    the_latest_update_makes_up_for_all_lost_ones(sender, receiver);
    lemma_journal_comes_out(sender, receiver);
    let first = receiver.next_transition - journal_start(sender);
    assert(Seq::new(
        (sender.pending.len() - first) as nat,
        |n: int| emitted_edge(sender.mode, sender.pending[first + n].event),
    ) =~= Seq::new(
        (sender.pending.len() - first) as nat,
        |n: int| Emitted::Desktop(sender.pending[first + n].event),
    ));
    assert(sends[k].update.position == sender.position->0);
}

proof fn lemma_all_tick(sources: Seq<Sourcing>, now: u64)
    requires
        forall|i: int| 0 <= i < sources.len() ==> tick_error(#[trigger] sources[i], now) is None,
    ensures
        ticks_through(sources, now) == sources.len(),
    decreases sources.len(),
{
    if sources.len() > 0 {
        let front = sources.drop_last();
        assert forall|i: int| 0 <= i < front.len() implies tick_error(
            #[trigger] front[i],
            now,
        ) is None by {
            assert(front[i] == sources[i]);
        }
        lemma_all_tick(front, now);
        assert(tick_error(sources[sources.len() - 1], now) is None);
    }
}

/// A beat ends no connection whose sessions were all heard of in time: where the last
/// acknowledgement of each and the oldest edge of its journal are less than three quarters of
/// a second old, the beat goes through all of them. A session without a position, or without
/// anything to be acknowledged, never ends it for the age of its edges.
pub proof fn a_beat_in_time_goes_through(before: Linking, now: u64)
    requires
        forall|i: int|
            0 <= i < before.sources.len() && (#[trigger] before.sources[i]).state.position is Some
                ==> now - before.sources[i].last_ack < 750_000 && (
            before.sources[i].state.pending.len() > 0 ==> now
                - before.sources[i].state.pending[0].position.captured_us < 750_000),
    ensures
        ticks_through(before.sources, now) == before.sources.len(),
{
    let all = before.sources;
    assert forall|i: int| 0 <= i < all.len() implies tick_error(#[trigger] all[i], now) is None by {
        let source = all[i];
        if source.state.position is Some {
            assert(since(now, source.last_ack) < INPUT_TIMEOUT_US);
        }
    }
    lemma_all_tick(all, now);
}

proof fn lemma_one_stops(sources: Seq<Sourcing>, now: u64, i: int)
    requires
        0 <= i < sources.len(),
        tick_error(sources[i], now) is Some,
    ensures
        ticks_through(sources, now) <= i,
    decreases sources.len(),
{
    if i < sources.len() - 1 {
        assert(sources.drop_last()[i] == sources[i]);
        lemma_one_stops(sources.drop_last(), now, i);
    }
}

/// A session that was not acknowledged for too long ends the connection, and so does one
/// whose oldest edge is three quarters of a second old and still not acknowledged.
pub proof fn a_silent_peer_ends_the_connection(before: Linking, now: u64, i: int)
    requires
        0 <= i < before.sources.len(),
        before.sources[i].state.position is Some,
        ({
            ||| now - before.sources[i].last_ack >= 5_000_000
            ||| before.sources[i].acknowledged_serial > 0 && now - before.sources[i].last_ack
                >= 750_000
            ||| before.sources[i].state.pending.len() > 0 && now
                - before.sources[i].state.pending[0].position.captured_us >= 750_000
        }),
    ensures
        ticks_through(before.sources, now) < before.sources.len(),
{
    lemma_one_stops(before.sources, now, i);
}

/// A beat takes nothing back and forgets nothing: every session keeps its journal, its
/// position and what was acknowledged of it.
pub proof fn a_beat_keeps_every_session(before: Linking, now: u64, i: int)
    requires
        0 <= i < before.sources.len(),
    ensures
        ({
            let after = tick_all(before.sources, ticks_through(before.sources, now));
            &&& after.len() == before.sources.len()
            &&& after[i].session == before.sources[i].session
            &&& after[i].abandoned == before.sources[i].abandoned
            &&& after[i].state == before.sources[i].state
            &&& after[i].acknowledged_serial == before.sources[i].acknowledged_serial
            &&& after[i].last_ack == before.sources[i].last_ack
            &&& after[i].finish == before.sources[i].finish
        }),
{
}

/// The update that goes out with an event holds it: for a key, a button or the end of a scroll
/// its newest edge is the event, numbered after all edges before it and dated by its capture,
/// and every edge that was not sent before goes along; for motion its position is the one
/// before, moved by the event.
pub proof fn an_event_goes_out_at_once(
    source: Sourcing,
    event: InputEvent,
    captured_us: u64,
    now: u64,
    update: Update,
)
    requires
        source.wf(),
        source.sent_transition <= source.state.next_transition,
        feed_error(source, event, captured_us, now) is None,
        update_of(update, fed(source, event, captured_us), false),
    ensures
        update.position.captured_us == captured_us,
        update.position.serial == source.state.serial + 1,
        event is Key || event is Button || event is ScrollStop ==> {
            &&& update.transitions@.len() > 0
            &&& update.transitions@.last().event == event
            &&& update.transitions@.last().id == source.state.next_transition
            &&& update.transitions@.last().position.captured_us == captured_us
            &&& update.position.barrier == source.state.next_transition + 1
            &&& update.position.totals == source.state.totals()
        },
        forall|n: int|
            0 <= n < source.state.pending.len() && (#[trigger] source.state.pending[n]).id
                >= source.sent_transition ==> update.transitions@.contains(source.state.pending[n]),
        source.state.totals() matches Totals::Desktop {
            x,
            y,
            scroll_x,
            scroll_y,
            wheel_x,
            wheel_y,
        } ==> match event {
            InputEvent::Motion { dx, dy } => update.position.totals
                == (Totals::Desktop {
                x: (x + dx) as i64,
                y: (y + dy) as i64,
                scroll_x,
                scroll_y,
                wheel_x,
                wheel_y,
            }) && i64::MIN <= x + dx <= i64::MAX && i64::MIN <= y + dy <= i64::MAX,
            InputEvent::ScrollPixels { dx, dy } => update.position.totals
                == (Totals::Desktop {
                x,
                y,
                scroll_x: (scroll_x + dx) as i64,
                scroll_y: (scroll_y + dy) as i64,
                wheel_x,
                wheel_y,
            }) && i64::MIN <= scroll_x + dx <= i64::MAX && i64::MIN <= scroll_y + dy <= i64::MAX,
            InputEvent::Scroll120 { dx, dy } => update.position.totals
                == (Totals::Desktop {
                x,
                y,
                scroll_x,
                scroll_y,
                wheel_x: (wheel_x + dx) as i64,
                wheel_y: (wheel_y + dy) as i64,
            }) && i64::MIN <= wheel_x + dx <= i64::MAX && i64::MIN <= wheel_y + dy <= i64::MAX,
            _ => true,
        },
{
    let next = fed(source, event, captured_us);
    let pending = next.state.pending;
    nothing_new_stays_behind(pending, source.sent_transition, false);
    if event is Key || event is Button || event is ScrollStop {
        assert(pending.last().event == event);
        assert(pending.last().id == source.state.next_transition);
        assert(update.transitions@ == outgoing(pending, source.sent_transition, false));
        assert(update.transitions@.last() == pending.last());
    }
    assert forall|n: int|
        0 <= n < source.state.pending.len() && (#[trigger] source.state.pending[n]).id
            >= source.sent_transition implies update.transitions@.contains(
        source.state.pending[n],
    ) by {
        assert(pending[n] == source.state.pending[n]);
    }
}

/// An acknowledgement takes from the journal the edges below its number and no others; what is
/// left keeps its order, and neither the position nor the numbering changes.
pub proof fn only_acknowledged_edges_leave_the_journal(source: Sourcing, next: u64)
    requires
        source.wf(),
        next <= source.state.next_transition,
    ensures
        ({
            let before = source.state;
            let after = before.acknowledged(next);
            &&& after.position == before.position
            &&& after.serial == before.serial
            &&& after.next_transition == before.next_transition
            &&& forall|n: int|
                0 <= n < after.pending.len() ==> (#[trigger] after.pending[n]).id >= next
            &&& forall|n: int|
                0 <= n < before.pending.len() && (#[trigger] before.pending[n]).id >= next
                    ==> after.pending.contains(before.pending[n])
            &&& after.pending == before.pending.skip(before.pending.len() - after.pending.len())
        }),
{
    let before = source.state;
    let after = before.acknowledged(next);
    let dropped = before.settled(next);
    assert forall|n: int| 0 <= n < after.pending.len() implies (
    #[trigger] after.pending[n]).id >= next by {
        assert(after.pending[n] == before.pending[n + dropped]);
    }
    assert forall|n: int| 0 <= n < before.pending.len() && (
    #[trigger] before.pending[n]).id >= next implies after.pending.contains(before.pending[n]) by {
        assert(after.pending[n - dropped] == before.pending[n]);
    }
}

/// Reaping drops a session exactly where its end was asked for, its journal is empty and its
/// latest position was acknowledged; then who waits for it is told. Every other session goes
/// on as it is.
pub proof fn a_session_ends_once_all_of_it_arrived(sources: Seq<Sourcing>, i: int)
    requires
        0 <= i < sources.len(),
    ensures
        ({
            let arrived = sources[i].state.pending.len() == 0 && (
            sources[i].state.position matches Some(p) ==> p.serial
                <= sources[i].acknowledged_serial);
            &&& sources[i].finish is Some && arrived ==> waiters(sources).contains(
                sources[i].finish->0,
            )
            &&& sources[i].finish is None || !arrived ==> going_on(sources).contains(sources[i])
        }),
        waiters(sources).len() + going_on(sources).len() == sources.len(),
        forall|k: int|
            0 <= k < going_on(sources).len() ==> sources.contains(#[trigger] going_on(sources)[k])
                && !(going_on(sources)[k].finish is Some && going_on(sources)[k].state.pending.len()
                == 0 && (going_on(sources)[k].state.position matches Some(p) ==> p.serial
                <= going_on(sources)[k].acknowledged_serial)),
    decreases sources.len(),
{
    let front = sources.drop_last();
    if front.len() > 0 {
        let j = if i < front.len() {
            i
        } else {
            0
        };
        a_session_ends_once_all_of_it_arrived(front, j);
    } else {
        assert(waiters(front).len() == 0 && going_on(front).len() == 0);
    }
    if i < front.len() {
        assert(front[i] == sources[i]);
        if waiters(front).contains(sources[i].finish->0) {
            let k = choose|k: int|
                0 <= k < waiters(front).len() && waiters(front)[k] == sources[i].finish->0;
            assert(waiters(sources)[k] == sources[i].finish->0);
        }
        if going_on(front).contains(sources[i]) {
            let k = choose|k: int|
                0 <= k < going_on(front).len() && going_on(front)[k] == sources[i];
            assert(going_on(sources)[k] == sources[i]);
        }
    } else if sources[i].is_complete() {
        assert(waiters(sources).last() == sources[i].finish->0);
    } else {
        assert(going_on(sources).last() == sources[i]);
    }
    assert forall|k: int| 0 <= k < going_on(sources).len() implies sources.contains(
        #[trigger] going_on(sources)[k],
    ) && !going_on(sources)[k].is_complete() by {
        if k < going_on(front).len() {
            assert(going_on(sources)[k] == going_on(front)[k]);
            let n = choose|n: int| 0 <= n < front.len() && front[n] == going_on(front)[k];
            assert(sources[n] == going_on(sources)[k]);
        } else {
            assert(sources[sources.len() - 1] == going_on(sources)[k]);
        }
    }
}

proof fn lemma_slot_is(before: Linking, i: int)
    requires
        before.wf(),
        0 <= i < before.sources.len(),
    ensures
        slot(before.sources, before.sources[i].session) == i,
        sends(before.sources, before.sources[i].session),
{
    let session = before.sources[i].session;
    lemma_slot(before.sources, session);
    let at = slot(before.sources, session);
    if at < i {
        assert(before.sources[at].session < before.sources[i].session);
    }
    if i < at {
        assert(before.sources[i].session < session);
    }
}

/// An acknowledgement in time of all edges and of the latest position leaves nothing of a
/// session to be sent again, and counts as heard of now.
pub proof fn what_was_acknowledged_has_arrived(
    before: Linking,
    i: int,
    sent_us: u64,
    now: u64,
)
    requires
        before.wf(),
        0 <= i < before.sources.len(),
        !before.sources[i].abandoned,
        before.sources[i].state.position is Some,
        sent_us <= now,
        now - sent_us < 750_000,
    ensures
        ({
            let source = before.sources[i];
            let (after, error) = before.acknowledging(
                source.session,
                source.state.next_transition,
                source.state.position->0.serial,
                sent_us,
                now,
            );
            &&& error is None
            &&& after.sources.len() == before.sources.len()
            &&& after.sources[i].state.pending.len() == 0
            &&& after.sources[i].state.position == source.state.position
            &&& after.sources[i].acknowledged_serial >= source.state.position->0.serial
            &&& after.sources[i].last_ack == now
            &&& after.sources[i].session == source.session
        }),
{
    lemma_slot_is(before, i);
    assert(before.sources[i].wf());
}

/// An acknowledgement takes nothing back and concerns no other session: what was acknowledged
/// stays so, the journal only gets shorter at its head, by edges below the number
/// acknowledged, and every other session is as it was. One of edges or positions that were
/// never sent ends the connection.
pub proof fn an_acknowledgement_takes_nothing_back(
    before: Linking,
    i: int,
    next: u64,
    serial: u64,
    sent_us: u64,
    now: u64,
    j: int,
)
    requires
        before.wf(),
        0 <= i < before.sources.len(),
        0 <= j < before.sources.len(),
    ensures
        ({
            let source = before.sources[i];
            let (after, error) = before.acknowledging(source.session, next, serial, sent_us, now);
            &&& after.sources.len() == before.sources.len()
            &&& after.destination == before.destination
            &&& after.allowed == before.allowed
            &&& j != i ==> after.sources[j] == before.sources[j]
            &&& after.sources[i].acknowledged_serial >= source.acknowledged_serial
            &&& after.sources[i].state.position == source.state.position
            &&& after.sources[i].state.next_transition == source.state.next_transition
            &&& forall|n: int|
                0 <= n < source.state.pending.len() && (#[trigger] source.state.pending[n]).id
                    >= next ==> after.sources[i].state.pending.contains(source.state.pending[n])
            &&& !source.abandoned && sent_us <= now && now - sent_us < 750_000 && (next
                > source.state.next_transition || source.state.position is None || serial
                > source.state.position->0.serial) ==> error is Some
            &&& source.abandoned || sent_us > now || now - sent_us >= 750_000 ==> after == before
                && error is None
        }),
{
    lemma_slot_is(before, i);
    let source = before.sources[i];
    assert(source.wf());
    if next <= source.state.next_transition {
        only_acknowledged_edges_leave_the_journal(source, next);
    }
    let after = before.acknowledging(source.session, next, serial, sent_us, now).0;
    assert forall|n: int|
        0 <= n < source.state.pending.len() && (#[trigger] source.state.pending[n]).id
            >= next implies after.sources[i].state.pending.contains(source.state.pending[n]) by {
        assert(source.state.pending[n].id == source.state.next_transition
            - source.state.pending.len() + n);
    }
}

/// The way there and back: the journal and position that a session has outstanding, taken by
/// a receiver in step with it and acknowledged in time, leave nothing of it to be sent again.
pub proof fn what_arrives_is_not_sent_again(
    before: Linking,
    i: int,
    receiver: Reception,
    sent_us: u64,
    now: u64,
)
    requires
        before.wf(),
        0 <= i < before.sources.len(),
        !before.sources[i].abandoned,
        chained(before.sources[i].state),
        receiver.wf(),
        in_step(before.sources[i].state, receiver),
        steps_fit(
            receiver.totals,
            before.sources[i].state,
            receiver.next_transition - journal_start(before.sources[i].state),
        ),
        before.sources[i].state.position->0.barrier <= before.sources[i].state.next_transition,
        sent_us <= now,
        now - sent_us < 750_000,
    ensures
        ({
            let source = before.sources[i];
            let outcome = receiver.received(source.state.position->0, source.state.pending);
            let ack = acknowledgement(
                source.session,
                source.state.position->0,
                outcome.state,
                sent_us,
            );
            let (after, error) = before.acknowledging(
                ack.session,
                ack.next,
                ack.serial,
                ack.sent_us,
                now,
            );
            &&& outcome.error is None
            &&& error is None
            &&& after.sources[i].state.pending.len() == 0
            &&& after.sources[i].acknowledged_serial >= source.state.position->0.serial
        }),
{
    let source = before.sources[i];
    assert(source.wf());
    the_latest_update_makes_up_for_all_lost_ones(source.state, receiver);
    what_was_acknowledged_has_arrived(before, i, sent_us, now);
}

/// Nothing is acknowledged before it came out: the number acknowledged is that of the first
/// edge that the receiver still awaits, and a position is acknowledged only where no edge
/// before it is missing.
pub proof fn nothing_is_acknowledged_early(
    session: u64,
    position: Position,
    state: Reception,
    sent_us: u64,
)
    ensures
        ({
            let ack = acknowledgement(session, position, state, sent_us);
            &&& ack.session == session
            &&& ack.sent_us == sent_us
            &&& ack.next == state.next_transition
            &&& state.next_transition < position.barrier ==> ack.serial == 0
            &&& state.next_transition >= position.barrier ==> ack.serial == position.serial
        }),
{
}

/// A new session stands among the others without disturbing them, and waits for its first
/// input; so does one that is to be received.
pub proof fn a_session_that_may_come_is_awaited(before: Linking, session: u64, now: u64)
    ensures
        ({
            let after = before.allowing(Some(session), now);
            &&& after.allowed == Some(session)
            &&& after.sources == before.sources
            &&& after.destination matches Some(d) && d.session == session
            &&& (before.destination matches Some(d) && d.session == session)
                ==> after.destination == before.destination
            &&& !(before.destination matches Some(d) && d.session == session)
                ==> after.destination->0.state.next_transition == 0
        }),
        before.allowing(None, now).destination is None,
        before.allowing(None, now).allowed is None,
{
}

} // verus!
