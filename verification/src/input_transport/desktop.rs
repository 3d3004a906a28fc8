//! A connection's desktop input: sessions that are sent, and the one that is received.

use super::beat::what_is_not_acknowledged_is_sent_again;
use super::packets::{outgoing, overdue, since, transmit, SendError, INPUT_TIMEOUT_US};
use super::receiver::{batches, delivered, Reception, Receiver};
use super::sender::{Sender, Sending};
use super::state::{Delivery, InputError, Position, Transition, Update};
use crate::input::{InputEvent, InputMode};
use vstd::prelude::*;

verus! {

/// Sessions that may be sent at the same time.
pub const MAX_SESSIONS: usize = 4;

/// Microseconds until the first acknowledgement is due.
pub const FIRST_ACK_US: u64 = 5_000_000;

/// Microseconds between greetings.
pub const GREETING_US: u64 = 100_000;

/// Why a connection's input ends.
#[derive(Clone, Copy, Debug, PartialEq, Eq, Structural)]
pub enum LinkError {
    OverlappingSessions,
    CaptureOverdue,
    Input(InputError),
    Send(SendError),
    EndedTwice,
    InvalidTimestamp,
    InvalidAcknowledgement,
    NotAcknowledged,
    SourceSilent,
}

/// A session that is sent.
pub struct Source {
    pub session: u64,
    pub abandoned: bool,
    pub state: Sender,
    pub sent_transition: u64,
    pub acknowledged_serial: u64,
    pub last_ack: u64,
    /// Who waits for the end of the session.
    pub finish: Option<u64>,
}

pub ghost struct Sourcing {
    pub session: u64,
    pub abandoned: bool,
    pub state: Sending,
    pub sent_transition: u64,
    pub acknowledged_serial: u64,
    pub last_ack: u64,
    pub finish: Option<u64>,
}

impl View for Source {
    type V = Sourcing;

    open spec fn view(&self) -> Sourcing {
        Sourcing {
            session: self.session,
            abandoned: self.abandoned,
            state: self.state@,
            sent_transition: self.sent_transition,
            acknowledged_serial: self.acknowledged_serial,
            last_ack: self.last_ack,
            finish: self.finish,
        }
    }
}

/// A desktop sender that was given nothing yet.
pub open spec fn idle() -> Sending {
    Sending {
        mode: InputMode::Desktop,
        devices: Seq::empty(),
        position: None,
        pending: Seq::empty(),
        serial: 0,
        next_transition: 0,
    }
}

impl Sourcing {
    /// A session that starts: a motion of nothing, so that it has a position.
    pub open spec fn starting(session: u64, now: u64) -> Sourcing {
        Sourcing {
            session,
            abandoned: false,
            state: idle().after_event(InputEvent::Motion { dx: 0, dy: 0 }, now)->Ok_0,
            sent_transition: 0,
            acknowledged_serial: 0,
            last_ack: now,
            finish: None,
        }
    }

    /// Everything sent was acknowledged.
    pub open spec fn is_delivered(self) -> bool {
        &&& self.state.pending.len() == 0
        &&& self.state.position matches Some(p) ==> p.serial <= self.acknowledged_serial
    }

    /// The session ended and everything arrived.
    pub open spec fn is_complete(self) -> bool {
        self.finish is Some && self.is_delivered()
    }

    pub open spec fn wf(self) -> bool {
        self.state.wf() && self.state.mode is Desktop
    }
}

pub struct Destination {
    pub session: u64,
    pub state: Receiver,
    pub last_receive: u64,
}

pub ghost struct Landing {
    pub session: u64,
    pub state: Reception,
    pub last_receive: u64,
}

impl View for Destination {
    type V = Landing;

    open spec fn view(&self) -> Landing {
        Landing { session: self.session, state: self.state@, last_receive: self.last_receive }
    }
}

impl Landing {
    pub open spec fn starting(session: u64, now: u64) -> Landing {
        Landing { session, state: Reception::new(InputMode::Desktop), last_receive: now }
    }
}

pub struct Link {
    pub sources: Vec<Source>,
    pub destination: Option<Destination>,
    /// The session that may be received.
    pub allowed: Option<u64>,
    pub last_heartbeat: u64,
}

pub ghost struct Linking {
    pub sources: Seq<Sourcing>,
    pub destination: Option<Landing>,
    pub allowed: Option<u64>,
    pub last_heartbeat: u64,
}

pub open spec fn sourcings(sources: Seq<Source>) -> Seq<Sourcing> {
    Seq::new(sources.len(), |i: int| sources[i]@)
}

impl View for Link {
    type V = Linking;

    open spec fn view(&self) -> Linking {
        Linking {
            sources: sourcings(self.sources@),
            destination: match self.destination {
                Some(d) => Some(d@),
                None => None,
            },
            allowed: self.allowed,
            last_heartbeat: self.last_heartbeat,
        }
    }
}

/// The place of a session among those in ascending order.
pub open spec fn slot(sources: Seq<Sourcing>, session: u64) -> int
    decreases sources.len(),
{
    if sources.len() == 0 || sources.last().session < session {
        sources.len() as int
    } else {
        slot(sources.drop_last(), session)
    }
}

/// The session is being sent.
pub open spec fn sends(sources: Seq<Sourcing>, session: u64) -> bool {
    slot(sources, session) < sources.len() && sources[slot(sources, session)].session == session
}

impl Linking {
    /// Sessions come in ascending order, few at a time, and all are desktop sessions.
    pub open spec fn wf(self) -> bool {
        &&& self.sources.len() <= MAX_SESSIONS
        &&& forall|i: int, j: int|
            0 <= i < j < self.sources.len() ==> (#[trigger] self.sources[i]).session < (
            #[trigger] self.sources[j]).session
        &&& forall|i: int| 0 <= i < self.sources.len() ==> (#[trigger] self.sources[i]).wf()
        &&& self.destination matches Some(d) ==> d.state.wf() && d.state.mode is Desktop
    }

    /// The session to receive was decided.
    pub open spec fn allowing(self, session: Option<u64>, now: u64) -> Linking {
        let current = match self.destination {
            Some(d) => Some(d.session),
            None => None,
        };
        Linking {
            allowed: session,
            destination: if current == session {
                self.destination
            } else {
                match session {
                    Some(s) => Some(Landing::starting(s, now)),
                    None => None,
                }
            },
            ..self
        }
    }

    pub open spec fn with_source(self, at: int, source: Sourcing) -> Linking {
        Linking { sources: self.sources.update(at, source), ..self }
    }
}

pub(crate) proof fn lemma_slot(sources: Seq<Sourcing>, session: u64)
    requires
        forall|i: int, j: int|
            0 <= i < j < sources.len() ==> (#[trigger] sources[i]).session < (
            #[trigger] sources[j]).session,
    ensures
        0 <= slot(sources, session) <= sources.len(),
        forall|i: int| 0 <= i < slot(sources, session) ==> (#[trigger] sources[i]).session < session,
        forall|i: int|
            slot(sources, session) <= i < sources.len() ==> (#[trigger] sources[i]).session
                >= session,
    decreases sources.len(),
{
    if sources.len() > 0 && sources.last().session >= session {
        let front = sources.drop_last();
        assert forall|i: int, j: int| 0 <= i < j < front.len() implies (
        #[trigger] front[i]).session < (#[trigger] front[j]).session by {
            assert(sources[i].session < sources[j].session);
        }
        lemma_slot(front, session);
        assert forall|i: int| 0 <= i < slot(sources, session) implies (
        #[trigger] sources[i]).session < session by {
            assert(front[i] == sources[i]);
        }
        assert forall|i: int| slot(sources, session) <= i < sources.len() implies (
        #[trigger] sources[i]).session >= session by {
            if i < front.len() {
                assert(front[i] == sources[i]);
            }
        }
    } else if sources.len() > 0 {
        assert forall|i: int| 0 <= i < sources.len() implies (
        #[trigger] sources[i]).session < session by {
            if i < sources.len() - 1 {
                assert(sources[i].session < sources[sources.len() - 1].session);
            }
        }
    }
}

impl Source {
    /// Everything sent was acknowledged.
    pub fn delivered(&self) -> (r: bool)
        ensures
            r == self@.is_delivered(),
    {
        self.state.pending().len() == 0 && match self.state.position() {
            Some(position) => position.serial <= self.acknowledged_serial,
            None => true,
        }
    }
}

/// What an input event asks for: an update to send for its session.
pub struct Outgoing {
    pub session: u64,
    pub update: Update,
}

/// An acknowledgement to send.
#[derive(Clone, Copy, Debug, PartialEq, Eq, Structural)]
pub struct Acknowledgement {
    pub session: u64,
    pub next: u64,
    pub serial: u64,
    pub sent_us: u64,
}

/// What a data packet lets out, and its acknowledgement.
pub struct Arrival {
    pub deliveries: Vec<Delivery>,
    pub ack: Acknowledgement,
}

/// What a tick asks for.
pub struct Beat {
    pub sends: Vec<Outgoing>,
    pub greet: bool,
    pub error: Option<LinkError>,
}

/// A source after its update went out.
pub open spec fn sent(source: Sourcing) -> Sourcing {
    Sourcing {
        sent_transition: match source.state.position {
            Some(p) => p.barrier,
            None => source.sent_transition,
        },
        ..source
    }
}

/// The update of a source: its position and the edges that go out.
pub open spec fn update_of(update: Update, source: Sourcing, repair: bool) -> bool {
    &&& source.state.position == Some(update.position)
    &&& update.transitions@ == outgoing(source.state.pending, source.sent_transition, repair)
}

/// A source after an event, before its update goes out.
pub open spec fn fed(source: Sourcing, event: InputEvent, captured_us: u64) -> Sourcing {
    Sourcing { state: source.state.after_event(event, captured_us)->Ok_0, ..source }
}

/// Why an event of a running session ends the connection.
pub open spec fn feed_error(
    source: Sourcing,
    event: InputEvent,
    captured_us: u64,
    now: u64,
) -> Option<LinkError> {
    if since(now, captured_us) >= INPUT_TIMEOUT_US {
        Some(LinkError::CaptureOverdue)
    } else {
        match source.state.after_event(event, captured_us) {
            Err(e) => Some(LinkError::Input(e)),
            Ok(state) => if overdue(state, now) {
                Some(LinkError::Send(SendError::Overdue))
            } else {
                None
            },
        }
    }
}

/// A session takes events: it is known, neither abandoned nor ending.
pub open spec fn takes_events(state: Linking, session: u64) -> bool {
    &&& sends(state.sources, session)
    &&& !state.sources[slot(state.sources, session)].abandoned
    &&& state.sources[slot(state.sources, session)].finish is None
}

/// Capture times of an update are set, and not later than its sending.
pub open spec fn timely(position: Position, transitions: Seq<Transition>, sent_us: u64) -> bool {
    &&& 0 < position.captured_us <= sent_us
    &&& forall|i: int|
        0 <= i < transitions.len() ==> 0 < (#[trigger] transitions[i]).position.captured_us
            <= sent_us
}

fn capture_times(update: &Update, sent_us: u64) -> (r: bool)
    ensures
        r == timely(update.position, update.transitions@, sent_us),
{
    if update.position.captured_us == 0 || update.position.captured_us > sent_us {
        return false;
    }
    for i in 0..update.transitions.len()
        invariant
            forall|k: int|
                0 <= k < i ==> 0 < (#[trigger] update.transitions@[k]).position.captured_us
                    <= sent_us,
    {
        let captured: u64 = update.transitions[i].position.captured_us;
        if captured == 0 || captured > sent_us {
            return false;
        }
    }
    true
}

/// Input that reaches its destination in time.
pub fn in_time(captured_us: u64, now: u64) -> (r: bool)
    ensures
        r == (since(now, captured_us) < INPUT_TIMEOUT_US),
{
    now < captured_us || now - captured_us < INPUT_TIMEOUT_US
}

/// A stamp that came back while it still counts.
pub open spec fn stamp_counts(sent_us: u64, now: u64) -> bool {
    sent_us <= now && now - sent_us < INPUT_TIMEOUT_US
}

impl Link {
    pub fn new(now: u64) -> (r: Self)
        ensures
            r@ == (Linking {
                sources: Seq::empty(),
                destination: None,
                allowed: None,
                last_heartbeat: now,
            }),
            r@.wf(),
    {
        let r = Link { sources: Vec::new(), destination: None, allowed: None, last_heartbeat: now };
        assert(r@.sources =~= Seq::empty());
        r
    }

    fn find(&self, session: u64) -> (r: usize)
        requires
            self@.wf(),
        ensures
            r == slot(self@.sources, session),
            r <= self.sources@.len(),
    {
        let mut at: usize = 0;
        proof {
            lemma_slot(self@.sources, session);
        }
        while at < self.sources.len() && self.sources[at].session < session
            invariant
                at <= slot(self@.sources, session) <= self.sources@.len(),
                forall|i: int|
                    slot(self@.sources, session) <= i < self@.sources.len() ==> (
                    #[trigger] self@.sources[i]).session >= session,
                forall|i: int|
                    0 <= i < slot(self@.sources, session) ==> (#[trigger] self@.sources[i]).session
                        < session,
            ensures
                at == slot(self@.sources, session),
            decreases self.sources.len() - at,
        {
            assert(self@.sources[at as int].session < session);
            at = at + 1;
            if at < self.sources.len() {
                assert(self@.sources[at as int].session == self.sources[at as int].session);
            }
        }
        at
    }

    /// The session that may be received changed.
    pub fn allow(&mut self, session: Option<u64>, now: u64)
        requires
            old(self)@.wf(),
        ensures
            final(self)@ == old(self)@.allowing(session, now),
            final(self)@.wf(),
    {
        let current: Option<u64> = match &self.destination {
            Some(target) => Some(target.session),
            None => None,
        };
        let same: bool = match (current, session) {
            (Some(a), Some(b)) => a == b,
            (None, None) => true,
            _ => false,
        };
        self.allowed = session;
        if !same {
            self.destination = match session {
                Some(session) => Some(
                    Destination {
                        session,
                        state: Receiver::new(InputMode::Desktop),
                        last_receive: now,
                    },
                ),
                None => None,
            };
        }
    }

    /// A session begins.
    pub fn start(&mut self, session: u64, now: u64) -> (r: Result<(), LinkError>)
        requires
            old(self)@.wf(),
        ensures
            final(self)@.wf(),
            ({
                let before = old(self)@;
                if sends(before.sources, session) || before.sources.len() >= MAX_SESSIONS {
                    r == Err::<(), LinkError>(LinkError::OverlappingSessions) && final(self)@
                        == before
                } else {
                    r == Ok::<(), LinkError>(()) && final(self)@ == (Linking {
                        sources: before.sources.insert(
                            slot(before.sources, session),
                            Sourcing::starting(session, now),
                        ),
                        ..before
                    })
                }
            }),
    {
        let at: usize = self.find(session);
        proof {
            lemma_slot(self@.sources, session);
        }
        if at < self.sources.len() && self.sources[at].session == session {
            return Err(LinkError::OverlappingSessions);
        }
        if self.sources.len() >= MAX_SESSIONS {
            return Err(LinkError::OverlappingSessions);
        }
        let mut state = Sender::new(InputMode::Desktop);
        assert(state@ == idle());
        match state.push_desktop(InputEvent::Motion { dx: 0, dy: 0 }, now) {
            Ok(_) => {},
            Err(e) => {
                assert(false);
            },
        }
        let ghost before = self@.sources;
        let source = Source {
            session,
            abandoned: false,
            state,
            sent_transition: 0,
            acknowledged_serial: 0,
            last_ack: now,
            finish: None,
        };
        let ghost fresh = source@;
        self.sources.insert(at, source);
        proof {
            let after = self@.sources;
            assert(after =~= before.insert(at as int, fresh));
            assert forall|i: int, j: int| 0 <= i < j < after.len() implies (
            #[trigger] after[i]).session < (#[trigger] after[j]).session by {
                let p = if i < at {
                    i
                } else {
                    i - 1
                };
                let q = if j < at {
                    j
                } else {
                    j - 1
                };
                if i != at && j != at {
                    assert(before[p].session < before[q].session);
                } else if i == at {
                    assert(before[q].session >= session);
                } else {
                    assert(before[p].session < session);
                }
            }
            assert forall|i: int| 0 <= i < after.len() implies (#[trigger] after[i]).wf() by {
                if i < at {
                    assert(before[i].wf());
                } else if i > at {
                    assert(before[i - 1].wf());
                }
            }
        }
        Ok(())
    }

    /// An event of a session: the update to send for it.
    pub fn input(&mut self, session: u64, event: InputEvent, captured_us: u64, now: u64) -> (r:
        Result<Option<Outgoing>, LinkError>)
        requires
            old(self)@.wf(),
        ensures
            final(self)@.wf(),
            ({
                let before = old(self)@;
                let at = slot(before.sources, session);
                let source = before.sources[at];
                if !takes_events(before, session) {
                    r matches Ok(None) && final(self)@ == before
                } else {
                    match feed_error(source, event, captured_us, now) {
                        Some(e) => {
                            &&& r matches Err(error) && error == e
                            &&& final(self)@ == if e is Send {
                                before.with_source(at, fed(source, event, captured_us))
                            } else {
                                before
                            }
                        },
                        None => {
                            let next = fed(source, event, captured_us);
                            &&& r matches Ok(Some(out)) && out.session == session && update_of(
                                out.update,
                                next,
                                false,
                            )
                            &&& final(self)@ == before.with_source(at, sent(next))
                        },
                    }
                }
            }),
    {
        let at: usize = self.find(session);
        if at >= self.sources.len() || self.sources[at].session != session {
            return Ok(None);
        }
        assert(self@.sources[at as int] == self.sources@[at as int]@);
        if self.sources[at].abandoned || self.sources[at].finish.is_some() {
            return Ok(None);
        }
        if !in_time(captured_us, now) {
            return Err(LinkError::CaptureOverdue);
        }
        let ghost before = self@;
        assert(before.sources[at as int].wf());
        let mut source = self.sources.remove(at);
        match source.state.push_desktop(event, captured_us) {
            Ok(_) => {},
            Err(e) => {
                self.sources.insert(at, source);
                assert(self@.sources =~= before.sources);
                return Err(LinkError::Input(e));
            },
        }
        let ghost next = source@;
        let update = match transmit(&source.state, now, source.sent_transition, false) {
            Ok(Some(update)) => update,
            Ok(None) => {
                assert(false);
                return Ok(None);
            },
            Err(e) => {
                self.sources.insert(at, source);
                proof {
                    assert(self@.sources =~= before.sources.update(at as int, next));
                    lemma_with_source(before, at as int, next);
                }
                return Err(LinkError::Send(e));
            },
        };
        source.sent_transition = update.position.barrier;
        let ghost after = source@;
        self.sources.insert(at, source);
        proof {
            assert(self@.sources =~= before.sources.update(at as int, after));
            lemma_with_source(before, at as int, after);
        }
        Ok(Some(Outgoing { session, update }))
    }

    /// A session ends; the waiter is told at once where it is not known.
    pub fn finish(&mut self, session: u64, waiter: u64) -> (r: Result<Option<u64>, LinkError>)
        requires
            old(self)@.wf(),
        ensures
            final(self)@.wf(),
            ({
                let before = old(self)@;
                let at = slot(before.sources, session);
                if !sends(before.sources, session) {
                    r == Ok::<Option<u64>, LinkError>(Some(waiter)) && final(self)@ == before
                } else if before.sources[at].finish is Some {
                    r == Err::<Option<u64>, LinkError>(LinkError::EndedTwice) && final(self)@
                        == before
                } else {
                    r == Ok::<Option<u64>, LinkError>(None) && final(self)@ == before.with_source(
                        at,
                        Sourcing { finish: Some(waiter), ..before.sources[at] },
                    )
                }
            }),
    {
        let at: usize = self.find(session);
        if at >= self.sources.len() || self.sources[at].session != session {
            return Ok(Some(waiter));
        }
        assert(self@.sources[at as int] == self.sources@[at as int]@);
        if self.sources[at].finish.is_some() {
            return Err(LinkError::EndedTwice);
        }
        let ghost before = self@;
        let mut source = self.sources.remove(at);
        source.finish = Some(waiter);
        let ghost after = source@;
        self.sources.insert(at, source);
        proof {
            assert(self@.sources =~= before.sources.update(at as int, after));
            assert(before.sources[at as int].wf());
            lemma_with_source(before, at as int, after);
        }
        Ok(None)
    }

    /// What a session has sent no longer counts.
    pub fn abandon(&mut self, session: u64)
        requires
            old(self)@.wf(),
        ensures
            final(self)@.wf(),
            ({
                let before = old(self)@;
                let at = slot(before.sources, session);
                final(self)@ == if sends(before.sources, session) {
                    before.with_source(
                        at,
                        Sourcing { abandoned: true, state: idle(), ..before.sources[at] },
                    )
                } else {
                    before
                }
            }),
    {
        let at: usize = self.find(session);
        if at >= self.sources.len() || self.sources[at].session != session {
            return ;
        }
        assert(self@.sources[at as int] == self.sources@[at as int]@);
        let ghost before = self@;
        let mut source = self.sources.remove(at);
        source.abandoned = true;
        source.state = Sender::new(InputMode::Desktop);
        let ghost after = source@;
        self.sources.insert(at, source);
        proof {
            assert(self@.sources =~= before.sources.update(at as int, after));
            lemma_with_source(before, at as int, after);
        }
    }

    /// A greeting came in: the peer is alive.
    pub fn greeted(&mut self, now: u64)
        requires
            old(self)@.wf(),
        ensures
            final(self)@.wf(),
            final(self)@ == (Linking {
                destination: match old(self)@.destination {
                    Some(d) => Some(Landing { last_receive: now, ..d }),
                    None => None,
                },
                ..old(self)@
            }),
    {
        if let Some(mut target) = self.destination.take() {
            target.last_receive = now;
            self.destination = Some(target);
        }
    }

    /// An acknowledgement of edges and a position.
    pub fn acknowledged(&mut self, session: u64, next: u64, serial: u64, sent_us: u64, now: u64) -> (r:
        Result<(), LinkError>)
        requires
            old(self)@.wf(),
        ensures
            final(self)@.wf(),
            final(self)@ == old(self)@.acknowledging(session, next, serial, sent_us, now).0,
            r == match old(self)@.acknowledging(session, next, serial, sent_us, now).1 {
                Some(e) => Err::<(), LinkError>(e),
                None => Ok(()),
            },
    {
        let at: usize = self.find(session);
        if at >= self.sources.len() || self.sources[at].session != session {
            return Ok(());
        }
        assert(self@.sources[at as int] == self.sources@[at as int]@);
        if self.sources[at].abandoned {
            return Ok(());
        }
        if sent_us > now || now - sent_us >= INPUT_TIMEOUT_US {
            return Ok(());
        }
        let ghost before = self@;
        assert(before.sources[at as int].wf());
        let mut source = self.sources.remove(at);
        let ghost first = before.sources[at as int];
        match source.state.acknowledge(next) {
            Ok(_) => {},
            Err(e) => {
                assert(first.state.pending.skip(0) =~= first.state.pending);
                self.sources.insert(at, source);
                assert(self@.sources =~= before.sources);
                return Err(LinkError::Input(e));
            },
        }
        let valid: bool = match source.state.position() {
            Some(position) => serial <= position.serial,
            None => false,
        };
        if !valid {
            let ghost after = source@;
            self.sources.insert(at, source);
            proof {
                assert(self@.sources =~= before.sources.update(at as int, after));
                lemma_with_source(before, at as int, after);
            }
            return Err(LinkError::InvalidAcknowledgement);
        }
        if serial > source.acknowledged_serial {
            source.acknowledged_serial = serial;
        }
        source.last_ack = now;
        let ghost after = source@;
        self.sources.insert(at, source);
        proof {
            assert(self@.sources =~= before.sources.update(at as int, after));
            lemma_with_source(before, at as int, after);
        }
        Ok(())
    }
}

proof fn lemma_with_source(state: Linking, at: int, source: Sourcing)
    requires
        state.wf(),
        0 <= at < state.sources.len(),
        source.wf(),
        source.session == state.sources[at].session,
    ensures
        state.with_source(at, source).wf(),
{
    let after = state.with_source(at, source).sources;
    assert forall|i: int, j: int| 0 <= i < j < after.len() implies (
    #[trigger] after[i]).session < (#[trigger] after[j]).session by {
        assert(state.sources[i].session < state.sources[j].session);
    }
    assert forall|i: int| 0 <= i < after.len() implies (#[trigger] after[i]).wf() by {
        if i != at {
            assert(state.sources[i].wf());
        }
    }
}

/// What is acknowledged of an update once it was taken: the edges that have come out, and the
/// position where no edge before it is missing.
pub open spec fn acknowledgement(
    session: u64,
    position: Position,
    state: Reception,
    sent_us: u64,
) -> Acknowledgement {
    Acknowledgement {
        session,
        next: state.next_transition,
        serial: if state.next_transition >= position.barrier {
            position.serial
        } else {
            0
        },
        sent_us,
    }
}

impl Linking {
    /// An acknowledgement of edges and a position, or why it ends the connection. What comes
    /// late, or for a session that is gone, counts for nothing.
    pub open spec fn acknowledging(
        self,
        session: u64,
        next: u64,
        serial: u64,
        sent_us: u64,
        now: u64,
    ) -> (Linking, Option<LinkError>) {
        let at = slot(self.sources, session);
        let source = self.sources[at];
        if !sends(self.sources, session) || source.abandoned || !stamp_counts(sent_us, now) {
            (self, None)
        } else if next > source.state.next_transition {
            (self, Some(LinkError::Input(InputError::AcknowledgementAhead)))
        } else if source.state.position is None || serial > source.state.position->0.serial {
            (
                self.with_source(
                    at,
                    Sourcing { state: source.state.acknowledged(next), ..source },
                ),
                Some(LinkError::InvalidAcknowledgement),
            )
        } else {
            (
                self.with_source(
                    at,
                    Sourcing {
                        state: source.state.acknowledged(next),
                        acknowledged_serial: if serial > source.acknowledged_serial {
                            serial
                        } else {
                            source.acknowledged_serial
                        },
                        last_ack: now,
                        ..source
                    },
                ),
                None,
            )
        }
    }
}

/// A session whose stamp came back: it is alive where all it sent has arrived.
pub open spec fn alive(source: Sourcing, now: u64) -> Sourcing {
    if !source.abandoned && source.is_delivered() {
        Sourcing { last_ack: now, ..source }
    } else {
        source
    }
}

/// The data packet's session is received, from its beginning where it is new.
pub open spec fn landed(state: Linking, session: u64, now: u64) -> Landing {
    match state.destination {
        Some(d) => if d.session == session {
            d
        } else {
            Landing::starting(session, now)
        },
        None => Landing::starting(session, now),
    }
}

/// Microseconds until an acknowledgement of a session is due.
pub open spec fn patience(source: Sourcing) -> u64 {
    if source.acknowledged_serial == 0 {
        FIRST_ACK_US
    } else {
        INPUT_TIMEOUT_US
    }
}

/// Why a tick ends the connection on account of one session.
pub open spec fn tick_error(source: Sourcing, now: u64) -> Option<LinkError> {
    if source.state.position is None {
        None
    } else if since(now, source.last_ack) >= patience(source) {
        Some(LinkError::NotAcknowledged)
    } else if !source.is_delivered() && overdue(source.state, now) {
        Some(LinkError::Send(SendError::Overdue))
    } else {
        None
    }
}

/// A tick sends a session's journal again.
pub open spec fn repairs(source: Sourcing) -> bool {
    source.state.position is Some && !source.is_delivered()
}

pub open spec fn ticked(source: Sourcing) -> Sourcing {
    if repairs(source) {
        sent(source)
    } else {
        source
    }
}

/// Sessions that a tick goes through before one ends the connection.
pub open spec fn ticks_through(sources: Seq<Sourcing>, now: u64) -> int
    decreases sources.len(),
{
    if sources.len() == 0 {
        0
    } else if ticks_through(sources.drop_last(), now) < sources.len() - 1 {
        ticks_through(sources.drop_last(), now)
    } else if tick_error(sources.last(), now) is Some {
        sources.len() - 1
    } else {
        sources.len() as int
    }
}

/// The sessions that a tick sends again.
pub open spec fn repaired(sources: Seq<Sourcing>) -> Seq<Sourcing>
    decreases sources.len(),
{
    if sources.len() == 0 {
        Seq::empty()
    } else if repairs(sources.last()) {
        repaired(sources.drop_last()).push(sources.last())
    } else {
        repaired(sources.drop_last())
    }
}

/// The updates are those of the given sessions.
pub open spec fn sends_of(sends: Seq<Outgoing>, sources: Seq<Sourcing>) -> bool {
    &&& sends.len() == sources.len()
    &&& forall|i: int|
        0 <= i < sends.len() ==> (#[trigger] sends[i]).session == sources[i].session && update_of(
            sends[i].update,
            sources[i],
            true,
        )
}

pub open spec fn tick_all(sources: Seq<Sourcing>, n: int) -> Seq<Sourcing> {
    Seq::new(
        sources.len(),
        |i: int|
            if i < n {
                ticked(sources[i])
            } else {
                sources[i]
            },
    )
}

/// Who waits for the sessions that are complete.
pub open spec fn waiters(sources: Seq<Sourcing>) -> Seq<u64>
    decreases sources.len(),
{
    if sources.len() == 0 {
        Seq::empty()
    } else if sources.last().is_complete() {
        waiters(sources.drop_last()).push(sources.last().finish->0)
    } else {
        waiters(sources.drop_last())
    }
}

/// The sessions that go on.
pub open spec fn going_on(sources: Seq<Sourcing>) -> Seq<Sourcing>
    decreases sources.len(),
{
    if sources.len() == 0 {
        Seq::empty()
    } else if sources.last().is_complete() {
        going_on(sources.drop_last())
    } else {
        going_on(sources.drop_last()).push(sources.last())
    }
}

proof fn lemma_ticks_through(sources: Seq<Sourcing>, now: u64, n: int)
    requires
        0 <= n < sources.len(),
        ticks_through(sources.take(n + 1), now) == n,
    ensures
        ticks_through(sources, now) == n,
    decreases sources.len() - n,
{
    if n + 1 < sources.len() {
        lemma_ticks_stop(sources, now, n, sources.len() as int);
    } else {
        assert(sources.take(n + 1) =~= sources);
    }
    assert(sources.take(sources.len() as int) =~= sources);
}

proof fn lemma_ticks_stop(sources: Seq<Sourcing>, now: u64, n: int, m: int)
    requires
        0 <= n < m <= sources.len(),
        ticks_through(sources.take(n + 1), now) == n,
    ensures
        ticks_through(sources.take(m), now) == n,
    decreases m,
{
    if m > n + 1 {
        lemma_ticks_stop(sources, now, n, m - 1);
        assert(sources.take(m).drop_last() =~= sources.take(m - 1));
    }
}

proof fn lemma_going_on(sources: Seq<Sourcing>)
    requires
        forall|i: int, j: int|
            0 <= i < j < sources.len() ==> (#[trigger] sources[i]).session < (
            #[trigger] sources[j]).session,
        forall|i: int| 0 <= i < sources.len() ==> (#[trigger] sources[i]).wf(),
    ensures
        going_on(sources).len() <= sources.len(),
        forall|i: int, j: int|
            0 <= i < j < going_on(sources).len() ==> (#[trigger] going_on(sources)[i]).session < (
            #[trigger] going_on(sources)[j]).session,
        forall|i: int|
            0 <= i < going_on(sources).len() ==> (#[trigger] going_on(sources)[i]).wf() && (
            sources.len() > 0 && going_on(sources)[i].session <= sources.last().session),
    decreases sources.len(),
{
    if sources.len() > 0 {
        let front = sources.drop_last();
        assert forall|i: int, j: int| 0 <= i < j < front.len() implies (
        #[trigger] front[i]).session < (#[trigger] front[j]).session by {
            assert(sources[i].session < sources[j].session);
        }
        assert forall|i: int| 0 <= i < front.len() implies (#[trigger] front[i]).wf() by {
            assert(sources[i].wf());
        }
        lemma_going_on(front);
        if front.len() > 0 {
            assert(sources[front.len() - 1].session < sources[front.len() as int].session);
        }
        assert(sources[sources.len() - 1].wf());
    }
}

impl Link {
    /// A stamp came back.
    pub fn greeting_returned(&mut self, sent_us: u64, now: u64)
        requires
            old(self)@.wf(),
        ensures
            final(self)@.wf(),
            final(self)@ == if stamp_counts(sent_us, now) {
                Linking {
                    sources: Seq::new(
                        old(self)@.sources.len(),
                        |i: int| alive(old(self)@.sources[i], now),
                    ),
                    ..old(self)@
                }
            } else {
                old(self)@
            },
    {
        if sent_us > now || now - sent_us >= INPUT_TIMEOUT_US {
            return ;
        }
        let ghost before = self@;
        let ghost goal = Seq::new(before.sources.len(), |i: int| alive(before.sources[i], now));
        let count: usize = self.sources.len();
        for i in 0..count
            invariant
                count == self.sources@.len(),
                self@ == (Linking { sources: self@.sources, ..before }),
                self@.sources.len() == before.sources.len(),
                goal == Seq::new(before.sources.len(), |i: int| alive(before.sources[i], now)),
                forall|k: int| 0 <= k < i ==> (#[trigger] self@.sources[k]) == goal[k],
                forall|k: int| i <= k < count ==> (#[trigger] self@.sources[k]) == before.sources[k],
        {
            let ghost earlier = self@.sources;
            assert(self@.sources[i as int] == self.sources@[i as int]@);
            let live: bool = !self.sources[i].abandoned && self.sources[i].delivered();
            if live {
                let mut source = self.sources.remove(i);
                source.last_ack = now;
                let ghost after = source@;
                self.sources.insert(i, source);
                assert(self@.sources =~= earlier.update(i as int, after));
            }
        }
        proof {
            assert(self@.sources =~= goal);
            assert forall|i: int, j: int| 0 <= i < j < goal.len() implies (
            #[trigger] goal[i]).session < (#[trigger] goal[j]).session by {
                assert(before.sources[i].session < before.sources[j].session);
            }
            assert forall|i: int| 0 <= i < goal.len() implies (#[trigger] goal[i]).wf() by {
                assert(before.sources[i].wf());
            }
        }
    }

    /// A data packet: what it lets out, and the acknowledgement it gets.
    pub fn data(&mut self, session: u64, sent_us: u64, update: Update, now: u64) -> (r: Result<
        Option<Arrival>,
        LinkError,
    >)
        requires
            old(self)@.wf(),
        ensures
            final(self)@.wf(),
            ({
                let before = old(self)@;
                let target = landed(before, session, now);
                let outcome = target.state.received(update.position, update.transitions@);
                if before.allowed != Some(session) {
                    r matches Ok(None) && final(self)@ == before
                } else if !timely(update.position, update.transitions@, sent_us) {
                    &&& r matches Err(e) && e == LinkError::InvalidTimestamp
                    &&& final(self)@ == (Linking { destination: Some(target), ..before })
                } else if outcome.error is Some {
                    &&& r matches Err(e) && e == LinkError::Input(outcome.error->0)
                    &&& final(self)@ == (Linking {
                        destination: Some(Landing { state: outcome.state, ..target }),
                        ..before
                    })
                } else {
                    &&& r matches Ok(Some(arrival)) && delivered(
                        arrival.deliveries@,
                        batches(outcome.events),
                        InputMode::Desktop,
                    ) && arrival.ack == acknowledgement(
                        session,
                        update.position,
                        outcome.state,
                        sent_us,
                    )
                    &&& final(self)@ == (Linking {
                        destination: Some(
                            Landing { session, state: outcome.state, last_receive: now },
                        ),
                        ..before
                    })
                }
            }),
    {
        let allowed: bool = match self.allowed {
            Some(allowed) => allowed == session,
            None => false,
        };
        if !allowed {
            return Ok(None);
        }
        let current = self.destination.take();
        let mut target: Destination = match current {
            Some(target) => if target.session == session {
                target
            } else {
                Destination {
                    session,
                    state: Receiver::new(InputMode::Desktop),
                    last_receive: now,
                }
            },
            None => Destination {
                session,
                state: Receiver::new(InputMode::Desktop),
                last_receive: now,
            },
        };
        assert(target@ == landed(old(self)@, session, now));
        if !capture_times(&update, sent_us) {
            self.destination = Some(target);
            return Err(LinkError::InvalidTimestamp);
        }
        let serial: u64 = update.position.serial;
        let barrier: u64 = update.position.barrier;
        let ghost first = target.state@;
        proof {
            lemma_mode_stays(first, update.position, update.transitions@);
        }
        match target.state.receive(update) {
            Ok(deliveries) => {
                target.last_receive = now;
                let next: u64 = target.state.next_transition();
                self.destination = Some(target);
                let serial: u64 = if next >= barrier {
                    serial
                } else {
                    0
                };
                Ok(
                    Some(
                        Arrival { deliveries, ack: Acknowledgement { session, next, serial, sent_us } },
                    ),
                )
            },
            Err(e) => {
                self.destination = Some(target);
                Err(LinkError::Input(e))
            },
        }
    }

    /// The beat of the connection: journals to repair, the peer to greet, and what ends it.
    pub fn tick(&mut self, now: u64) -> (r: Beat)
        requires
            old(self)@.wf(),
        ensures
            final(self)@.wf(),
            ({
                let before = old(self)@;
                let through = ticks_through(before.sources, now);
                let silent = before.destination matches Some(d) && since(now, d.last_receive)
                    >= INPUT_TIMEOUT_US;
                let due = since(now, before.last_heartbeat) >= GREETING_US;
                &&& sends_of(r.sends@, repaired(before.sources.take(through)))
                &&& r.error == if through < before.sources.len() {
                    tick_error(before.sources[through], now)
                } else if silent {
                    Some(LinkError::SourceSilent)
                } else {
                    None
                }
                &&& r.greet == (r.error is None && due)
                &&& final(self)@ == (Linking {
                    sources: tick_all(before.sources, through),
                    last_heartbeat: if r.greet {
                        now
                    } else {
                        before.last_heartbeat
                    },
                    ..before
                })
            }),
            r.error is None ==> forall|i: int|
                0 <= i < old(self)@.sources.len() && (
                #[trigger] old(self)@.sources[i]).state.position is Some && (
                old(self)@.sources[i].state.pending.len() > 0
                    || old(self)@.sources[i].state.position->0.serial
                    > old(self)@.sources[i].acknowledged_serial) ==> exists|k: int|
                    0 <= k < r.sends@.len() && (#[trigger] r.sends@[k]).session
                        == old(self)@.sources[i].session && Some(r.sends@[k].update.position)
                        == old(self)@.sources[i].state.position && r.sends@[k].update.transitions@
                        == old(self)@.sources[i].state.pending,
    {
        let mut sends: Vec<Outgoing> = Vec::new();
        let ghost before = self@;
        let ghost all = before.sources;
        let count: usize = self.sources.len();
        let mut i: usize = 0;
        let mut error: Option<LinkError> = None;
        assert(all.take(0) =~= Seq::empty());
        while i < count && error.is_none()
            invariant
                count == self.sources@.len(),
                count == all.len(),
                i <= count,
                before.wf(),
                before.sources == all,
                self@ == (Linking { sources: self@.sources, ..before }),
                self@.sources == tick_all(all, i as int),
                sends_of(sends@, repaired(all.take(i as int))),
                error is None ==> ticks_through(all.take(i as int), now) == i,
                error is Some ==> i < count && ticks_through(all, now) == i && error == tick_error(
                    all[i as int],
                    now,
                ),
            ensures
                before.wf(),
                i <= count,
                self@ == (Linking { sources: tick_all(all, i as int), ..before }),
                sends_of(sends@, repaired(all.take(i as int))),
                error is None ==> i == count && ticks_through(all.take(i as int), now) == i,
                error is Some ==> i < count && ticks_through(all, now) == i && error == tick_error(
                    all[i as int],
                    now,
                ),
            decreases count - i + (if error is None {
                1int
            } else {
                0
            }),
        {
            let ghost source = all[i as int];
            assert(all.take(i + 1).drop_last() =~= all.take(i as int));
            assert(self@.sources[i as int] == source);
            assert(self.sources@[i as int]@ == source);
            assert(source.wf());
            proof {
                if tick_error(source, now) is Some {
                    lemma_ticks_through(all, now, i as int);
                }
            }
            let placed: bool = self.sources[i].state.position().is_some();
            if placed {
                let deadline: u64 = if self.sources[i].acknowledged_serial == 0 {
                    FIRST_ACK_US
                } else {
                    INPUT_TIMEOUT_US
                };
                let last: u64 = self.sources[i].last_ack;
                if now >= last && now - last >= deadline {
                    error = Some(LinkError::NotAcknowledged);
                } else if !self.sources[i].delivered() {
                    match transmit(&self.sources[i].state, now, self.sources[i].sent_transition, true) {
                        Ok(Some(update)) => {
                            let ghost earlier = sends@;
                            let ghost held = self@.sources;
                            let session: u64 = self.sources[i].session;
                            let barrier: u64 = update.position.barrier;
                            sends.push(Outgoing { session, update });
                            let mut moved = self.sources.remove(i);
                            moved.sent_transition = barrier;
                            let ghost after = moved@;
                            self.sources.insert(i, moved);
                            assert(self@.sources =~= held.update(i as int, after));
                            assert(after == ticked(source));
                        },
                        Ok(None) => {
                            assert(false);
                        },
                        Err(e) => {
                            error = Some(LinkError::Send(e));
                        },
                    }
                }
            }
            if error.is_none() {
                i = i + 1;
                assert(self@.sources =~= tick_all(all, i as int));
            }
        }
        assert(all.take(all.len() as int) =~= all);
        proof {
            let now_sources = self@.sources;
            assert forall|a: int, b: int| 0 <= a < b < now_sources.len() implies (
            #[trigger] now_sources[a]).session < (#[trigger] now_sources[b]).session by {
                assert(all[a].session < all[b].session);
            }
            assert forall|a: int| 0 <= a < now_sources.len() implies (
            #[trigger] now_sources[a]).wf() by {
                assert(all[a].wf());
            }
        }
        if error.is_none() {
            if let Some(target) = &self.destination {
                if !in_time(target.last_receive, now) {
                    error = Some(LinkError::SourceSilent);
                }
            }
        }
        let greet: bool = error.is_none() && now >= self.last_heartbeat && now - self.last_heartbeat
            >= GREETING_US;
        if greet {
            self.last_heartbeat = now;
        }
        let beat = Beat { sends, greet, error };
        proof {
            if beat.error is None {
                assert forall|k: int|
                    0 <= k < before.sources.len() && (
                    #[trigger] before.sources[k]).state.position is Some && (
                    before.sources[k].state.pending.len() > 0
                        || before.sources[k].state.position->0.serial
                        > before.sources[k].acknowledged_serial) implies exists|n: int|
                    0 <= n < beat.sends@.len() && (#[trigger] beat.sends@[n]).session
                        == before.sources[k].session && Some(beat.sends@[n].update.position)
                        == before.sources[k].state.position && beat.sends@[n].update.transitions@
                        == before.sources[k].state.pending by {
                    what_is_not_acknowledged_is_sent_again(before, now, beat.sends@, k);
                }
            }
        }
        beat
    }

    /// Drops the sessions that are complete, and names who waits for them.
    pub fn reap(&mut self) -> (r: Vec<u64>)
        requires
            old(self)@.wf(),
        ensures
            final(self)@.wf(),
            r@ == waiters(old(self)@.sources),
            final(self)@ == (Linking { sources: going_on(old(self)@.sources), ..old(self)@ }),
    {
        let ghost before = self@;
        let ghost all = before.sources;
        let mut out: Vec<u64> = Vec::new();
        let mut kept: Vec<Source> = Vec::new();
        let count: usize = self.sources.len();
        assert(all.skip(0) =~= all);
        assert(all.take(0) =~= Seq::empty());
        assert(sourcings(kept@) =~= Seq::empty());
        for i in 0..count
            invariant
                count == all.len(),
                self@ == (Linking { sources: self@.sources, ..before }),
                self@.sources == all.skip(i as int),
                out@ == waiters(all.take(i as int)),
                sourcings(kept@) == going_on(all.take(i as int)),
        {
            assert(all.take(i + 1).drop_last() =~= all.take(i as int));
            assert(self@.sources.len() == self.sources@.len());
            assert(self@.sources[0] == self.sources@[0]@);
            let ghost rest = self@.sources;
            let source = self.sources.remove(0);
            assert(self@.sources =~= rest.skip(1));
            assert(self@.sources =~= all.skip(i + 1));
            let complete: bool = source.finish.is_some() && source.delivered();
            if complete {
                match source.finish {
                    Some(waiter) => {
                        out.push(waiter);
                    },
                    None => {
                        assert(false);
                    },
                }
            } else {
                let ghost earlier = sourcings(kept@);
                let ghost last = source@;
                kept.push(source);
                assert(sourcings(kept@) =~= earlier.push(last));
            }
        }
        assert(all.take(all.len() as int) =~= all);
        self.sources = kept;
        proof {
            lemma_going_on(all);
        }
        out
    }
}

proof fn lemma_mode_stays(state: Reception, position: Position, transitions: Seq<Transition>)
    requires
        state.wf(),
    ensures
        state.received(position, transitions).state.mode == state.mode,
{
    super::laws::progress_never_rewinds(state, position, transitions);
}

/// An abandoned session is left alone: acknowledgements that come late change nothing, and
/// once its end is asked for it is complete.
pub proof fn an_abandoned_session_needs_no_acknowledgement(source: Sourcing, waiter: u64)
    requires
        source.abandoned,
        source.state == idle(),
    ensures
        (Sourcing { finish: Some(waiter), ..source }).is_complete(),
        forall|now: u64| #[trigger] tick_error(source, now) is None,
        ticked(source) == source,
{
}

} // verus!
