//! Raw input: from a machine's devices to another's, past both desktops.

use super::notice::{about, just, plain, with_detail, Notice, Trouble};
use super::pointer::{
    along_edge, along_of, amid, amid_edge, edge_position, has_link, contains_link, inside_to,
    keep_within, landed, on_edge, position_inside_to_edge, raw_landing, within,
};
use super::state::{
    Act, Awaiting, Engine, Focus, Frame, LeaveReason, Mind, Os, Peer, RawState, Ticket, LATEST,
};
use crate::geometry::{DisplayRect, Vec2};
use crate::input::InputMode;
use crate::input_settings::mode_for;
use crate::input_transport::socket::Ip;
use crate::layout::{clamp_into_displays, clamped_into, EdgeLink};
use crate::machine::MachineId;
use vstd::prelude::*;

verus! {

/// What was reserved for a raw source to connect to.
#[derive(Clone, Copy, Debug, PartialEq, Eq, Structural)]
pub struct Reservation {
    pub port: u16,
    pub ticket: Ticket,
}

/// What happened to raw input; it matters as long as its operation is the current one.
#[derive(Debug)]
pub enum RawEvent {
    Prepared {
        operation: u64,
        peer: MachineId,
        session: u64,
        pos: Vec2,
        result: Result<Reservation, Notice>,
    },
    Connected { operation: u64, peer: MachineId, session: u64 },
    Ended { operation: u64, peer: MachineId, session: u64, error: Notice },
}

/// The first of the links that a raw pointer crosses towards a machine, or their number.
pub open spec fn boundary_place(
    links: Seq<EdgeLink>,
    from: Seq<char>,
    to: Seq<char>,
    pos: Vec2,
    zone: u32,
) -> int
    decreases links.len(),
{
    if links.len() == 0 {
        0
    } else if at_boundary(links[0], from, to, pos, zone) {
        0
    } else {
        1 + boundary_place(links.skip(1), from, to, pos, zone)
    }
}

/// A raw pointer stands on a link's edge, away from the corners.
pub open spec fn at_boundary(link: EdgeLink, from: Seq<char>, to: Seq<char>, pos: Vec2, zone: u32) -> bool {
    &&& link.from@ == from
    &&& link.to@ == to
    &&& pos == on_edge(link, along_edge(link, pos))
    &&& amid(link, along_edge(link, pos), zone)
}

proof fn lemma_boundary_place(
    links: Seq<EdgeLink>,
    from: Seq<char>,
    to: Seq<char>,
    pos: Vec2,
    zone: u32,
    at: int,
)
    requires
        0 <= at <= links.len(),
        forall|i: int| 0 <= i < at ==> !at_boundary(#[trigger] links[i], from, to, pos, zone),
        at < links.len() ==> at_boundary(links[at], from, to, pos, zone),
    ensures
        boundary_place(links, from, to, pos, zone) == at,
    decreases links.len(),
{
    if links.len() > 0 && at > 0 {
        assert(!at_boundary(links[0], from, to, pos, zone));
        let rest = links.skip(1);
        assert forall|i: int| 0 <= i < at - 1 implies !at_boundary(
            #[trigger] rest[i],
            from,
            to,
            pos,
            zone,
        ) by {
            assert(rest[i] == links[i + 1]);
        }
        lemma_boundary_place(rest, from, to, pos, zone, at - 1);
    }
}

fn find_boundary(
    links: &Vec<EdgeLink>,
    from: &MachineId,
    to: &MachineId,
    pos: Vec2,
    zone: u32,
) -> (r: usize)
    ensures
        r == boundary_place(links@, from@, to@, pos, zone),
        r <= links@.len(),
{
    for i in 0..links.len()
        invariant
            forall|k: int| 0 <= k < i ==> !at_boundary(#[trigger] links@[k], from@, to@, pos, zone),
    {
        let link = &links[i];
        let along: i64 = along_of(link, pos);
        if link.from.same(from) && link.to.same(to) && pos == edge_position(link, along)
            && amid_edge(link, along, zone) {
            proof {
                lemma_boundary_place(links@, from@, to@, pos, zone, i as int);
            }
            return i;
        }
    }
    proof {
        lemma_boundary_place(links@, from@, to@, pos, zone, links@.len() as int);
    }
    links.len()
}

impl Mind {
    pub open spec fn raw_mode(self, target: Seq<char>) -> bool {
        mode_for(self.settings.destinations@, target) == InputMode::Raw
    }

    pub open spec fn linux(self, target: Seq<char>) -> bool {
        self.knows(target) && (self.peer(target).info matches Some(info) && info.os == Os::Linux)
    }

    pub open spec fn address(self, id: Seq<char>) -> Option<Ip> {
        if self.knows(id) {
            self.peer(id).ip
        } else {
            None
        }
    }

    /// Why raw input cannot go to a machine.
    pub open spec fn raw_obstacle(self, target: Seq<char>) -> Option<Trouble> {
        if !(self.me.os is Macos || self.me.os is Linux) {
            Some(Trouble::RawSystem)
        } else if !(self.master_enabled && self.usable(target) && self.enabled(target)) {
            Some(Trouble::Unavailable)
        } else if !self.linux(target) {
            Some(Trouble::RawDestination)
        } else if !self.raw.can_capture {
            Some(Trouble::NoRawCapture)
        } else {
            None
        }
    }

    pub open spec fn raw_refused(self, notice: Notice, now: u64) -> Mind {
        self.raw_trouble(notice).doing(Act::EndCapture(Some(self.last_local))).touched(now)
    }

    /// Raw input is to go to a machine.
    pub open spec fn raw_started(self, target: MachineId, pos: Vec2, edge: Option<u32>, now: u64) -> Mind {
        match self.raw_obstacle(target@) {
            Some(trouble) => self.raw_refused(plain(trouble), now),
            None => Mind {
                awaiting: Some(Awaiting::RawCapture { target, pos, edge }),
                ..self.doing(Act::PrepareRawCapture)
            },
        }
    }

    /// Raw devices can be captured, or not: the machine is asked to prepare.
    pub open spec fn raw_capturable(
        self,
        result: Result<(), Notice>,
        target: MachineId,
        pos: Vec2,
        edge: Option<u32>,
        now: u64,
    ) -> Mind {
        match result {
            Err(notice) => self.raw_refused(notice, now),
            Ok(_) => {
                let number = (self.session + 1) as u64;
                let claimed = self.stopped_raw().claiming(now);
                let begun = Mind {
                    session: number,
                    active_session: number,
                    focus: Focus::Remote(target),
                    pos,
                    raw: RawState { error: None, edge, preparing: Some(target), ..claimed.raw },
                    ..claimed
                };
                if !begun.sends(target@) {
                    begun.raw_trouble(plain(Trouble::RawConnection)).remote_ended(
                        target,
                        LeaveReason::CaptureLost,
                        Some(self.last_local),
                        true,
                        now,
                    )
                } else {
                    begun.posted(
                        target,
                        Frame::RawPrepare {
                            session: number,
                            pos,
                            boundary: !self.settings.focus_lock,
                        },
                    ).doing(
                        Act::AwaitRawTarget {
                            peer: target,
                            session: number,
                            operation: claimed.raw.operation,
                        },
                    ).touched(now)
                }
            },
        }
    }

    pub open spec fn raw_rejected(self, source: MachineId, session: u64, notice: Notice, now: u64) -> Mind {
        self.raw_trouble(notice).posted(
            source,
            Frame::RawReject { session, reason: notice },
        ).touched(now)
    }

    /// A machine asks to send raw input here.
    pub open spec fn raw_preparing(
        self,
        source: MachineId,
        session: u64,
        pos: Vec2,
        boundary: bool,
        now: u64,
    ) -> Mind {
        if session == 0 || !self.admits(source@) || !(self.focus is Local)
            || self.raw.pending_target is Some {
            self.raw_rejected(source, session, plain(Trouble::RawOwner), now)
        } else if session <= self.peer(source@).raw_generation {
            self.raw_rejected(source, session, plain(Trouble::RawReplay), now)
        } else {
            let at = peer_index(self, source@);
            let noted = Mind {
                peers: self.peers.update(
                    at,
                    Peer { raw_generation: session, ..self.peers[at] },
                ),
                ..self
            };
            if !self.raw.can_inject {
                noted.raw_rejected(source, session, plain(Trouble::NoRawInjection), now)
            } else {
                let stopped = noted.stopped_raw();
                Mind {
                    raw: RawState {
                        pending_policy: boundary,
                        pending_target: Some((source, session)),
                        ..stopped.raw
                    },
                    ..stopped
                }.doing(
                    Act::PrepareRawTarget {
                        peer: source,
                        session,
                        pos,
                        operation: stopped.raw.operation,
                    },
                )
            }
        }
    }

    pub open spec fn raw_pending(self, source: Seq<char>, session: u64) -> bool {
        self.raw.pending_target matches Some((peer, number)) && peer@ == source && number
            == session
    }

    /// Devices were prepared for a raw source, or could not be.
    pub open spec fn raw_prepared(
        self,
        source: MachineId,
        session: u64,
        pos: Vec2,
        result: Result<Reservation, Notice>,
        now: u64,
    ) -> Mind {
        if !self.raw_pending(source@, session) {
            self
        } else {
            let settled = Mind { raw: RawState { pending_target: None, ..self.raw }, ..self };
            if !self.admits(source@) || !(self.focus is Local) {
                settled.raw_rejected(source, session, plain(Trouble::RawOwnership), now)
            } else {
                match result {
                    Err(notice) => settled.raw_rejected(source, session, notice, now),
                    Ok(reserved) => settled.raw_beginning(source, session, pos, reserved),
                }
            }
        }
    }

    /// Raw input is to begin here.
    pub open spec fn raw_beginning(
        self,
        source: MachineId,
        session: u64,
        pos: Vec2,
        reserved: Reservation,
    ) -> Mind {
        Mind {
            crossing: None,
            awaiting: Some(
                Awaiting::RawBegin {
                    source,
                    session,
                    pos,
                    port: reserved.port,
                    ticket: reserved.ticket,
                },
            ),
            ..self.doing(Act::EndCapture(None)).doing(Act::BeginRaw { session })
        }
    }

    pub open spec fn raw_begun(
        self,
        result: Result<(), Notice>,
        source: MachineId,
        session: u64,
        pos: Vec2,
        port: u16,
        ticket: Ticket,
        now: u64,
    ) -> Mind {
        match result {
            Err(cause) => self.raw_rejected(
                source,
                session,
                with_detail(Trouble::RawBegin, cause),
                now,
            ),
            Ok(_) => Mind {
                awaiting: Some(Awaiting::RawArm { source, session, pos, port, ticket }),
                ..self.doing(
                    Act::SetRawPolicy { session, boundary: self.raw.pending_policy },
                )
            },
        }
    }

    pub open spec fn raw_armed(
        self,
        result: Result<(), Notice>,
        source: MachineId,
        session: u64,
        pos: Vec2,
        port: u16,
        ticket: Ticket,
        now: u64,
    ) -> Mind {
        match result {
            Err(cause) => self.doing(Act::EndRaw { session }).raw_rejected(
                source,
                session,
                with_detail(Trouble::RawArm, cause),
                now,
            ),
            Ok(_) => Mind {
                awaiting: Some(Awaiting::RawPlace { source, session, port, ticket }),
                ..self.doing(Act::Enter(landed(self.me.displays@, pos)))
            },
        }
    }

    /// The pointer was placed for a raw source, or could not be: then it drives this
    /// machine, and is told where to connect to.
    pub open spec fn raw_placed(
        self,
        result: Result<(), Notice>,
        source: MachineId,
        session: u64,
        port: u16,
        ticket: Ticket,
        now: u64,
    ) -> Mind {
        match result {
            Err(cause) => self.doing(Act::EndRaw { session }).raw_rejected(
                source,
                session,
                with_detail(Trouble::RawPlace, cause),
                now,
            ),
            Ok(_) => {
                let driven = Mind {
                    focus: Focus::Driven(source),
                    active_session: session,
                    raw: RawState {
                        active: true,
                        boundary: self.raw.pending_policy,
                        pending_boundary: None,
                        ..self.raw
                    },
                    ..self
                };
                match self.address(source@) {
                    None => driven.raw_trouble(plain(Trouble::RawSourceAddress)).driven_ended(
                        source,
                        Some(LeaveReason::CaptureLost),
                        now,
                    ),
                    Some(ip) => {
                        let told = driven.doing(
                            Act::ReceiveRaw {
                                peer: source,
                                ip,
                                session,
                                operation: self.raw.operation,
                            },
                        ).doing(Act::SetActive { peer: source, active: true }).posted(
                            source,
                            Frame::RawReady { session, port, ticket },
                        );
                        if self.sends(source@) {
                            told.touched(now)
                        } else {
                            told.driven_ended(source, None, now).touched(now)
                        }
                    },
                }
            },
        }
    }

    pub open spec fn preparing(self, id: Seq<char>) -> bool {
        self.raw.preparing matches Some(peer) && peer@ == id
    }

    /// A machine is ready for raw input.
    pub open spec fn raw_readied(self, from: MachineId, session: u64, port: u16, ticket: Ticket) -> Mind {
        if self.raw.connecting || self.active_session != session || !self.preparing(from@)
            || !self.focus.drives(from@) {
            self
        } else {
            match self.address(from@) {
                None => self.raw_trouble(plain(Trouble::RawTargetAddress)),
                Some(ip) => Mind {
                    raw: RawState { connecting: true, ..self.raw },
                    ..self
                }.doing(
                    Act::ConnectRaw {
                        peer: from,
                        ip,
                        port,
                        session,
                        ticket,
                        operation: self.raw.operation,
                    },
                ),
            }
        }
    }

    /// A raw connection is open: the devices are to be captured.
    pub open spec fn raw_connected(self, peer: MachineId, session: u64) -> Mind {
        if session != self.active_session || !self.preparing(peer@) || !self.focus.drives(peer@) {
            self
        } else {
            Mind {
                awaiting: Some(Awaiting::RawSend { target: peer, session }),
                ..self.doing(
                    Act::BeginRawCapture { edge: self.raw.edge, operation: self.raw.operation },
                )
            }
        }
    }

    /// The devices are captured, or cannot be.
    pub open spec fn raw_sending(self, result: Result<(), Notice>, target: MachineId, session: u64, now: u64) -> Mind {
        match result {
            Err(cause) => self.raw_trouble(with_detail(Trouble::RawCapture, cause)).remote_ended(
                target,
                LeaveReason::CaptureLost,
                Some(self.last_local),
                true,
                now,
            ),
            Ok(_) => Mind {
                raw: RawState { active: true, preparing: None, ..self.raw },
                ..self
            }.doing(Act::SetActive { peer: target, active: true }).doing(
                Act::SendRaw { peer: target, session, operation: self.raw.operation },
            ).touched(now),
        }
    }

    /// A raw connection is over.
    pub open spec fn raw_over(self, peer: MachineId, session: u64, error: Notice, now: u64) -> Mind {
        if session != self.active_session {
            self
        } else if self.focus.drives(peer@) {
            self.raw_trouble(error).remote_ended(
                peer,
                LeaveReason::CaptureLost,
                Some(self.last_local),
                true,
                now,
            ).touched(now)
        } else if self.focus.driven_by(peer@) {
            self.raw_trouble(error).driven_ended(
                peer,
                Some(LeaveReason::CaptureLost),
                now,
            ).touched(now)
        } else {
            self.touched(now)
        }
    }

    pub open spec fn raw_happened(self, event: RawEvent, now: u64) -> Mind {
        match event {
            RawEvent::Prepared { operation, peer, session, pos, result } => if operation
                != self.raw.operation {
                self
            } else {
                self.raw_prepared(peer, session, pos, result, now).touched(now)
            },
            RawEvent::Connected { operation, peer, session } => if operation
                != self.raw.operation {
                self
            } else {
                self.raw_connected(peer, session)
            },
            RawEvent::Ended { operation, peer, session, error } => if operation
                != self.raw.operation {
                self
            } else {
                self.raw_over(peer, session, error, now)
            },
        }
    }

    /// The session is handed on to another machine.
    pub open spec fn handed_off(self, target: MachineId, pos: Vec2, now: u64) -> Mind {
        let keeps = self.focus is Remote && self.me.os is Linux && !self.raw.active
            && self.raw.preparing is None;
        let free = match self.focus {
            Focus::Remote(old) => if self.me.os is Linux {
                let noted = Mind {
                    held: if keeps {
                        self.source
                    } else {
                        self.held
                    },
                    ..self
                };
                noted.remote_left(old, LeaveReason::Crossed, true, now)
            } else {
                self.remote_ended(old, LeaveReason::Crossed, Some(self.last_local), true, now)
            },
            _ => self,
        };
        if self.raw_mode(target@) {
            free.raw_started(target, pos, None, now)
        } else {
            free.desktop_started(target, pos, keeps, now)
        }
    }

    /// A raw pointer here reaches an edge: its source is told.
    pub open spec fn boundary_hit(self, session: u64, edge: u32, along: i64) -> Mind {
        match self.focus {
            Focus::Driven(source) => if !self.raw.active || !self.raw.boundary || session
                != self.active_session || self.raw.pending_boundary == Some((session, edge))
                || !self.admits(source@) || edge >= self.armed.len() || !has_link(
                self.links,
                self.armed[edge as int],
            ) || !amid(self.armed[edge as int], along, self.corner_dead_zone) {
                self
            } else {
                let link = self.armed[edge as int];
                if self.sends(source@) {
                    Mind {
                        raw: RawState {
                            pending_boundary: Some((session, edge)),
                            ..self.raw
                        },
                        ..self.posted(
                            source,
                            Frame::RawBoundary {
                                session,
                                target: link.to,
                                pos: on_edge(link, along),
                            },
                        )
                    }
                } else {
                    self
                }
            },
            _ => self,
        }
    }

    /// A raw pointer over there reached an edge: it comes home, or goes on.
    pub open spec fn boundary_crossed(
        self,
        from: MachineId,
        session: u64,
        target: MachineId,
        pos: Option<Vec2>,
        now: u64,
    ) -> Mind {
        if !self.focus.drives(from@) || !self.raw.active || session != self.active_session {
            self
        } else {
            let found = if self.settings.focus_lock || pos is None {
                self.links.len() as int
            } else {
                boundary_place(self.links, from@, target@, pos->0, self.corner_dead_zone)
            };
            if found >= self.links.len() {
                self.posted(from, Frame::RawBoundaryAck { session })
            } else {
                let land = clamped_into(
                    self.displays(target@),
                    within(inside_to(self.links[found], pos->0)),
                );
                if target@ == self.me.id@ {
                    self.remote_ended(from, LeaveReason::Crossed, Some(land), true, now)
                } else {
                    self.handed_off(target, land, now)
                }
            }
        }
    }

    /// A source changed whether its raw pointer may leave.
    pub open spec fn boundary_changed(self, from: MachineId, session: u64, boundary: bool) -> Mind {
        if !self.raw.active || session != self.active_session || !self.focus.driven_by(from@) {
            self
        } else {
            let noted = Mind {
                raw: RawState { boundary, pending_boundary: None, ..self.raw },
                ..self
            };
            if !self.raw.can_inject {
                noted
            } else {
                Mind {
                    awaiting: Some(Awaiting::RawPolicy { source: from }),
                    ..noted.doing(Act::SetRawPolicy { session, boundary })
                }
            }
        }
    }

    pub open spec fn boundary_set(self, result: Result<(), Notice>, source: MachineId, now: u64) -> Mind {
        match result {
            Err(cause) => self.raw_trouble(with_detail(Trouble::RawBoundary, cause)).driven_ended(
                source,
                Some(LeaveReason::CaptureLost),
                now,
            ).touched(now),
            Ok(_) => self.touched(now),
        }
    }

    /// Capturing raw input failed.
    pub open spec fn raw_failed(self, notice: Notice, now: u64) -> Mind {
        let noted = self.raw_trouble(notice);
        match self.focus {
            Focus::Remote(target) => if self.raw.active || self.raw.preparing is Some {
                noted.remote_ended(
                    target,
                    LeaveReason::CaptureLost,
                    Some(self.last_local),
                    true,
                    now,
                ).touched(now)
            } else {
                noted.touched(now)
            },
            _ => noted.touched(now),
        }
    }
}

pub open spec fn peer_index(mind: Mind, id: Seq<char>) -> int {
    super::state::peer_place(mind.peers, id)
}

impl Engine {
    pub(crate) fn is_raw_mode(&self, target: &MachineId) -> (r: bool)
        ensures
            r == self@.raw_mode(target@),
    {
        self.settings.mode(target) == InputMode::Raw
    }

    fn is_linux(&self, target: &MachineId) -> (r: bool)
        ensures
            r == self@.linux(target@),
    {
        let at: usize = self.find_peer(target);
        at < self.peers.len() && match &self.peers[at].info {
            Some(info) => info.os == Os::Linux,
            None => false,
        }
    }

    fn peer_ip(&self, id: &MachineId) -> (r: Option<Ip>)
        ensures
            r == self@.address(id@),
    {
        let at: usize = self.find_peer(id);
        if at < self.peers.len() {
            self.peers[at].ip
        } else {
            None
        }
    }

    fn refuse_raw(&mut self, notice: Notice, now: u64)
        requires
            old(self).wf(),
            now <= LATEST,
        ensures
            final(self).wf(),
            final(self)@ == old(self)@.raw_refused(notice, now),
    {
        self.set_raw_error(notice);
        self.act(Act::EndCapture(Some(self.last_local)));
        self.touch_ui(now);
    }

    pub(crate) fn start_raw(&mut self, target: &MachineId, pos: Vec2, edge: Option<u32>, now: u64)
        requires
            old(self).wf(),
            pos.bounded(),
            now <= LATEST,
        ensures
            final(self).wf(),
            final(self)@ == old(self)@.raw_started(*target, pos, edge, now),
    {
        let obstacle: Option<Trouble> = if self.me.os != Os::Macos && self.me.os != Os::Linux {
            Some(Trouble::RawSystem)
        } else if !(self.master_enabled && self.peer_usable(target) && self.machine_enabled(
            target,
        )) {
            Some(Trouble::Unavailable)
        } else if !self.is_linux(target) {
            Some(Trouble::RawDestination)
        } else if !self.raw.can_capture {
            Some(Trouble::NoRawCapture)
        } else {
            None
        };
        if let Some(trouble) = obstacle {
            self.refuse_raw(just(trouble), now);
            return ;
        }
        self.act(Act::PrepareRawCapture);
        self.awaiting = Some(Awaiting::RawCapture { target: target.clone(), pos, edge });
    }

    pub(crate) fn raw_capture_answered(
        &mut self,
        result: Result<(), Notice>,
        target: &MachineId,
        pos: Vec2,
        edge: Option<u32>,
        now: u64,
    )
        requires
            old(self).wf(),
            old(self)@.counts(),
            pos.bounded(),
            now <= LATEST,
        ensures
            final(self).wf(),
            final(self)@ == old(self)@.raw_capturable(result, *target, pos, edge, now),
    {
        if let Err(notice) = result {
            self.refuse_raw(notice, now);
            return ;
        }
        self.stop_raw();
        self.claim_source(now);
        self.session = self.session + 1;
        self.active_session = self.session;
        let session: u64 = self.active_session;
        self.raw.error = None;
        self.raw.edge = edge;
        self.raw.preparing = Some(target.clone());
        self.focus = Focus::Remote(target.clone());
        self.pos = pos;
        let boundary: bool = !self.settings.focus_lock;
        if !self.send(target, Frame::RawPrepare { session, pos, boundary }) {
            self.set_raw_error(just(Trouble::RawConnection));
            let warp = Some(self.last_local);
            self.end_remote(target, LeaveReason::CaptureLost, warp, true, now);
            return ;
        }
        let operation: u64 = self.raw.operation;
        self.act(Act::AwaitRawTarget { peer: target.clone(), session, operation });
        self.touch_ui(now);
    }

    fn reject_raw(&mut self, source: &MachineId, session: u64, notice: Notice, now: u64)
        requires
            old(self).wf(),
            now <= LATEST,
        ensures
            final(self).wf(),
            final(self)@ == old(self)@.raw_rejected(*source, session, notice, now),
    {
        self.set_raw_error(notice.clone());
        self.send(source, Frame::RawReject { session, reason: notice });
        self.touch_ui(now);
    }

    /// A machine asks to send raw input here.
    pub fn prepare_raw_target(
        &mut self,
        source: MachineId,
        session: u64,
        pos: Vec2,
        boundary: bool,
        now: u64,
    )
        requires
            old(self).wf(),
            now <= LATEST,
        ensures
            final(self).wf(),
            final(self)@ == old(self)@.raw_preparing(source, session, pos, boundary, now),
    {
        if session == 0 || !self.admits_source(&source) || !self.focus.is_local()
            || self.raw.pending_target.is_some() {
            self.reject_raw(&source, session, just(Trouble::RawOwner), now);
            return ;
        }
        let at: usize = self.find_peer(&source);
        if session <= self.peers[at].raw_generation {
            self.reject_raw(&source, session, just(Trouble::RawReplay), now);
            return ;
        }
        self.peers[at].raw_generation = session;
        if !self.raw.can_inject {
            self.reject_raw(&source, session, just(Trouble::NoRawInjection), now);
            return ;
        }
        self.stop_raw();
        self.raw.pending_policy = boundary;
        self.raw.pending_target = Some((source.clone(), session));
        let operation: u64 = self.raw.operation;
        self.act(Act::PrepareRawTarget { peer: source, session, pos, operation });
    }

    fn is_raw_pending(&self, source: &MachineId, session: u64) -> (r: bool)
        ensures
            r == self@.raw_pending(source@, session),
    {
        match &self.raw.pending_target {
            Some((peer, number)) => peer.same(source) && *number == session,
            None => false,
        }
    }

    #[verifier::rlimit(40)]
    fn prepared_raw_target(
        &mut self,
        source: &MachineId,
        session: u64,
        pos: Vec2,
        result: Result<Reservation, Notice>,
        now: u64,
    )
        requires
            old(self).wf(),
            pos.bounded(),
            now <= LATEST,
        ensures
            final(self).wf(),
            final(self)@ == old(self)@.raw_prepared(*source, session, pos, result, now),
    {
        if !self.is_raw_pending(source, session) {
            return ;
        }
        let admitted: bool = self.admits_source(source) && self.focus.is_local();
        self.raw.pending_target = None;
        if !admitted {
            self.reject_raw(source, session, just(Trouble::RawOwnership), now);
            return ;
        }
        match result {
            Err(notice) => {
                self.reject_raw(source, session, notice, now);
            },
            Ok(reserved) => {
                self.begin_raw(source, session, pos, reserved);
            },
        }
    }

    fn begin_raw(&mut self, source: &MachineId, session: u64, pos: Vec2, reserved: Reservation)
        requires
            old(self).wf(),
            pos.bounded(),
        ensures
            final(self).wf(),
            final(self)@ == old(self)@.raw_beginning(*source, session, pos, reserved),
    {
        self.act(Act::EndCapture(None));
        self.crossing = None;
        self.act(Act::BeginRaw { session });
        self.awaiting = Some(
            Awaiting::RawBegin {
                source: source.clone(),
                session,
                pos,
                port: reserved.port,
                ticket: reserved.ticket,
            },
        );
    }

    pub(crate) fn raw_begin_answered(
        &mut self,
        result: Result<(), Notice>,
        source: &MachineId,
        session: u64,
        pos: Vec2,
        port: u16,
        ticket: Ticket,
        now: u64,
    )
        requires
            old(self).wf(),
            pos.bounded(),
            now <= LATEST,
        ensures
            final(self).wf(),
            final(self)@ == old(self)@.raw_begun(
                result,
                *source,
                session,
                pos,
                port,
                ticket,
                now,
            ),
    {
        if let Err(cause) = result {
            self.reject_raw(source, session, about(Trouble::RawBegin, cause), now);
            return ;
        }
        let boundary: bool = self.raw.pending_policy;
        self.act(Act::SetRawPolicy { session, boundary });
        self.awaiting = Some(
            Awaiting::RawArm { source: source.clone(), session, pos, port, ticket },
        );
    }

    pub(crate) fn raw_arm_answered(
        &mut self,
        result: Result<(), Notice>,
        source: &MachineId,
        session: u64,
        pos: Vec2,
        port: u16,
        ticket: Ticket,
        now: u64,
    )
        requires
            old(self).wf(),
            pos.bounded(),
            now <= LATEST,
        ensures
            final(self).wf(),
            final(self)@ == old(self)@.raw_armed(
                result,
                *source,
                session,
                pos,
                port,
                ticket,
                now,
            ),
    {
        if let Err(cause) = result {
            self.act(Act::EndRaw { session });
            self.reject_raw(source, session, about(Trouble::RawArm, cause), now);
            return ;
        }
        let place = raw_landing(self.me.displays.as_slice(), pos);
        self.act(Act::Enter(place));
        self.awaiting = Some(Awaiting::RawPlace { source: source.clone(), session, port, ticket });
    }

    #[verifier::rlimit(40)]
    pub(crate) fn raw_place_answered(
        &mut self,
        result: Result<(), Notice>,
        source: &MachineId,
        session: u64,
        port: u16,
        ticket: Ticket,
        now: u64,
    )
        requires
            old(self).wf(),
            now <= LATEST,
        ensures
            final(self).wf(),
            final(self)@ == old(self)@.raw_placed(result, *source, session, port, ticket, now),
    {
        if let Err(cause) = result {
            self.act(Act::EndRaw { session });
            self.reject_raw(source, session, about(Trouble::RawPlace, cause), now);
            return ;
        }
        self.focus = Focus::Driven(source.clone());
        self.active_session = session;
        self.raw.active = true;
        self.raw.boundary = self.raw.pending_policy;
        self.raw.pending_boundary = None;
        let Some(ip) = self.peer_ip(source) else {
            self.set_raw_error(just(Trouble::RawSourceAddress));
            self.end_driven(source, Some(LeaveReason::CaptureLost), now);
            return ;
        };
        let operation: u64 = self.raw.operation;
        self.act(Act::ReceiveRaw { peer: source.clone(), ip, session, operation });
        self.act(Act::SetActive { peer: source.clone(), active: true });
        if !self.send(source, Frame::RawReady { session, port, ticket }) {
            self.end_driven(source, None, now);
        }
        self.touch_ui(now);
    }

    fn is_preparing(&self, id: &MachineId) -> (r: bool)
        ensures
            r == self@.preparing(id@),
    {
        match &self.raw.preparing {
            Some(peer) => peer.same(id),
            None => false,
        }
    }

    /// A machine is ready for raw input.
    pub fn raw_ready(&mut self, from: MachineId, session: u64, port: u16, ticket: Ticket)
        requires
            old(self).wf(),
        ensures
            final(self).wf(),
            final(self)@ == old(self)@.raw_readied(from, session, port, ticket),
    {
        if self.raw.connecting || self.active_session != session || !self.is_preparing(&from)
            || !self.focus.is_on(&from) {
            return ;
        }
        let Some(ip) = self.peer_ip(&from) else {
            self.set_raw_error(just(Trouble::RawTargetAddress));
            return ;
        };
        self.raw.connecting = true;
        let operation: u64 = self.raw.operation;
        self.act(Act::ConnectRaw { peer: from, ip, port, session, ticket, operation });
    }

    pub(crate) fn raw_send_answered(
        &mut self,
        result: Result<(), Notice>,
        target: &MachineId,
        session: u64,
        now: u64,
    )
        requires
            old(self).wf(),
            now <= LATEST,
        ensures
            final(self).wf(),
            final(self)@ == old(self)@.raw_sending(result, *target, session, now),
    {
        if let Err(cause) = result {
            self.set_raw_error(about(Trouble::RawCapture, cause));
            let warp = Some(self.last_local);
            self.end_remote(target, LeaveReason::CaptureLost, warp, true, now);
            return ;
        }
        self.raw.active = true;
        self.raw.preparing = None;
        self.act(Act::SetActive { peer: target.clone(), active: true });
        let operation: u64 = self.raw.operation;
        self.act(Act::SendRaw { peer: target.clone(), session, operation });
        self.touch_ui(now);
    }

    /// Something happened to raw input.
    pub fn on_raw_event(&mut self, event: RawEvent, now: u64)
        requires
            old(self).wf(),
            event matches RawEvent::Prepared { pos, .. } ==> pos.bounded(),
            now <= LATEST,
        ensures
            final(self).wf(),
            final(self)@ == old(self)@.raw_happened(event, now),
    {
        match event {
            RawEvent::Prepared { operation, peer, session, pos, result } => {
                if operation != self.raw.operation {
                    return ;
                }
                self.prepared_raw_target(&peer, session, pos, result, now);
                self.touch_ui(now);
            },
            RawEvent::Connected { operation, peer, session } => {
                if operation != self.raw.operation || session != self.active_session
                    || !self.is_preparing(&peer) || !self.focus.is_on(&peer) {
                    return ;
                }
                let edge: Option<u32> = self.raw.edge;
                self.act(Act::BeginRawCapture { edge, operation });
                self.awaiting = Some(Awaiting::RawSend { target: peer, session });
            },
            RawEvent::Ended { operation, peer, session, error } => {
                if operation != self.raw.operation || session != self.active_session {
                    return ;
                }
                if self.focus.is_on(&peer) {
                    self.set_raw_error(error);
                    let warp = Some(self.last_local);
                    self.end_remote(&peer, LeaveReason::CaptureLost, warp, true, now);
                } else if self.focus.is_driven_by(&peer) {
                    self.set_raw_error(error);
                    self.end_driven(&peer, Some(LeaveReason::CaptureLost), now);
                }
                self.touch_ui(now);
            },
        }
    }

    pub(crate) fn handoff_remote(&mut self, target: &MachineId, pos: Vec2, now: u64)
        requires
            old(self).wf(),
            old(self)@.counts(),
            pos.bounded(),
            now <= LATEST,
        ensures
            final(self).wf(),
            final(self)@ == old(self)@.handed_off(*target, pos, now),
    {
        let raw: bool = self.is_raw_mode(target);
        let mut keeps: bool = false;
        if let Focus::Remote(old) = self.focus.clone() {
            if self.me.os == Os::Linux {
                if !self.raw.active && self.raw.preparing.is_none() {
                    keeps = true;
                    self.held = self.source.clone();
                }
                self.leave_remote(&old, LeaveReason::Crossed, true, now);
            } else {
                let warp = Some(self.last_local);
                self.end_remote(&old, LeaveReason::Crossed, warp, true, now);
            }
        }
        if raw {
            self.start_raw(target, pos, None, now);
        } else {
            self.start_desktop(target, pos, keeps, now);
        }
    }

    /// A raw pointer here reaches an edge.
    pub fn raw_boundary_hit(&mut self, session: u64, edge: u32, along: i64)
        requires
            old(self).wf(),
        ensures
            final(self).wf(),
            final(self)@ == old(self)@.boundary_hit(session, edge, along),
    {
        let Focus::Driven(source) = self.focus.clone() else {
            return ;
        };
        let repeated: bool = match self.raw.pending_boundary {
            Some((number, at)) => number == session && at == edge,
            None => false,
        };
        if !self.raw.active || !self.raw.boundary || session != self.active_session || repeated
            || !self.admits_source(&source) || edge as usize >= self.armed.len() {
            return ;
        }
        let link = self.armed[edge as usize].clone();
        if !contains_link(&self.links, &link) || !amid_edge(&link, along, self.corner_dead_zone) {
            return ;
        }
        let pos = edge_position(&link, along);
        if self.send(&source, Frame::RawBoundary { session, target: link.to.clone(), pos }) {
            self.raw.pending_boundary = Some((session, edge));
        }
    }

    pub(crate) fn clamp_for(&self, id: &MachineId, pos: Vec2) -> (r: Vec2)
        requires
            pos.bounded(),
        ensures
            r == clamped_into(self@.displays(id@), pos),
            r.bounded(),
    {
        match self.info_of(id) {
            Some(info) => clamp_into_displays(info.displays.as_slice(), pos),
            None => {
                proof {
                    reveal(clamped_into);
                }
                assert(!crate::layout::any_area(Seq::<DisplayRect>::empty()));
                pos
            },
        }
    }

    /// A raw pointer over there reached an edge.
    pub fn cross_raw_boundary(
        &mut self,
        from: &MachineId,
        session: u64,
        target: MachineId,
        pos: Option<Vec2>,
        now: u64,
    )
        requires
            old(self).wf(),
            old(self)@.counts(),
            pos matches Some(p) ==> p.bounded(),
            now <= LATEST,
        ensures
            final(self).wf(),
            final(self)@ == old(self)@.boundary_crossed(*from, session, target, pos, now),
    {
        if !self.focus.is_on(from) || !self.raw.active || session != self.active_session {
            return ;
        }
        let mut found: usize = self.links.len();
        if let Some(p) = pos {
            if !self.settings.focus_lock {
                found = find_boundary(&self.links, from, &target, p, self.corner_dead_zone);
            }
        }
        if found >= self.links.len() {
            self.send(from, Frame::RawBoundaryAck { session });
            return ;
        }
        let Some(p) = pos else {
            return ;
        };
        let inside = keep_within(position_inside_to_edge(&self.links[found], p));
        let land = self.clamp_for(&target, inside);
        if target.same(&self.me.id) {
            self.end_remote(from, LeaveReason::Crossed, Some(land), true, now);
        } else {
            self.handoff_remote(&target, land, now);
        }
    }

    /// A source changed whether its raw pointer may leave.
    pub fn raw_boundary_policy(&mut self, from: &MachineId, session: u64, boundary: bool)
        requires
            old(self).wf(),
        ensures
            final(self).wf(),
            final(self)@ == old(self)@.boundary_changed(*from, session, boundary),
    {
        if !self.raw.active || session != self.active_session || !self.focus.is_driven_by(from) {
            return ;
        }
        self.raw.boundary = boundary;
        self.raw.pending_boundary = None;
        if !self.raw.can_inject {
            return ;
        }
        self.act(Act::SetRawPolicy { session, boundary });
        self.awaiting = Some(Awaiting::RawPolicy { source: from.clone() });
    }

    pub(crate) fn raw_policy_answered(&mut self, result: Result<(), Notice>, source: &MachineId, now: u64)
        requires
            old(self).wf(),
            now <= LATEST,
        ensures
            final(self).wf(),
            final(self)@ == old(self)@.boundary_set(result, *source, now),
    {
        if let Err(cause) = result {
            self.set_raw_error(about(Trouble::RawBoundary, cause));
            self.end_driven(source, Some(LeaveReason::CaptureLost), now);
        }
        self.touch_ui(now);
    }

    /// Capturing raw input failed.
    pub fn raw_capture_failed(&mut self, notice: Notice, now: u64)
        requires
            old(self).wf(),
            now <= LATEST,
        ensures
            final(self).wf(),
            final(self)@ == old(self)@.raw_failed(notice, now),
    {
        self.set_raw_error(notice);
        if self.raw.active || self.raw.preparing.is_some() {
            if let Focus::Remote(target) = self.focus.clone() {
                let warp = Some(self.last_local);
                self.end_remote(&target, LeaveReason::CaptureLost, warp, true, now);
            }
        }
        self.touch_ui(now);
    }
}

} // verus!
