//! What other machines do and say.

use super::board::{auto_placed, layout_heard, repaired};
use super::notice::{about, with_detail, Notice, Trouble};
use super::raw::RawEvent;
use super::state::{
    lemma_peer_place, peer_place, with_peer, Act, Caps, DialTarget, Engine, Frame, LeaveReason,
    MachineInfo, Mind, Peer, LATEST,
};
use crate::input::InputEvent;
use crate::input_transport::socket::Ip;
use crate::ledger::after_event;
use crate::machine::MachineId;
use std::sync::Arc;
use vstd::prelude::*;

verus! {

/// What happens to the connection with another machine.
#[derive(Debug)]
pub enum PeerEvent {
    Connected { id: MachineId, hello: Arc<MachineInfo>, caps: Caps, ip: Option<Ip> },
    Frame { from: MachineId, frame: Frame },
    Degraded(MachineId),
    Healthy { id: MachineId, rtt_us: u64 },
    Disconnected { id: MachineId, reason: Notice },
    Rtt { id: MachineId, rtt_us: u64 },
    Rejected { id: MachineId, reason: Notice },
}

/// A machine on the network.
#[derive(Debug)]
pub struct Node {
    pub id: MachineId,
    pub hostname: String,
    pub online: bool,
    pub user: u64,
    pub direct: bool,
    pub ip: Option<Ip>,
}

/// The machines on the network.
#[derive(Debug)]
pub struct Status {
    /// Whom this machine belongs to.
    pub user: u64,
    pub nodes: Vec<Node>,
}

/// A machine that can be dialled.
pub open spec fn dialable(me: Seq<char>, user: u64, node: Node) -> bool {
    node.id@ != me && node.online && node.user == user
}

/// What a listing tells of one machine.
pub open spec fn seen(peer: Peer, user: u64, node: Node) -> Peer {
    let named = Peer { hostname: Some(node.hostname), ..peer };
    if !node.online || node.user != user {
        Peer { online: false, ..named }
    } else {
        Peer { online: true, direct: node.direct, ip: node.ip, ..named }
    }
}

/// What a listing tells of the machines.
pub open spec fn all_seen(peers: Seq<Peer>, me: Seq<char>, user: u64, nodes: Seq<Node>) -> Seq<Peer>
    decreases nodes.len(),
{
    if nodes.len() == 0 {
        peers
    } else {
        let before = all_seen(peers, me, user, nodes.drop_last());
        let node = nodes.last();
        if node.id@ == me {
            before
        } else {
            let met = with_peer(before, node.id);
            let at = peer_place(met, node.id@);
            met.update(at, seen(met[at], user, node))
        }
    }
}

/// The machines to keep connections with.
pub open spec fn targets(me: Seq<char>, user: u64, nodes: Seq<Node>) -> Seq<DialTarget>
    decreases nodes.len(),
{
    if nodes.len() == 0 {
        Seq::empty()
    } else {
        let before = targets(me, user, nodes.drop_last());
        let node = nodes.last();
        match node.ip {
            Some(ip) => if dialable(me, user, node) {
                before.push(DialTarget { id: node.id, ip })
            } else {
                before
            },
            None => before,
        }
    }
}

pub open spec fn listed(nodes: Seq<Node>, id: Seq<char>) -> bool {
    exists|i: int| 0 <= i < nodes.len() && (#[trigger] nodes[i]).id@ == id
}

/// Machines that are no longer listed are not online.
pub open spec fn unlisted_off(peers: Seq<Peer>, nodes: Seq<Node>) -> Seq<Peer> {
    Seq::new(
        peers.len(),
        |i: int|
            if listed(nodes, peers[i].id@) {
                peers[i]
            } else {
                Peer { online: false, ..peers[i] }
            },
    )
}

/// The network was looked at; where that failed, what was known is kept.
pub open spec fn discovered(before: Mind, status: Result<Status, Notice>, now: u64, after: Mind) -> bool {
    match status {
        Err(cause) => after == (Mind {
            tailscale_error: Some(with_detail(Trouble::TailscaleStatus, cause)),
            ..before
        }).touched(now),
        Ok(status) => exists|dial: Arc<Vec<DialTarget>>| #[trigger]
            dial@ == targets(before.me.id@, status.user, status.nodes@) && after == (Mind {
                tailscale_error: None,
                peers: unlisted_off(
                    all_seen(before.peers, before.me.id@, status.user, status.nodes@),
                    status.nodes@,
                ),
                ..before
            }).doing(Act::Dial(dial)).touched(now),
    }
}

impl Mind {
    /// What is known of a machine changes.
    pub open spec fn known_as(self, id: MachineId, change: spec_fn(Peer) -> Peer) -> Mind {
        let met = with_peer(self.peers, id);
        let at = peer_place(met, id@);
        Mind { peers: met.update(at, change(met[at])), ..self }
    }

    /// A machine told of itself.
    pub open spec fn informed(self, info: Arc<MachineInfo>) -> Mind {
        self.known_as(info.id, |peer: Peer| Peer { info: Some(info), ..peer })
    }

    /// Preparations for raw input from a machine are given up.
    pub open spec fn unprepared(self, id: Seq<char>) -> Mind {
        if self.raw.pending_target matches Some((peer, _)) && peer@ == id {
            self.stopped_raw()
        } else {
            self
        }
    }

    /// A machine is told whether this one takes part, where it understands that.
    pub open spec fn master_told(self, id: MachineId) -> Mind {
        if self.connected(id@) && self.peer(id@).caps.master {
            self.posted(id, Frame::MasterState { enabled: self.master_enabled })
        } else {
            self
        }
    }

    /// Sessions with a machine end.
    pub open spec fn parted(
        self,
        id: MachineId,
        release_all: bool,
        notify: Option<LeaveReason>,
        now: u64,
    ) -> Mind {
        if self.focus.drives(id@) {
            self.remote_ended(
                id,
                LeaveReason::Reconfigured,
                Some(self.last_local),
                release_all,
                now,
            )
        } else if self.focus.driven_by(id@) {
            self.driven_ended(id, notify, now)
        } else {
            self
        }
    }

    /// A machine's connection opens: an earlier session with it is over, and it is told
    /// how things stand.
    pub open spec fn greeted(
        self,
        id: MachineId,
        hello: Arc<MachineInfo>,
        caps: Caps,
        ip: Option<Ip>,
        now: u64,
    ) -> Mind {
        let met = self.parted(id, false, None, now).unprepared(id@).known_as(
            id,
            |peer: Peer|
                Peer {
                    hostname: Some(hello.hostname),
                    error: None,
                    info: Some(hello),
                    caps,
                    connected: true,
                    raw_generation: 0,
                    degraded: false,
                    ip,
                    ..peer
                },
        );
        let shown = match met.doc {
            Some(doc) => met.posted(id, Frame::LayoutSync(doc)),
            None => met,
        };
        let claimed = match shown.claim {
            Some(stamp) => shown.posted(id, Frame::SourceClaim(stamp)),
            None => shown,
        };
        claimed.master_told(id)
    }

    pub open spec fn degraded(self, id: MachineId, now: u64) -> Mind {
        self.unprepared(id@).known_as(id, |peer: Peer| Peer { degraded: true, ..peer }).parted(
            id,
            true,
            Some(LeaveReason::Reconfigured),
            now,
        ).touched(now)
    }

    pub open spec fn disconnected(self, id: MachineId, reason: Notice, now: u64) -> Mind {
        self.unprepared(id@).doing(Act::ForgetFetches(id)).known_as(
            id,
            |peer: Peer|
                Peer { error: Some(reason), connected: false, degraded: false, ..peer },
        ).parted(id, true, None, now).touched(now)
    }

    /// Input from the machine that drives this one.
    pub open spec fn input_heard(self, from: Seq<char>, session: u64, event: InputEvent) -> Mind {
        if self.focus.driven_by(from) && session == self.active_session && !self.raw.active {
            Mind { target: after_event(self.target, event), ..self }.doing(Act::Inject(event))
        } else {
            self
        }
    }

    /// A session is left at the other side.
    pub open spec fn leave_heard(self, from: MachineId, session: u64, reason: LeaveReason, now: u64) -> Mind {
        let quiet = if self.raw_pending(from@, session) {
            self.stopped_raw()
        } else {
            self
        };
        if session != self.active_session {
            quiet
        } else if self.focus.driven_by(from@) {
            quiet.driven_ended(from, None, now)
        } else if self.focus.drives(from@) {
            quiet.remote_ended(from, reason, Some(self.last_local), true, now)
        } else {
            quiet
        }
    }

    pub open spec fn release_heard(self, from: MachineId, now: u64) -> Mind {
        if !self.focus.driven_by(from@) {
            self
        } else if self.raw.active {
            self.driven_ended(from, Some(LeaveReason::Reconfigured), now)
        } else {
            self.target_released()
        }
    }

    /// Input could not be injected: the session ends.
    pub open spec fn injection_lost(self, from: MachineId, session: u64, now: u64) -> Mind {
        if self.focus.driven_by(from@) && session == self.active_session {
            self.driven_ended(from, Some(LeaveReason::CaptureLost), now)
        } else {
            self
        }
    }
}

/// A machine told of itself: it is placed, and the arrangement repaired.
pub open spec fn update_heard(
    before: Mind,
    from: Seq<char>,
    info: Arc<MachineInfo>,
    now: u64,
    after: Mind,
) -> bool {
    if info.id@ != from {
        after == before
    } else {
        exists|placed: Mind, fixed: Mind|
            {
                &&& #[trigger] auto_placed(before.informed(info), info.id, now, placed)
                &&& #[trigger] repaired(placed, now, fixed)
                &&& after == fixed.touched(now)
            }
    }
}

/// What comes of a frame.
pub open spec fn frame_heard(before: Mind, from: MachineId, frame: Frame, now: u64, after: Mind) -> bool {
    match frame {
        Frame::RawPrepare { session, pos, boundary } => after == before.raw_preparing(
            from,
            session,
            pos,
            boundary,
            now,
        ),
        Frame::RawReady { session, port, ticket } => after == before.raw_readied(
            from,
            session,
            port,
            ticket,
        ),
        Frame::RawReject { session, reason } => after == before.raw_over(
            from,
            session,
            reason,
            now,
        ),
        Frame::RawBoundary { session, target, pos } => after == before.boundary_crossed(
            from,
            session,
            target,
            Some(pos),
            now,
        ),
        Frame::RawBoundaryAck { .. } => after == before,
        Frame::RawBoundaryPolicy { session, boundary } => after == before.boundary_changed(
            from,
            session,
            boundary,
        ),
        Frame::SourceClaim(stamp) => after == before.claim_heard(stamp, now),
        Frame::LayoutSync(doc) => layout_heard(before, doc, now, after),
        Frame::MasterState { enabled } => after == before.known_as(
            from,
            |peer: Peer| Peer { master_off: !enabled, ..peer },
        ).touched(now),
        Frame::MachineUpdate(info) => update_heard(before, from@, info, now, after),
        Frame::Enter { session, pos } => after == before.entering(from, session, pos, now),
        Frame::Input { session, event } => after == before.input_heard(from@, session, event),
        Frame::Leave { session, reason } => after == before.leave_heard(
            from,
            session,
            reason,
            now,
        ),
        Frame::ReleaseAll => after == before.release_heard(from, now),
        Frame::Panic => after == before.panic_heard(now),
    }
}

/// What comes of an event of a connection.
pub open spec fn peer_happened(before: Mind, event: PeerEvent, now: u64, after: Mind) -> bool {
    match event {
        PeerEvent::Connected { id, hello, caps, ip } => exists|placed: Mind, fixed: Mind|
            {
                &&& #[trigger] auto_placed(
                    before.greeted(id, hello, caps, ip, now),
                    id,
                    now,
                    placed,
                )
                &&& #[trigger] repaired(placed, now, fixed)
                &&& after == fixed.touched(now)
            },
        PeerEvent::Frame { from, frame } => frame_heard(before, from, frame, now, after),
        PeerEvent::Degraded(id) => after == before.degraded(id, now),
        PeerEvent::Healthy { id, rtt_us } => after == before.known_as(
            id,
            |peer: Peer| Peer { degraded: false, rtt_us: Some(rtt_us), ..peer },
        ).touched(now),
        PeerEvent::Disconnected { id, reason } => after == before.disconnected(id, reason, now),
        PeerEvent::Rtt { id, rtt_us } => after == before.known_as(
            id,
            |peer: Peer| Peer { rtt_us: Some(rtt_us), ..peer },
        ).touched(now),
        PeerEvent::Rejected { id, reason } => after == before.known_as(
            id,
            |peer: Peer|
                if peer.connected {
                    peer
                } else {
                    Peer { error: Some(reason), ..peer }
                },
        ).touched(now),
    }
}

/// A frame that can be taken as it is: points and counts are within bounds.
pub open spec fn sane_frame(frame: Frame) -> bool {
    match frame {
        Frame::RawPrepare { pos, .. } => pos.bounded(),
        Frame::RawBoundary { pos, .. } => pos.bounded(),
        Frame::LayoutSync(doc) => doc.stamp.lamport < u64::MAX,
        _ => true,
    }
}

impl Engine {
    /// The place of a machine among the peers, a new one where it was unknown.
    fn meet(&mut self, id: &MachineId) -> (r: usize)
        requires
            old(self).wf(),
        ensures
            final(self).wf(),
            final(self)@ == (Mind { peers: with_peer(old(self)@.peers, *id), ..old(self)@ }),
            r == peer_place(final(self)@.peers, id@),
            r < final(self)@.peers.len(),
    {
        let at: usize = self.find_peer(id);
        if at < self.peers.len() {
            return at;
        }
        let ghost before = self.peers@;
        self.peers.push(
            Peer {
                id: id.clone(),
                raw_generation: 0,
                hostname: None,
                error: None,
                info: None,
                caps: Caps { master: false, clipboard: false, files: false },
                connected: false,
                degraded: false,
                master_off: false,
                online: false,
                direct: false,
                rtt_us: None,
                ip: None,
            },
        );
        proof {
            lemma_unknown(before, id@);
            lemma_peer_place(self.peers@, id@, at as int);
        }
        at
    }

    fn unprepare(&mut self, id: &MachineId)
        requires
            old(self).wf(),
        ensures
            final(self).wf(),
            final(self)@ == old(self)@.unprepared(id@),
    {
        let mine: bool = match &self.raw.pending_target {
            Some((peer, _)) => peer.same(id),
            None => false,
        };
        if mine {
            self.stop_raw();
        }
    }

    pub(crate) fn send_master_state(&mut self, id: &MachineId)
        requires
            old(self).wf(),
        ensures
            final(self).wf(),
            final(self)@ == old(self)@.master_told(*id),
    {
        let at: usize = self.find_peer(id);
        if at < self.peers.len() && self.peers[at].connected && self.peers[at].caps.master {
            let enabled: bool = self.master_enabled;
            self.send(id, Frame::MasterState { enabled });
        }
    }

    fn part(&mut self, id: &MachineId, release_all: bool, notify: Option<LeaveReason>, now: u64)
        requires
            old(self).wf(),
            now <= LATEST,
        ensures
            final(self).wf(),
            final(self)@ == old(self)@.parted(*id, release_all, notify, now),
    {
        if self.focus.is_on(id) {
            let warp = Some(self.last_local);
            self.end_remote(id, LeaveReason::Reconfigured, warp, release_all, now);
        } else if self.focus.is_driven_by(id) {
            self.end_driven(id, notify, now);
        }
    }

    fn greet(&mut self, id: &MachineId, hello: Arc<MachineInfo>, caps: Caps, ip: Option<Ip>, now: u64)
        requires
            old(self).wf(),
            now <= LATEST,
        ensures
            final(self).wf(),
            final(self)@ == old(self)@.greeted(*id, hello, caps, ip, now),
    {
        self.part(id, false, None, now);
        self.unprepare(id);
        let ghost apart = self@;
        let at: usize = self.meet(id);
        let peer = &mut self.peers[at];
        peer.hostname = Some(hello.hostname.clone());
        peer.error = None;
        peer.info = Some(hello.clone());
        peer.caps = caps;
        peer.connected = true;
        peer.raw_generation = 0;
        peer.degraded = false;
        peer.ip = ip;
        assert(self@ == apart.known_as(
            *id,
            |peer: Peer|
                Peer {
                    hostname: Some(hello.hostname),
                    error: None,
                    info: Some(hello),
                    caps,
                    connected: true,
                    raw_generation: 0,
                    degraded: false,
                    ip,
                    ..peer
                },
        ));
        if let Some(doc) = &self.doc {
            let doc = doc.clone();
            self.send(id, Frame::LayoutSync(doc));
        }
        if let Some(stamp) = &self.claim {
            let stamp = stamp.clone();
            self.send(id, Frame::SourceClaim(stamp));
        }
        self.send_master_state(id);
    }

    fn place_and_repair(&mut self, id: &MachineId, now: u64)
        requires
            old(self).wf(),
            old(self)@.layout_lamport < u64::MAX - 2,
            now <= LATEST,
        ensures
            final(self).wf(),
            exists|placed: Mind, fixed: Mind|
                {
                    &&& #[trigger] auto_placed(old(self)@, *id, now, placed)
                    &&& #[trigger] repaired(placed, now, fixed)
                    &&& final(self)@ == fixed.touched(now)
                },
    {
        self.auto_place(id, now);
        let ghost placed = self@;
        assert(auto_placed(old(self)@, *id, now, placed));
        self.repair_layout(now);
        let ghost fixed = self@;
        assert(repaired(placed, now, fixed));
        self.touch_ui(now);
    }

    fn hear_degraded(&mut self, id: &MachineId, now: u64)
        requires
            old(self).wf(),
            now <= LATEST,
        ensures
            final(self).wf(),
            final(self)@ == old(self)@.degraded(*id, now),
    {
        self.unprepare(id);
        let ghost quiet = self@;
        let at: usize = self.meet(id);
        self.peers[at].degraded = true;
        assert(self@ == quiet.known_as(*id, |peer: Peer| Peer { degraded: true, ..peer }));
        self.part(id, true, Some(LeaveReason::Reconfigured), now);
        self.touch_ui(now);
    }

    fn hear_disconnected(&mut self, id: &MachineId, reason: Notice, now: u64)
        requires
            old(self).wf(),
            now <= LATEST,
        ensures
            final(self).wf(),
            final(self)@ == old(self)@.disconnected(*id, reason, now),
    {
        self.unprepare(id);
        self.act(Act::ForgetFetches(id.clone()));
        let ghost quiet = self@;
        let at: usize = self.meet(id);
        let peer = &mut self.peers[at];
        peer.error = Some(reason);
        peer.connected = false;
        peer.degraded = false;
        assert(self@ == quiet.known_as(
            *id,
            |peer: Peer|
                Peer { error: Some(reason), connected: false, degraded: false, ..peer },
        ));
        self.part(id, true, None, now);
        self.touch_ui(now);
    }

    fn hear_master(&mut self, from: &MachineId, enabled: bool, now: u64)
        requires
            old(self).wf(),
            now <= LATEST,
        ensures
            final(self).wf(),
            final(self)@ == old(self)@.known_as(
                *from,
                |peer: Peer| Peer { master_off: !enabled, ..peer },
            ).touched(now),
    {
        let ghost before = self@;
        let at: usize = self.meet(from);
        self.peers[at].master_off = !enabled;
        assert(self@ == before.known_as(
            *from,
            |peer: Peer| Peer { master_off: !enabled, ..peer },
        ));
        self.touch_ui(now);
    }

    fn hear_update(&mut self, from: &MachineId, info: Arc<MachineInfo>, now: u64)
        requires
            old(self).wf(),
            old(self)@.layout_lamport < u64::MAX - 2,
            now <= LATEST,
        ensures
            final(self).wf(),
            update_heard(old(self)@, from@, info, now, final(self)@),
    {
        if !info.id.same(from) {
            return ;
        }
        let ghost before = self@;
        let at: usize = self.meet(&info.id);
        self.peers[at].info = Some(info.clone());
        assert(self@ == before.informed(info));
        self.place_and_repair(&info.id, now);
    }

    fn hear_input(&mut self, from: &MachineId, session: u64, event: InputEvent)
        requires
            old(self).wf(),
        ensures
            final(self).wf(),
            final(self)@ == old(self)@.input_heard(from@, session, event),
    {
        if self.focus.is_driven_by(from) && session == self.active_session && !self.raw.active {
            self.target.observe(&event);
            self.act(Act::Inject(event));
        }
    }

    fn hear_leave(&mut self, from: &MachineId, session: u64, reason: LeaveReason, now: u64)
        requires
            old(self).wf(),
            now <= LATEST,
        ensures
            final(self).wf(),
            final(self)@ == old(self)@.leave_heard(*from, session, reason, now),
    {
        let pending: bool = match &self.raw.pending_target {
            Some((peer, number)) => peer.same(from) && *number == session,
            None => false,
        };
        if pending {
            self.stop_raw();
        }
        if session != self.active_session {
            return ;
        }
        if self.focus.is_driven_by(from) {
            self.end_driven(from, None, now);
        } else if self.focus.is_on(from) {
            let warp = Some(self.last_local);
            self.end_remote(from, reason, warp, true, now);
        }
    }

    fn hear_release(&mut self, from: &MachineId, now: u64)
        requires
            old(self).wf(),
            now <= LATEST,
        ensures
            final(self).wf(),
            final(self)@ == old(self)@.release_heard(*from, now),
    {
        if !self.focus.is_driven_by(from) {
            return ;
        }
        if self.raw.active {
            self.end_driven(from, Some(LeaveReason::Reconfigured), now);
        } else {
            self.release_target_side();
        }
    }

    /// Input could not be injected.
    pub fn injection_failed(&mut self, from: &MachineId, session: u64, now: u64)
        requires
            old(self).wf(),
            now <= LATEST,
        ensures
            final(self).wf(),
            final(self)@ == old(self)@.injection_lost(*from, session, now),
    {
        if self.focus.is_driven_by(from) && session == self.active_session {
            self.end_driven(from, Some(LeaveReason::CaptureLost), now);
        }
    }

    /// Takes a frame of another machine.
    pub fn on_frame(&mut self, from: MachineId, frame: Frame, now: u64)
        requires
            old(self).wf(),
            old(self)@.counts(),
            old(self)@.layout_lamport < u64::MAX - 2,
            sane_frame(frame),
            now <= LATEST,
        ensures
            final(self).wf(),
            frame_heard(old(self)@, from, frame, now, final(self)@),
    {
        match frame {
            Frame::RawPrepare { session, pos, boundary } => {
                self.prepare_raw_target(from, session, pos, boundary, now);
            },
            Frame::RawReady { session, port, ticket } => {
                self.raw_ready(from, session, port, ticket);
            },
            Frame::RawReject { session, reason } => {
                let operation: u64 = self.raw.operation;
                self.on_raw_event(
                    RawEvent::Ended { operation, peer: from, session, error: reason },
                    now,
                );
            },
            Frame::RawBoundary { session, target, pos } => {
                self.cross_raw_boundary(&from, session, target, Some(pos), now);
            },
            Frame::RawBoundaryAck { .. } => {},
            Frame::RawBoundaryPolicy { session, boundary } => {
                self.raw_boundary_policy(&from, session, boundary);
            },
            Frame::SourceClaim(stamp) => {
                self.on_source_claim(stamp, now);
            },
            Frame::LayoutSync(doc) => {
                self.hear_layout(doc, now);
            },
            Frame::MasterState { enabled } => {
                self.hear_master(&from, enabled, now);
            },
            Frame::MachineUpdate(info) => {
                self.hear_update(&from, info, now);
            },
            Frame::Enter { session, pos } => {
                self.on_enter(from, session, pos, now);
            },
            Frame::Input { session, event } => {
                self.hear_input(&from, session, event);
            },
            Frame::Leave { session, reason } => {
                self.hear_leave(&from, session, reason, now);
            },
            Frame::ReleaseAll => {
                self.hear_release(&from, now);
            },
            Frame::Panic => {
                self.hear_panic(now);
            },
        }
    }

    fn note_rtt(&mut self, id: &MachineId, rtt_us: u64, healthy: bool, now: u64)
        requires
            old(self).wf(),
            now <= LATEST,
        ensures
            final(self).wf(),
            healthy ==> final(self)@ == old(self)@.known_as(
                *id,
                |peer: Peer| Peer { degraded: false, rtt_us: Some(rtt_us), ..peer },
            ).touched(now),
            !healthy ==> final(self)@ == old(self)@.known_as(
                *id,
                |peer: Peer| Peer { rtt_us: Some(rtt_us), ..peer },
            ).touched(now),
    {
        let ghost before = self@;
        let at: usize = self.meet(id);
        let peer = &mut self.peers[at];
        peer.rtt_us = Some(rtt_us);
        if healthy {
            peer.degraded = false;
        }
        proof {
            if healthy {
                assert(self@ == before.known_as(
                    *id,
                    |peer: Peer| Peer { degraded: false, rtt_us: Some(rtt_us), ..peer },
                ));
            } else {
                assert(self@ == before.known_as(
                    *id,
                    |peer: Peer| Peer { rtt_us: Some(rtt_us), ..peer },
                ));
            }
        }
        self.touch_ui(now);
    }

    fn note_rejected(&mut self, id: &MachineId, reason: Notice, now: u64)
        requires
            old(self).wf(),
            now <= LATEST,
        ensures
            final(self).wf(),
            final(self)@ == old(self)@.known_as(
                *id,
                |peer: Peer|
                    if peer.connected {
                        peer
                    } else {
                        Peer { error: Some(reason), ..peer }
                    },
            ).touched(now),
    {
        let ghost before = self@;
        let at: usize = self.meet(id);
        let peer = &mut self.peers[at];
        if !peer.connected {
            peer.error = Some(reason);
        }
        assert(self@ == before.known_as(
            *id,
            |peer: Peer|
                if peer.connected {
                    peer
                } else {
                    Peer { error: Some(reason), ..peer }
                },
        ));
        self.touch_ui(now);
    }

    /// Takes an event of a connection.
    pub fn on_peer_event(&mut self, event: PeerEvent, now: u64)
        requires
            old(self).wf(),
            old(self)@.counts(),
            old(self)@.layout_lamport < u64::MAX - 2,
            event matches PeerEvent::Frame { frame, .. } ==> sane_frame(frame),
            now <= LATEST,
        ensures
            final(self).wf(),
            peer_happened(old(self)@, event, now, final(self)@),
    {
        match event {
            PeerEvent::Connected { id, hello, caps, ip } => {
                self.greet(&id, hello, caps, ip, now);
                proof {
                    lemma_greeting_keeps(old(self)@, id, hello, caps, ip, now);
                }
                self.place_and_repair(&id, now);
            },
            PeerEvent::Frame { from, frame } => {
                self.on_frame(from, frame, now);
            },
            PeerEvent::Degraded(id) => {
                self.hear_degraded(&id, now);
            },
            PeerEvent::Healthy { id, rtt_us } => {
                self.note_rtt(&id, rtt_us, true, now);
            },
            PeerEvent::Disconnected { id, reason } => {
                self.hear_disconnected(&id, reason, now);
            },
            PeerEvent::Rtt { id, rtt_us } => {
                self.note_rtt(&id, rtt_us, false, now);
            },
            PeerEvent::Rejected { id, reason } => {
                self.note_rejected(&id, reason, now);
            },
        }
    }

    fn see_node(&mut self, user: u64, node: &Node)
        requires
            old(self).wf(),
        ensures
            final(self).wf(),
            ({
                let met = with_peer(old(self)@.peers, node.id);
                let at = peer_place(met, node.id@);
                final(self)@ == (Mind {
                    peers: met.update(at, seen(met[at], user, *node)),
                    ..old(self)@
                })
            }),
    {
        let at: usize = self.meet(&node.id);
        let peer = &mut self.peers[at];
        peer.hostname = Some(node.hostname.clone());
        if !node.online || node.user != user {
            peer.online = false;
        } else {
            peer.online = true;
            peer.direct = node.direct;
            peer.ip = node.ip;
        }
    }

    fn see_all(&mut self, status: &Status) -> (r: Vec<DialTarget>)
        requires
            old(self).wf(),
        ensures
            final(self).wf(),
            final(self)@ == (Mind {
                peers: all_seen(
                    old(self)@.peers,
                    old(self)@.me.id@,
                    status.user,
                    status.nodes@,
                ),
                ..old(self)@
            }),
            r@ == targets(old(self)@.me.id@, status.user, status.nodes@),
    {
        let mut dial: Vec<DialTarget> = Vec::new();
        let ghost before = self@;
        let ghost nodes = status.nodes@;
        assert(nodes.take(0) =~= Seq::empty());
        for i in 0..status.nodes.len()
            invariant
                self.wf(),
                nodes == status.nodes@,
                self@ == (Mind {
                    peers: all_seen(
                        before.peers,
                        before.me.id@,
                        status.user,
                        nodes.take(i as int),
                    ),
                    ..before
                }),
                dial@ == targets(before.me.id@, status.user, nodes.take(i as int)),
        {
            assert(nodes.take(i + 1).drop_last() =~= nodes.take(i as int));
            let node = &status.nodes[i];
            if !node.id.same(&self.me.id) {
                self.see_node(status.user, node);
                if node.online && node.user == status.user {
                    if let Some(ip) = node.ip {
                        dial.push(DialTarget { id: node.id.clone(), ip });
                    }
                }
            }
        }
        assert(nodes.take(nodes.len() as int) =~= nodes);
        dial
    }

    fn switch_unlisted_off(&mut self, nodes: &Vec<Node>)
        requires
            old(self).wf(),
        ensures
            final(self).wf(),
            final(self)@ == (Mind {
                peers: unlisted_off(old(self)@.peers, nodes@),
                ..old(self)@
            }),
    {
        let ghost before = self@;
        let ghost goal = unlisted_off(before.peers, nodes@);
        let mut i: usize = 0;
        while i < self.peers.len()
            invariant
                self.wf(),
                goal == unlisted_off(before.peers, nodes@),
                i <= before.peers.len(),
                self@ == (Mind { peers: self.peers@, ..before }),
                self.peers@.len() == before.peers.len(),
                forall|k: int| 0 <= k < i ==> (#[trigger] self.peers@[k]) == goal[k],
                forall|k: int|
                    i <= k < before.peers.len() ==> (#[trigger] self.peers@[k]) == before.peers[k],
            decreases before.peers.len() - i,
        {
            if !is_listed(nodes, &self.peers[i].id) {
                self.peers[i].online = false;
            }
            i = i + 1;
        }
        assert(self.peers@ =~= goal);
    }

    /// The network was looked at.
    pub fn discover(&mut self, status: Result<Status, Notice>, now: u64)
        requires
            old(self).wf(),
            now <= LATEST,
        ensures
            final(self).wf(),
            discovered(old(self)@, status, now, final(self)@),
    {
        match status {
            Err(cause) => {
                self.tailscale_error = Some(about(Trouble::TailscaleStatus, cause));
                self.touch_ui(now);
            },
            Ok(status) => {
                self.tailscale_error = None;
                let dial = Arc::new(self.see_all(&status));
                self.switch_unlisted_off(&status.nodes);
                assert(dial@ == targets(old(self)@.me.id@, status.user, status.nodes@));
                self.act(Act::Dial(dial));
                self.touch_ui(now);
            },
        }
    }
}

fn is_listed(nodes: &Vec<Node>, id: &MachineId) -> (r: bool)
    ensures
        r == listed(nodes@, id@),
{
    for i in 0..nodes.len()
        invariant
            forall|k: int| 0 <= k < i ==> (#[trigger] nodes@[k]).id@ != id@,
    {
        if nodes[i].id.same(id) {
            assert(nodes@[i as int].id@ == id@);
            return true;
        }
    }
    false
}

proof fn lemma_unknown(peers: Seq<Peer>, id: Seq<char>)
    requires
        peer_place(peers, id) >= peers.len(),
    ensures
        forall|i: int| 0 <= i < peers.len() ==> (#[trigger] peers[i]).id@ != id,
    decreases peers.len(),
{
    if peers.len() > 0 {
        let rest = peers.skip(1);
        lemma_unknown(rest, id);
        assert forall|i: int| 0 <= i < peers.len() implies (#[trigger] peers[i]).id@ != id by {
            if i > 0 {
                assert(rest[i - 1] == peers[i]);
            }
        }
    }
}

proof fn lemma_greeting_keeps(
    mind: Mind,
    id: MachineId,
    hello: Arc<MachineInfo>,
    caps: Caps,
    ip: Option<Ip>,
    now: u64,
)
    ensures
        mind.greeted(id, hello, caps, ip, now).layout_lamport == mind.layout_lamport,
{
}

} // verus!
