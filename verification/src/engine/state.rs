//! The state of the engine, and the steps that its decisions are made of.

use super::notice::Notice;
use crate::edge_policy::{Gesture, Progress};
use crate::geometry::{DisplayRect, Vec2, PIXEL};
use crate::input::InputEvent;
use crate::input_settings::InputSettings;
use crate::input_transport::socket::Ip;
use crate::layout::{EdgeLink, EdgeSpec, MachinePlacement};
use crate::ledger::{HeldLedger, Holding};
use crate::machine::{text_before, MachineId, Stamp};
use std::sync::Arc;
use vstd::prelude::*;

verus! {

/// Microseconds until a change is shown.
pub const UI_DEBOUNCE: u64 = 100_000;

/// Microseconds until progress at an edge is shown.
pub const UI_CROSSING: u64 = 16_000;

/// Microseconds until changed settings are written.
pub const CFG_DEBOUNCE: u64 = 1_000_000;

/// Microseconds after being driven in which no edge is crossed.
pub const DRIVEN_GRACE: u64 = 1_000_000;

/// The latest time that is reckoned with.
pub const LATEST: u64 = 0x4000_0000_0000_0000;

#[derive(Clone, Copy, Debug, PartialEq, Eq, Structural)]
pub enum Os {
    Macos,
    Linux,
    Other,
}

/// What a machine tells of itself.
#[derive(Debug)]
pub struct MachineInfo {
    pub id: MachineId,
    pub hostname: String,
    pub os: Os,
    pub displays: Vec<DisplayRect>,
}

/// What a machine understands beyond input.
#[derive(Clone, Copy, Debug, PartialEq, Eq, Structural)]
pub struct Caps {
    pub master: bool,
    pub clipboard: bool,
    pub files: bool,
}

/// What is known of another machine.
#[derive(Debug)]
pub struct Peer {
    pub id: MachineId,
    /// The last raw session it began.
    pub raw_generation: u64,
    pub hostname: Option<String>,
    pub error: Option<Notice>,
    pub info: Option<Arc<MachineInfo>>,
    pub caps: Caps,
    pub connected: bool,
    pub degraded: bool,
    pub master_off: bool,
    pub online: bool,
    /// Reached without a relay.
    pub direct: bool,
    pub rtt_us: Option<u64>,
    pub ip: Option<Ip>,
}

/// Who has the pointer.
#[derive(Debug)]
pub enum Focus {
    Local,
    /// This machine drives another.
    Remote(MachineId),
    /// Another machine drives this one.
    Driven(MachineId),
}

impl Clone for Focus {
    fn clone(&self) -> (r: Self)
        ensures
            r == *self,
    {
        match self {
            Focus::Local => Focus::Local,
            Focus::Remote(id) => Focus::Remote(id.clone()),
            Focus::Driven(id) => Focus::Driven(id.clone()),
        }
    }
}

impl Focus {
    pub open spec fn drives(self, id: Seq<char>) -> bool {
        self matches Focus::Remote(target) && target@ == id
    }

    pub open spec fn driven_by(self, id: Seq<char>) -> bool {
        self matches Focus::Driven(source) && source@ == id
    }

    pub fn is_local(&self) -> (r: bool)
        ensures
            r == (*self is Local),
    {
        match self {
            Focus::Local => true,
            _ => false,
        }
    }

    pub fn is_remote(&self) -> (r: bool)
        ensures
            r == (*self is Remote),
    {
        match self {
            Focus::Remote(_) => true,
            _ => false,
        }
    }

    pub fn is_on(&self, id: &MachineId) -> (r: bool)
        ensures
            r == self.drives(id@),
    {
        match self {
            Focus::Remote(target) => target.same(id),
            _ => false,
        }
    }

    pub fn is_driven_by(&self, id: &MachineId) -> (r: bool)
        ensures
            r == self.driven_by(id@),
    {
        match self {
            Focus::Driven(source) => source.same(id),
            _ => false,
        }
    }
}

/// Why a session ends.
#[derive(Clone, Copy, Debug, PartialEq, Eq, Structural)]
pub enum LeaveReason {
    Crossed,
    CaptureLost,
    Reconfigured,
    SourceChanged,
    Panic,
}

/// A machine's place on the canvas.
#[derive(Debug)]
pub struct Place {
    pub id: MachineId,
    pub placement: MachinePlacement,
}

impl Clone for Place {
    fn clone(&self) -> (r: Self)
        ensures
            r == *self,
    {
        Place { id: self.id.clone(), placement: self.placement }
    }
}

/// How fast the pointer is between two machines, in units of [`PIXEL`].
#[derive(Debug)]
pub struct Factor {
    pub a: MachineId,
    pub b: MachineId,
    pub factor: i64,
}

impl Clone for Factor {
    fn clone(&self) -> (r: Self)
        ensures
            r == *self,
    {
        Factor { a: self.a.clone(), b: self.b.clone(), factor: self.factor }
    }
}

/// The arrangement that all machines share.
#[derive(Debug)]
pub struct LayoutDoc {
    pub stamp: Stamp,
    /// The machines, in the order of their identities.
    pub machines: Vec<Place>,
    pub sensitivity: Vec<Factor>,
}

/// The secret of a raw connection.
#[derive(Clone, Copy, Debug, PartialEq, Eq, Structural)]
pub struct Ticket {
    pub high: u128,
    pub low: u128,
}

/// What machines tell each other.
#[derive(Debug)]
pub enum Frame {
    Enter { session: u64, pos: Vec2 },
    Leave { session: u64, reason: LeaveReason },
    Input { session: u64, event: InputEvent },
    ReleaseAll,
    Panic,
    SourceClaim(Stamp),
    LayoutSync(Arc<LayoutDoc>),
    MasterState { enabled: bool },
    MachineUpdate(Arc<MachineInfo>),
    RawPrepare { session: u64, pos: Vec2, boundary: bool },
    RawReady { session: u64, port: u16, ticket: Ticket },
    RawReject { session: u64, reason: Notice },
    RawBoundary { session: u64, target: MachineId, pos: Vec2 },
    RawBoundaryAck { session: u64 },
    RawBoundaryPolicy { session: u64, boundary: bool },
}

/// A machine to keep a connection with.
#[derive(Debug)]
pub struct DialTarget {
    pub id: MachineId,
    pub ip: Ip,
}

/// What is to be done.
#[derive(Debug)]
pub enum Act {
    Send { to: MachineId, frame: Frame },
    Broadcast(Frame),
    SetActive { peer: MachineId, active: bool },
    BeginCapture,
    EndCapture(Option<Vec2>),
    SetEdges(Arc<Vec<EdgeSpec>>),
    /// Puts the pointer of this machine somewhere.
    Enter(Vec2),
    /// Lets go of this machine's pointer.
    Leave,
    ReleaseAll,
    Inject(InputEvent),
    StopRaw { session: u64 },
    PrepareRawCapture,
    BeginRawCapture { edge: Option<u32>, operation: u64 },
    AwaitRawTarget { peer: MachineId, session: u64, operation: u64 },
    PrepareRawTarget { peer: MachineId, session: u64, pos: Vec2, operation: u64 },
    BeginRaw { session: u64 },
    EndRaw { session: u64 },
    SetRawPolicy { session: u64, boundary: bool },
    ReceiveRaw { peer: MachineId, ip: Ip, session: u64, operation: u64 },
    ConnectRaw {
        peer: MachineId,
        ip: Ip,
        port: u16,
        session: u64,
        ticket: Ticket,
        operation: u64,
    },
    SendRaw { peer: MachineId, session: u64, operation: u64 },
    Dial(Arc<Vec<DialTarget>>),
    UpdateSelf(Arc<MachineInfo>),
    SaveConfig,
    SaveSettings(Arc<InputSettings>),
    SetBackends(u64),
    Update { machine: MachineId, action: u64 },
    Export,
    Discover,
    ForgetFetches(MachineId),
    StopClipboard,
}

/// Which implementations capture and inject, and what the platform tells of them.
#[derive(Debug)]
pub struct BackendStatus {
    pub choice: u64,
    pub detail: Arc<String>,
}

/// A pointer that presses against an edge.
#[derive(Debug)]
pub struct Crossing {
    pub link: EdgeLink,
    pub pos: Vec2,
    /// The capture edge, where it is one of this machine.
    pub local_edge: Option<u32>,
    pub gesture: Gesture,
    pub progress: Progress,
}

/// The state of raw input.
#[derive(Debug)]
pub struct RawState {
    /// Counts the operations: what belongs to an earlier one no longer matters.
    pub operation: u64,
    pub can_capture: bool,
    pub can_inject: bool,
    pub error: Option<Notice>,
    pub preparing: Option<MachineId>,
    pub active: bool,
    pub boundary: bool,
    pub pending_policy: bool,
    pub pending_boundary: Option<(u64, u32)>,
    pub pending_target: Option<(MachineId, u64)>,
    pub connecting: bool,
    pub edge: Option<u32>,
}

/// What an answer is awaited for.
#[derive(Debug)]
pub enum Awaiting {
    /// The pointer is captured, to drive a machine.
    Capture { target: MachineId, pos: Vec2, held: bool },
    /// The pointer is placed, for a machine that drives this one.
    Enter { source: MachineId, session: u64 },
    RawCapture { target: MachineId, pos: Vec2, edge: Option<u32> },
    RawBegin { source: MachineId, session: u64, pos: Vec2, port: u16, ticket: Ticket },
    RawArm { source: MachineId, session: u64, pos: Vec2, port: u16, ticket: Ticket },
    RawPlace { source: MachineId, session: u64, port: u16, ticket: Ticket },
    RawSend { target: MachineId, session: u64 },
    RawPolicy { source: MachineId },
    Settings(Arc<InputSettings>),
}

pub struct Engine {
    pub me: Arc<MachineInfo>,
    pub peers: Vec<Peer>,
    /// Machines whose control connection takes frames.
    pub open: Vec<MachineId>,
    pub master_enabled: bool,
    pub clipboard_sync: bool,
    pub panic_chord: Arc<Vec<u32>>,
    pub edge_dwell_ms: u32,
    pub corner_dead_zone: u32,
    pub backends: u64,
    pub doc: Option<Arc<LayoutDoc>>,
    pub layout_lamport: u64,
    pub claim: Option<Stamp>,
    pub claim_lamport: u64,
    pub focus: Focus,
    pub session: u64,
    pub active_session: u64,
    /// Where the pointer is on the driven machine.
    pub pos: Vec2,
    /// How fast it is there, in units of [`PIXEL`].
    pub factor: i64,
    /// Where the pointer was here when it left.
    pub last_local: Vec2,
    pub source: HeldLedger,
    pub target: HeldLedger,
    /// Links that can be crossed.
    pub links: Vec<EdgeLink>,
    /// Links between all placed machines.
    pub geo_links: Vec<EdgeLink>,
    /// Those that leave this machine, in the order of the capture edges.
    pub armed: Vec<EdgeLink>,
    pub crossing: Option<Crossing>,
    pub raw: RawState,
    pub settings: Arc<InputSettings>,
    /// What was held when a captured session was handed on.
    pub held: HeldLedger,
    pub tailscale_error: Option<Notice>,
    pub config_error: Option<Notice>,
    pub capture_error: Option<Notice>,
    pub export_path: Option<Arc<String>>,
    pub export_error: Option<Notice>,
    /// What the platform told of its devices.
    pub health: Option<Arc<String>>,
    pub backend_status: Option<BackendStatus>,
    pub restart_requested: bool,
    pub ui_deadline: Option<u64>,
    pub cfg_deadline: Option<u64>,
    pub grace_until: Option<u64>,
    pub awaiting: Option<Awaiting>,
    pub outbox: Vec<Act>,
}

pub ghost struct Mind {
    pub me: Arc<MachineInfo>,
    pub peers: Seq<Peer>,
    pub open: Seq<MachineId>,
    pub master_enabled: bool,
    pub clipboard_sync: bool,
    pub panic_chord: Arc<Vec<u32>>,
    pub edge_dwell_ms: u32,
    pub corner_dead_zone: u32,
    pub backends: u64,
    pub doc: Option<Arc<LayoutDoc>>,
    pub layout_lamport: u64,
    pub claim: Option<Stamp>,
    pub claim_lamport: u64,
    pub focus: Focus,
    pub session: u64,
    pub active_session: u64,
    pub pos: Vec2,
    pub factor: i64,
    pub last_local: Vec2,
    pub source: Holding,
    pub target: Holding,
    pub links: Seq<EdgeLink>,
    pub geo_links: Seq<EdgeLink>,
    pub armed: Seq<EdgeLink>,
    pub crossing: Option<Crossing>,
    pub raw: RawState,
    pub settings: Arc<InputSettings>,
    pub held: Holding,
    pub tailscale_error: Option<Notice>,
    pub config_error: Option<Notice>,
    pub capture_error: Option<Notice>,
    pub export_path: Option<Arc<String>>,
    pub export_error: Option<Notice>,
    /// What the platform told of its devices.
    pub health: Option<Arc<String>>,
    pub backend_status: Option<BackendStatus>,
    pub restart_requested: bool,
    pub ui_deadline: Option<u64>,
    pub cfg_deadline: Option<u64>,
    pub grace_until: Option<u64>,
    pub awaiting: Option<Awaiting>,
    pub outbox: Seq<Act>,
}

impl View for Engine {
    type V = Mind;

    open spec fn view(&self) -> Mind {
        Mind {
            me: self.me,
            peers: self.peers@,
            open: self.open@,
            master_enabled: self.master_enabled,
            clipboard_sync: self.clipboard_sync,
            panic_chord: self.panic_chord,
            edge_dwell_ms: self.edge_dwell_ms,
            corner_dead_zone: self.corner_dead_zone,
            backends: self.backends,
            doc: self.doc,
            layout_lamport: self.layout_lamport,
            claim: self.claim,
            claim_lamport: self.claim_lamport,
            focus: self.focus,
            session: self.session,
            active_session: self.active_session,
            pos: self.pos,
            factor: self.factor,
            last_local: self.last_local,
            source: self.source@,
            target: self.target@,
            links: self.links@,
            geo_links: self.geo_links@,
            armed: self.armed@,
            crossing: self.crossing,
            raw: self.raw,
            settings: self.settings,
            held: self.held@,
            tailscale_error: self.tailscale_error,
            config_error: self.config_error,
            capture_error: self.capture_error,
            export_path: self.export_path,
            export_error: self.export_error,
            health: self.health,
            backend_status: self.backend_status,
            restart_requested: self.restart_requested,
            ui_deadline: self.ui_deadline,
            cfg_deadline: self.cfg_deadline,
            grace_until: self.grace_until,
            awaiting: self.awaiting,
            outbox: self.outbox@,
        }
    }
}

/// Where a machine stands among the peers, or their number.
pub open spec fn peer_place(peers: Seq<Peer>, id: Seq<char>) -> int
    decreases peers.len(),
{
    if peers.len() == 0 {
        0
    } else if peers[0].id@ == id {
        0
    } else {
        1 + peer_place(peers.skip(1), id)
    }
}

pub(crate) proof fn lemma_peer_place(peers: Seq<Peer>, id: Seq<char>, at: int)
    requires
        0 <= at <= peers.len(),
        forall|i: int| 0 <= i < at ==> (#[trigger] peers[i]).id@ != id,
        at < peers.len() ==> peers[at].id@ == id,
    ensures
        peer_place(peers, id) == at,
    decreases peers.len(),
{
    if peers.len() > 0 && at > 0 {
        assert(peers[0].id@ != id);
        let rest = peers.skip(1);
        assert forall|i: int| 0 <= i < at - 1 implies (#[trigger] rest[i]).id@ != id by {
            assert(rest[i] == peers[i + 1]);
        }
        lemma_peer_place(rest, id, at - 1);
    }
}

/// A machine that nothing is known of.
pub open spec fn stranger(id: MachineId) -> Peer {
    Peer {
        id,
        raw_generation: 0,
        hostname: None,
        error: None,
        info: None,
        caps: Caps { master: false, clipboard: false, files: false },
        connected: false,
        degraded: false,
        master_off: false,
        online: false,
        direct: false,
        rtt_us: None,
        ip: None,
    }
}

/// The peers, with one more where it is unknown.
pub open spec fn with_peer(peers: Seq<Peer>, id: MachineId) -> Seq<Peer> {
    if peer_place(peers, id@) < peers.len() {
        peers
    } else {
        peers.push(stranger(id))
    }
}

/// Where a machine's place is, or would be, in the order of the identities.
pub open spec fn room(places: Seq<Place>, id: Seq<char>) -> int
    decreases places.len(),
{
    if places.len() == 0 || !text_before(places[0].id@, id) {
        0
    } else {
        1 + room(places.skip(1), id)
    }
}

/// A machine's place.
pub open spec fn placed(places: Seq<Place>, id: Seq<char>) -> Option<MachinePlacement> {
    let at = room(places, id);
    if at < places.len() && places[at].id@ == id {
        Some(places[at].placement)
    } else {
        None
    }
}

/// The places, with one set.
pub open spec fn with_place(places: Seq<Place>, id: MachineId, placement: MachinePlacement) -> Seq<
    Place,
> {
    let at = room(places, id@);
    if at < places.len() && places[at].id@ == id@ {
        places.update(at, Place { id: places[at].id, placement })
    } else {
        places.insert(at, Place { id, placement })
    }
}

pub(crate) proof fn lemma_room(places: Seq<Place>, id: Seq<char>, at: int)
    requires
        0 <= at <= places.len(),
        forall|i: int| 0 <= i < at ==> text_before((#[trigger] places[i]).id@, id),
        at < places.len() ==> !text_before(places[at].id@, id),
    ensures
        room(places, id) == at,
    decreases places.len(),
{
    if places.len() > 0 && at > 0 {
        assert(text_before(places[0].id@, id));
        let rest = places.skip(1);
        assert forall|i: int| 0 <= i < at - 1 implies text_before((#[trigger] rest[i]).id@, id) by {
            assert(rest[i] == places[i + 1]);
        }
        lemma_room(rest, id, at - 1);
    }
}

pub(crate) proof fn lemma_room_is(places: Seq<Place>, id: Seq<char>)
    ensures
        0 <= room(places, id) <= places.len(),
        forall|i: int| 0 <= i < room(places, id) ==> text_before((#[trigger] places[i]).id@, id),
        room(places, id) < places.len() ==> !text_before(places[room(places, id)].id@, id),
    decreases places.len(),
{
    if places.len() > 0 && text_before(places[0].id@, id) {
        let rest = places.skip(1);
        lemma_room_is(rest, id);
        assert forall|i: int| 0 <= i < room(places, id) implies text_before(
            (#[trigger] places[i]).id@,
            id,
        ) by {
            if i > 0 {
                assert(rest[i - 1] == places[i]);
            }
        }
    }
}

pub fn find_room(places: &Vec<Place>, id: &MachineId) -> (r: usize)
    ensures
        r == room(places@, id@),
        r <= places@.len(),
{
    let mut at: usize = 0;
    while at < places.len() && places[at].id.before(id)
        invariant
            at <= places@.len(),
            forall|i: int| 0 <= i < at ==> text_before((#[trigger] places@[i]).id@, id@),
        ensures
            at <= places@.len(),
            forall|i: int| 0 <= i < at ==> text_before((#[trigger] places@[i]).id@, id@),
            at < places@.len() ==> !text_before(places@[at as int].id@, id@),
        decreases places@.len() - at,
    {
        at = at + 1;
    }
    proof {
        lemma_room(places@, id@, at as int);
    }
    at
}

pub fn find_place(places: &Vec<Place>, id: &MachineId) -> (r: Option<MachinePlacement>)
    ensures
        r == placed(places@, id@),
{
    let at: usize = find_room(places, id);
    if at < places.len() && places[at].id.same(id) {
        Some(places[at].placement)
    } else {
        None
    }
}

pub fn set_place(places: &mut Vec<Place>, id: &MachineId, placement: MachinePlacement)
    ensures
        final(places)@ == with_place(old(places)@, *id, placement),
{
    let at: usize = find_room(places, id);
    if at < places.len() && places[at].id.same(id) {
        let kept = places[at].id.clone();
        places.set(at, Place { id: kept, placement });
    } else {
        places.insert(at, Place { id: id.clone(), placement });
    }
}

/// How fast the pointer is between two machines.
pub open spec fn factor_between(factors: Seq<Factor>, a: Seq<char>, b: Seq<char>) -> i64
    decreases factors.len(),
{
    if factors.len() == 0 {
        PIXEL
    } else if is_between(factors.last(), a, b) {
        factors.last().factor
    } else {
        factor_between(factors.drop_last(), a, b)
    }
}

pub open spec fn is_between(f: Factor, a: Seq<char>, b: Seq<char>) -> bool {
    (f.a@ == a && f.b@ == b) || (f.a@ == b && f.b@ == a)
}

pub fn lies_between(f: &Factor, a: &MachineId, b: &MachineId) -> (r: bool)
    ensures
        r == is_between(*f, a@, b@),
{
    (f.a.same(a) && f.b.same(b)) || (f.a.same(b) && f.b.same(a))
}

/// Not before either of two deadlines.
pub open spec fn sooner(deadline: Option<u64>, at: u64) -> Option<u64> {
    match deadline {
        Some(current) => if at < current {
            Some(at)
        } else {
            Some(current)
        },
        None => Some(at),
    }
}

pub open spec fn is_open(open: Seq<MachineId>, id: Seq<char>) -> bool {
    exists|i: int| 0 <= i < open.len() && (#[trigger] open[i])@ == id
}

/// Frames that hand input events on.
pub open spec fn inputs(to: MachineId, session: u64, events: Seq<InputEvent>) -> Seq<Act> {
    Seq::new(
        events.len(),
        |i: int| Act::Send { to, frame: Frame::Input { session, event: events[i] } },
    )
}

impl Mind {
    /// Numbers are left to claim and to begin a session with.
    pub open spec fn counts(self) -> bool {
        &&& self.claimed_by(self.me.id@) || self.claim_lamport < u64::MAX
        &&& self.session < u64::MAX
    }

    pub open spec fn knows(self, id: Seq<char>) -> bool {
        peer_place(self.peers, id) < self.peers.len()
    }

    pub open spec fn peer(self, id: Seq<char>) -> Peer {
        self.peers[peer_place(self.peers, id)]
    }

    pub open spec fn usable(self, id: Seq<char>) -> bool {
        self.knows(id) && self.peer(id).connected && !self.peer(id).degraded && !self.peer(
            id,
        ).master_off
    }

    pub open spec fn connected(self, id: Seq<char>) -> bool {
        self.knows(id) && self.peer(id).connected
    }

    pub open spec fn places(self) -> Seq<Place> {
        match self.doc {
            Some(doc) => doc.machines@,
            None => Seq::empty(),
        }
    }

    pub open spec fn factors(self) -> Seq<Factor> {
        match self.doc {
            Some(doc) => doc.sensitivity@,
            None => Seq::empty(),
        }
    }

    /// A machine takes part unless it was switched off.
    pub open spec fn enabled(self, id: Seq<char>) -> bool {
        match placed(self.places(), id) {
            Some(placement) => placement.enabled,
            None => true,
        }
    }

    pub open spec fn displays(self, id: Seq<char>) -> Seq<DisplayRect> {
        if id == self.me.id@ {
            self.me.displays@
        } else if self.knows(id) {
            match self.peer(id).info {
                Some(info) => info.displays@,
                None => Seq::empty(),
            }
        } else {
            Seq::empty()
        }
    }

    pub open spec fn speed(self, target: Seq<char>) -> i64 {
        factor_between(self.factors(), self.me.id@, target)
    }

    pub open spec fn claimed_by(self, id: Seq<char>) -> bool {
        self.claim matches Some(stamp) && stamp.writer@ == id
    }

    pub open spec fn touched(self, now: u64) -> Mind {
        let delay = if self.crossing is Some {
            UI_CROSSING
        } else {
            UI_DEBOUNCE
        };
        Mind { ui_deadline: sooner(self.ui_deadline, (now + delay) as u64), ..self }
    }

    pub open spec fn dirty(self, now: u64) -> Mind {
        Mind { cfg_deadline: Some((now + CFG_DEBOUNCE) as u64), ..self }
    }

    pub open spec fn doing(self, act: Act) -> Mind {
        Mind { outbox: self.outbox.push(act), ..self }
    }

    pub open spec fn sends(self, to: Seq<char>) -> bool {
        is_open(self.open, to)
    }

    /// A frame is handed to a machine's connection, where it takes one.
    pub open spec fn posted(self, to: MachineId, frame: Frame) -> Mind {
        if self.sends(to@) {
            self.doing(Act::Send { to, frame })
        } else {
            self
        }
    }

    pub open spec fn posted_inputs(self, to: MachineId, session: u64, events: Seq<InputEvent>) -> Mind {
        if self.sends(to@) {
            Mind { outbox: self.outbox + inputs(to, session, events), ..self }
        } else {
            self
        }
    }

    /// This machine becomes the source of input, unless it is already.
    pub open spec fn claiming(self, now: u64) -> Mind {
        if self.claimed_by(self.me.id@) {
            self
        } else {
            let stamp = Stamp { lamport: (self.claim_lamport + 1) as u64, writer: self.me.id };
            Mind { claim: Some(stamp), claim_lamport: stamp.lamport, ..self }.doing(
                Act::Broadcast(Frame::SourceClaim(stamp)),
            ).touched(now)
        }
    }
}

impl Engine {
    pub open spec fn wf(&self) -> bool {
        &&& self.source.wf()
        &&& self.target.wf()
        &&& self.held.wf()
        &&& self.crossing matches Some(c) ==> c.gesture.wf() && c.pos.bounded()
        &&& self.pos.bounded()
        &&& self.last_local.bounded()
        &&& match self.awaiting {
            Some(Awaiting::Capture { pos, .. }) => pos.bounded(),
            Some(Awaiting::RawCapture { pos, .. }) => pos.bounded(),
            Some(Awaiting::RawBegin { pos, .. }) => pos.bounded(),
            Some(Awaiting::RawArm { pos, .. }) => pos.bounded(),
            _ => true,
        }
    }

    pub(crate) fn find_peer(&self, id: &MachineId) -> (r: usize)
        ensures
            r == peer_place(self.peers@, id@),
            r <= self.peers@.len(),
    {
        let mut at: usize = 0;
        while at < self.peers.len() && !self.peers[at].id.same(id)
            invariant
                at <= self.peers@.len(),
                forall|i: int| 0 <= i < at ==> (#[trigger] self.peers@[i]).id@ != id@,
            ensures
                at <= self.peers@.len(),
                forall|i: int| 0 <= i < at ==> (#[trigger] self.peers@[i]).id@ != id@,
                at < self.peers@.len() ==> self.peers@[at as int].id@ == id@,
            decreases self.peers@.len() - at,
        {
            at = at + 1;
        }
        proof {
            lemma_peer_place(self.peers@, id@, at as int);
        }
        at
    }

    pub fn peer_usable(&self, id: &MachineId) -> (r: bool)
        ensures
            r == self@.usable(id@),
    {
        let at: usize = self.find_peer(id);
        at < self.peers.len() && self.peers[at].connected && !self.peers[at].degraded
            && !self.peers[at].master_off
    }

    pub(crate) fn is_connected(&self, id: &MachineId) -> (r: bool)
        ensures
            r == self@.connected(id@),
    {
        let at: usize = self.find_peer(id);
        at < self.peers.len() && self.peers[at].connected
    }

    pub fn machine_enabled(&self, id: &MachineId) -> (r: bool)
        ensures
            r == self@.enabled(id@),
    {
        match &self.doc {
            Some(doc) => match find_place(&doc.machines, id) {
                Some(placement) => placement.enabled,
                None => true,
            },
            None => true,
        }
    }

    /// What a machine told of itself.
    pub(crate) fn info_of(&self, id: &MachineId) -> (r: Option<Arc<MachineInfo>>)
        ensures
            match r {
                Some(info) => info.displays@ == self@.displays(id@),
                None => self@.displays(id@) == Seq::<DisplayRect>::empty(),
            },
    {
        if id.same(&self.me.id) {
            return Some(self.me.clone());
        }
        let at: usize = self.find_peer(id);
        if at < self.peers.len() {
            match &self.peers[at].info {
                Some(info) => Some(info.clone()),
                None => None,
            }
        } else {
            None
        }
    }

    pub fn sensitivity(&self, target: &MachineId) -> (r: i64)
        ensures
            r == self@.speed(target@),
    {
        let Some(doc) = &self.doc else {
            return PIXEL;
        };
        let mut i: usize = doc.sensitivity.len();
        let ghost all = doc.sensitivity@;
        assert(all.take(i as int) =~= all);
        while i > 0
            invariant
                all == doc.sensitivity@,
                all == self@.factors(),
                i <= all.len(),
                factor_between(all, self.me.id@, target@) == factor_between(
                    all.take(i as int),
                    self.me.id@,
                    target@,
                ),
            decreases i,
        {
            assert(all.take(i as int).drop_last() =~= all.take(i - 1));
            if lies_between(&doc.sensitivity[i - 1], &self.me.id, target) {
                return doc.sensitivity[i - 1].factor;
            }
            i = i - 1;
        }
        PIXEL
    }

    pub(crate) fn owns_claim(&self, id: &MachineId) -> (r: bool)
        ensures
            r == self@.claimed_by(id@),
    {
        match &self.claim {
            Some(stamp) => stamp.writer.same(id),
            None => false,
        }
    }

    pub(crate) fn touch_ui(&mut self, now: u64)
        requires
            now <= LATEST,
            old(self).wf(),
        ensures
            final(self).wf(),
            final(self)@ == old(self)@.touched(now),
    {
        let delay: u64 = if self.crossing.is_some() {
            UI_CROSSING
        } else {
            UI_DEBOUNCE
        };
        let at: u64 = now + delay;
        self.ui_deadline = match self.ui_deadline {
            Some(current) => if at < current {
                Some(at)
            } else {
                Some(current)
            },
            None => Some(at),
        };
    }

    pub(crate) fn mark_dirty(&mut self, now: u64)
        requires
            now <= LATEST,
            old(self).wf(),
        ensures
            final(self).wf(),
            final(self)@ == old(self)@.dirty(now),
    {
        self.cfg_deadline = Some(now + CFG_DEBOUNCE);
    }

    pub(crate) fn act(&mut self, act: Act)
        requires
            old(self).wf(),
        ensures
            final(self).wf(),
            final(self)@ == old(self)@.doing(act),
    {
        self.outbox.push(act);
    }

    pub(crate) fn takes_frames(&self, id: &MachineId) -> (r: bool)
        ensures
            r == self@.sends(id@),
    {
        for i in 0..self.open.len()
            invariant
                forall|k: int| 0 <= k < i ==> (#[trigger] self.open@[k])@ != id@,
        {
            if self.open[i].same(id) {
                assert(self.open@[i as int]@ == id@);
                return true;
            }
        }
        false
    }

    pub(crate) fn send(&mut self, to: &MachineId, frame: Frame) -> (r: bool)
        requires
            old(self).wf(),
        ensures
            final(self).wf(),
            r == old(self)@.sends(to@),
            final(self)@ == old(self)@.posted(*to, frame),
    {
        if self.takes_frames(to) {
            self.outbox.push(Act::Send { to: to.clone(), frame });
            true
        } else {
            false
        }
    }

    pub(crate) fn send_inputs(&mut self, to: &MachineId, session: u64, events: &Vec<InputEvent>)
        requires
            old(self).wf(),
        ensures
            final(self).wf(),
            final(self)@ == old(self)@.posted_inputs(*to, session, events@),
    {
        if !self.takes_frames(to) {
            return ;
        }
        let ghost before = self@;
        let ghost all = inputs(*to, session, events@);
        assert(before.outbox =~= before.outbox + all.take(0));
        for i in 0..events.len()
            invariant
                self.wf(),
                all == inputs(*to, session, events@),
                self@ == (Mind { outbox: before.outbox + all.take(i as int), ..before }),
        {
            self.outbox.push(
                Act::Send { to: to.clone(), frame: Frame::Input { session, event: events[i] } },
            );
            assert(before.outbox + all.take(i + 1) =~= (before.outbox + all.take(i as int)).push(
                all[i as int],
            ));
        }
        assert(all.take(all.len() as int) =~= all);
    }

    /// This machine becomes the source of input.
    pub fn claim_source(&mut self, now: u64)
        requires
            now <= LATEST,
            old(self).wf(),
            old(self)@.counts(),
        ensures
            final(self).wf(),
            final(self)@ == old(self)@.claiming(now),
    {
        if self.owns_claim(&self.me.id) {
            return ;
        }
        self.claim_lamport = self.claim_lamport + 1;
        let stamp = Stamp { lamport: self.claim_lamport, writer: self.me.id.clone() };
        self.claim = Some(stamp.clone());
        self.act(Act::Broadcast(Frame::SourceClaim(stamp)));
        self.touch_ui(now);
    }
}

} // verus!
