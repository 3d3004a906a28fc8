//! What is shown of the engine, and who this machine is.

use super::notice::{clone_notice, sentence, Notice};
use super::state::{find_place, placed, BackendStatus, Engine, Factor, Focus, MachineInfo, Mind, Os, Peer};
use crate::diagnostics::{Contact, Diagnostics};
use crate::edge_policy::Progress;
use crate::geometry::{DisplayRect, EdgeSide, Vec2, Vec2I};
use crate::input_settings::InputSettings;
use crate::input_transport::socket::Ip;
use crate::layout::EdgeLink;
use crate::machine::{text_before, text_is_before, MachineId};
use crate::text::{decimal, decimal_text, is_named, lowered, undotted, without_dots};
use std::sync::Arc;
use vstd::prelude::*;
use vstd::utf8::encode_utf8;

verus! {

/// How a machine is reached.
#[derive(Clone, Copy, Debug, PartialEq, Eq, Structural)]
pub enum UiConnection {
    SelfMachine,
    Offline,
    Connecting,
    Direct { rtt_us: u64 },
    Derp { rtt_us: u64 },
}

#[derive(Debug)]
pub struct UiMachine {
    pub id: MachineId,
    /// What it told of itself.
    pub info: Arc<MachineInfo>,
    pub offset: Vec2I,
    pub enabled: bool,
    pub connection: UiConnection,
    pub is_source: bool,
}

/// A stretch of the canvas where two machines meet.
#[derive(Debug)]
pub struct UiEdge {
    pub a: MachineId,
    pub b: MachineId,
    pub x1: i64,
    pub y1: i64,
    pub x2: i64,
    pub y2: i64,
    pub crossable: bool,
}

#[derive(Debug)]
pub struct UiCrossing {
    pub from: MachineId,
    pub to: MachineId,
    pub progress: Progress,
    pub side: EdgeSide,
    pub position: Vec2,
}

#[derive(Debug)]
pub struct UiState {
    pub self_id: MachineId,
    pub machines: Vec<UiMachine>,
    pub edges: Vec<UiEdge>,
    pub source: Option<MachineId>,
    pub focus: Focus,
    pub crossing: Option<UiCrossing>,
    pub input_settings: Arc<InputSettings>,
    pub input_error: Option<Notice>,
    pub raw_active: bool,
    pub preparing_input: Option<MachineId>,
    pub master_enabled: bool,
    pub clipboard_sync: bool,
    pub panic_chord: String,
    pub sensitivity: Vec<Factor>,
    pub tailscale_error: Option<Notice>,
    pub config_error: Option<Notice>,
    pub capture_error: Option<Notice>,
    pub connection_errors: Vec<String>,
    pub diagnostics: Diagnostics,
    pub health: Option<Arc<String>>,
    pub backends: Option<BackendStatus>,
    pub updates: Arc<String>,
    pub restart_requested: bool,
    pub build: Arc<String>,
}

/// What is shown beside the engine's own state: each connection, the updates, and which
/// build this is.
#[derive(Debug)]
pub struct Surroundings {
    pub peers: Arc<Vec<Contact>>,
    pub updates: Arc<String>,
    pub build: Arc<String>,
}

/// How a peer is reached; a flaky connection reads as one being made.
pub open spec fn connection_of(peer: Peer) -> UiConnection {
    if !peer.connected {
        if peer.online {
            UiConnection::Connecting
        } else {
            UiConnection::Offline
        }
    } else if peer.degraded {
        UiConnection::Connecting
    } else {
        let rtt_us = match peer.rtt_us {
            Some(rtt) => rtt,
            None => 0,
        };
        if peer.direct {
            UiConnection::Direct { rtt_us }
        } else {
            UiConnection::Derp { rtt_us }
        }
    }
}

/// How a machine is shown.
pub open spec fn machine_shown(
    mind: Mind,
    id: MachineId,
    info: Arc<MachineInfo>,
    connection: UiConnection,
) -> UiMachine {
    UiMachine {
        id,
        info,
        offset: match placed(mind.places(), id@) {
            Some(p) => p.offset,
            None => Vec2I { x: 0, y: 0 },
        },
        enabled: mind.enabled(id@),
        connection,
        is_source: mind.claimed_by(id@),
    }
}

/// Where a machine belongs among others in the order of their identities.
pub open spec fn spot(machines: Seq<UiMachine>, id: Seq<char>) -> int
    decreases machines.len(),
{
    if machines.len() == 0 || text_before(id, machines[0].id@) {
        0
    } else {
        1 + spot(machines.skip(1), id)
    }
}

/// The peers that told of themselves, in the order of their identities.
pub open spec fn peers_shown(mind: Mind, peers: Seq<Peer>) -> Seq<UiMachine>
    decreases peers.len(),
{
    if peers.len() == 0 {
        Seq::empty()
    } else {
        let before = peers_shown(mind, peers.drop_last());
        let last = peers.last();
        match last.info {
            None => before,
            Some(info) => before.insert(
                spot(before, last.id@),
                machine_shown(mind, last.id, info, connection_of(last)),
            ),
        }
    }
}

/// A machine can be reached, or is this one.
pub open spec fn present(mind: Mind, id: Seq<char>) -> bool {
    id == mind.me.id@ || mind.usable(id)
}

/// How a link is shown on the canvas: once for both directions.
pub open spec fn edge_shown(mind: Mind, link: EdgeLink) -> Option<UiEdge> {
    if !text_before(link.from@, link.to@) {
        None
    } else {
        match placed(mind.places(), link.from@) {
            None => None,
            Some(p) => {
                let (x1, y1, x2, y2) = if link.side.is_vertical() {
                    let x = link.at + p.offset.x;
                    (x, link.from_range.0 + p.offset.y, x, link.from_range.1 + p.offset.y)
                } else {
                    let y = link.at + p.offset.y;
                    (link.from_range.0 + p.offset.x, y, link.from_range.1 + p.offset.x, y)
                };
                Some(
                    UiEdge {
                        a: link.from,
                        b: link.to,
                        x1: x1 as i64,
                        y1: y1 as i64,
                        x2: x2 as i64,
                        y2: y2 as i64,
                        crossable: mind.enabled(link.from@) && mind.enabled(link.to@) && present(
                            mind,
                            link.from@,
                        ) && present(mind, link.to@),
                    },
                )
            },
        }
    }
}

pub open spec fn edges_shown(mind: Mind, links: Seq<EdgeLink>) -> Seq<UiEdge>
    decreases links.len(),
{
    if links.len() == 0 {
        Seq::empty()
    } else {
        let before = edges_shown(mind, links.drop_last());
        match edge_shown(mind, links.last()) {
            Some(edge) => before.push(edge),
            None => before,
        }
    }
}

/// What is shown of trouble with a peer.
pub open spec fn trouble_line(peer: Peer) -> Seq<char> {
    (match peer.hostname {
        Some(name) => name@,
        None => peer.id@,
    }) + ": "@ + sentence(peer.error->0)
}

/// Where a line belongs among others in the order of dictionaries.
pub open spec fn line_spot(lines: Seq<Seq<char>>, line: Seq<char>) -> int
    decreases lines.len(),
{
    if lines.len() == 0 || text_before(line, lines[0]) {
        0
    } else {
        1 + line_spot(lines.skip(1), line)
    }
}

/// Trouble with peers, in the order of dictionaries.
pub open spec fn trouble_lines(peers: Seq<Peer>) -> Seq<Seq<char>>
    decreases peers.len(),
{
    if peers.len() == 0 {
        Seq::empty()
    } else {
        let before = trouble_lines(peers.drop_last());
        if peers.last().error is Some {
            let line = trouble_line(peers.last());
            before.insert(line_spot(before, line), line)
        } else {
            before
        }
    }
}

/// The name of a key.
pub open spec fn key_name(code: u32) -> Seq<char> {
    if code == 29 || code == 97 {
        "Ctrl"@
    } else if code == 56 || code == 100 {
        "Alt"@
    } else if code == 42 {
        "Left Shift"@
    } else if code == 54 {
        "Right Shift"@
    } else if code == 125 || code == 126 {
        "Meta"@
    } else if code == 1 {
        "Esc"@
    } else if code == 111 {
        "Del"@
    } else if code == 103 {
        "Up"@
    } else if code == 108 {
        "Down"@
    } else if code == 105 {
        "Left"@
    } else if code == 106 {
        "Right"@
    } else {
        "Key"@ + decimal(code as nat)
    }
}

/// The names of keys that are pressed together.
pub open spec fn chord_text(codes: Seq<u32>) -> Seq<char>
    decreases codes.len(),
{
    if codes.len() == 0 {
        Seq::empty()
    } else if codes.len() == 1 {
        key_name(codes[0])
    } else {
        chord_text(codes.drop_last()) + "+"@ + key_name(codes.last())
    }
}

fn name_key(code: u32) -> (r: String)
    ensures
        r@ == key_name(code),
{
    match code {
        29 | 97 => "Ctrl".to_owned(),
        56 | 100 => "Alt".to_owned(),
        42 => "Left Shift".to_owned(),
        54 => "Right Shift".to_owned(),
        125 | 126 => "Meta".to_owned(),
        1 => "Esc".to_owned(),
        111 => "Del".to_owned(),
        103 => "Up".to_owned(),
        108 => "Down".to_owned(),
        105 => "Left".to_owned(),
        106 => "Right".to_owned(),
        other => {
            let mut out: String = "Key".to_owned();
            out.append(decimal_text(other as u64).as_str());
            out
        },
    }
}

/// The names of keys that are pressed together.
pub fn format_chord(codes: &Vec<u32>) -> (r: String)
    ensures
        r@ == chord_text(codes@),
{
    if codes.len() == 0 {
        let empty: String = "".to_owned();
        proof {
            reveal_strlit("");
        }
        assert(empty@ =~= Seq::<char>::empty());
        return empty;
    }
    let mut out = name_key(codes[0]);
    assert(codes@.take(1) =~= seq![codes@[0]]);
    assert(chord_text(codes@.take(1)) == key_name(codes@[0]));
    for i in 1..codes.len()
        invariant
            codes@.len() > 0,
            out@ == chord_text(codes@.take(i as int)),
    {
        assert(codes@.take(i + 1).drop_last() =~= codes@.take(i as int));
        assert(codes@.take(i + 1).last() == codes@[i as int]);
        out.append("+");
        out.append(name_key(codes[i]).as_str());
    }
    assert(codes@.take(codes@.len() as int) =~= codes@);
    out
}

pub open spec fn os_of(name: Seq<char>) -> Os {
    let bytes = lowered(encode_utf8(name));
    if bytes == encode_utf8("macos"@) || bytes == encode_utf8("darwin"@) {
        Os::Macos
    } else if bytes == encode_utf8("linux"@) {
        Os::Linux
    } else {
        Os::Other
    }
}

/// The system that goes by a name.
pub fn parse_os(name: &str) -> (r: Os)
    ensures
        r == os_of(name@),
{
    if is_named(name, "macos") || is_named(name, "darwin") {
        Os::Macos
    } else if is_named(name, "linux") {
        Os::Linux
    } else {
        Os::Other
    }
}

/// This machine, as the network knows it.
#[derive(Debug)]
pub struct SelfNode {
    pub id: MachineId,
    pub hostname: String,
    pub dns_name: String,
    pub os: String,
    pub ips: Vec<Ip>,
}

/// The first address of four bytes.
pub open spec fn first_v4(ips: Seq<Ip>) -> Option<Ip>
    decreases ips.len(),
{
    if ips.len() == 0 {
        None
    } else if ips[0] is V4 {
        Some(ips[0])
    } else {
        first_v4(ips.skip(1))
    }
}

pub fn find_v4(ips: &Vec<Ip>) -> (r: Option<Ip>)
    ensures
        r == first_v4(ips@),
{
    let mut i: usize = 0;
    assert(ips@.skip(0) =~= ips@);
    while i < ips.len()
        invariant
            i <= ips@.len(),
            first_v4(ips@) == first_v4(ips@.skip(i as int)),
        decreases ips@.len() - i,
    {
        match ips[i] {
            Ip::V4(_) => {
                return Some(ips[i]);
            },
            Ip::V6(_) => {},
        }
        assert(ips@.skip(i as int).skip(1) =~= ips@.skip(i + 1));
        i = i + 1;
    }
    None
}

/// Who this machine is, and the address it listens at; none as long as it has no address
/// of four bytes.
pub fn introduce(node: &SelfNode, displays: Vec<DisplayRect>) -> (r: Option<(MachineInfo, Ip)>)
    ensures
        r is Some == (first_v4(node.ips@) is Some),
        r matches Some((info, ip)) ==> {
            &&& Some(ip) == first_v4(node.ips@)
            &&& info.id == node.id
            &&& node.hostname@.len() > 0 ==> info.hostname == node.hostname
            &&& node.hostname@.len() == 0 ==> encode_utf8(info.hostname@) == undotted(
                encode_utf8(node.dns_name@),
            )
            &&& info.os == os_of(node.os@)
            &&& info.displays@ == displays@
        },
{
    let Some(ip) = find_v4(&node.ips) else {
        return None;
    };
    let hostname: String = if node.hostname.as_str().unicode_len() == 0 {
        without_dots(node.dns_name.as_str())
    } else {
        node.hostname.clone()
    };
    let info = MachineInfo {
        id: node.id.clone(),
        hostname,
        os: parse_os(node.os.as_str()),
        displays,
    };
    Some((info, ip))
}

/// What is shown.
pub open spec fn shows(mind: Mind, around: Surroundings, ui: UiState) -> bool {
    &&& ui.self_id == mind.me.id
    &&& ui.machines@ == seq![
        machine_shown(mind, mind.me.id, mind.me, UiConnection::SelfMachine),
    ] + peers_shown(mind, mind.peers)
    &&& ui.edges@ == edges_shown(mind, mind.geo_links)
    &&& ui.source == match mind.claim {
        Some(stamp) => Some(stamp.writer),
        None => None,
    }
    &&& ui.focus == mind.focus
    &&& ui.crossing == match mind.crossing {
        Some(c) => Some(
            UiCrossing {
                from: c.link.from,
                to: c.link.to,
                progress: c.progress,
                side: c.link.side,
                position: c.pos,
            },
        ),
        None => None,
    }
    &&& ui.input_settings == mind.settings
    &&& ui.input_error == mind.raw.error
    &&& ui.raw_active == mind.raw.active
    &&& ui.preparing_input == mind.raw.preparing
    &&& ui.master_enabled == mind.master_enabled
    &&& ui.clipboard_sync == mind.clipboard_sync
    &&& ui.panic_chord@ == chord_text(mind.panic_chord@)
    &&& ui.sensitivity@ == mind.factors()
    &&& ui.tailscale_error == mind.tailscale_error
    &&& ui.config_error == mind.config_error
    &&& ui.capture_error == mind.capture_error
    &&& ui.diagnostics == (Diagnostics {
        peers: around.peers,
        export_path: mind.export_path,
        export_error: mind.export_error,
    })
    &&& ui.health == mind.health
    &&& ui.backends == mind.backend_status
    &&& ui.updates == around.updates
    &&& ui.restart_requested == mind.restart_requested
    &&& ui.build == around.build
    &&& ui.connection_errors@.map_values(|line: String| line@) == trouble_lines(mind.peers)
}

proof fn lemma_spot(machines: Seq<UiMachine>, id: Seq<char>, at: int)
    requires
        0 <= at <= machines.len(),
        forall|i: int| 0 <= i < at ==> !text_before(id, (#[trigger] machines[i]).id@),
        at < machines.len() ==> text_before(id, machines[at].id@),
    ensures
        spot(machines, id) == at,
    decreases machines.len(),
{
    if machines.len() > 0 && at > 0 {
        assert(!text_before(id, machines[0].id@));
        let rest = machines.skip(1);
        assert forall|i: int| 0 <= i < at - 1 implies !text_before(
            id,
            (#[trigger] rest[i]).id@,
        ) by {
            assert(rest[i] == machines[i + 1]);
        }
        lemma_spot(rest, id, at - 1);
    }
}

proof fn lemma_line_spot(lines: Seq<Seq<char>>, line: Seq<char>, at: int)
    requires
        0 <= at <= lines.len(),
        forall|i: int| 0 <= i < at ==> !text_before(line, #[trigger] lines[i]),
        at < lines.len() ==> text_before(line, lines[at]),
    ensures
        line_spot(lines, line) == at,
    decreases lines.len(),
{
    if lines.len() > 0 && at > 0 {
        assert(!text_before(line, lines[0]));
        let rest = lines.skip(1);
        assert forall|i: int| 0 <= i < at - 1 implies !text_before(line, #[trigger] rest[i]) by {
            assert(rest[i] == lines[i + 1]);
        }
        lemma_line_spot(rest, line, at - 1);
    }
}

fn add_machine(machines: &mut Vec<UiMachine>, machine: UiMachine)
    ensures
        final(machines)@ == old(machines)@.insert(spot(old(machines)@, machine.id@), machine),
{
    let mut at: usize = 0;
    while at < machines.len() && !machine.id.before(&machines[at].id)
        invariant
            at <= machines@.len(),
            machines@ == old(machines)@,
            forall|i: int| 0 <= i < at ==> !text_before(machine.id@, (#[trigger] machines@[i]).id@),
        ensures
            at <= machines@.len(),
            machines@ == old(machines)@,
            forall|i: int| 0 <= i < at ==> !text_before(machine.id@, (#[trigger] machines@[i]).id@),
            at < machines@.len() ==> text_before(machine.id@, machines@[at as int].id@),
        decreases machines@.len() - at,
    {
        at = at + 1;
    }
    proof {
        lemma_spot(machines@, machine.id@, at as int);
    }
    machines.insert(at, machine);
}

fn add_line(lines: &mut Vec<String>, line: String)
    ensures
        ({
            let before = old(lines)@.map_values(|line: String| line@);
            final(lines)@.map_values(|line: String| line@) == before.insert(
                line_spot(before, line@),
                line@,
            )
        }),
{
    let ghost before = lines@.map_values(|line: String| line@);
    let mut at: usize = 0;
    while at < lines.len() && !text_is_before(line.as_str(), lines[at].as_str())
        invariant
            at <= lines@.len(),
            lines@ == old(lines)@,
            before == lines@.map_values(|line: String| line@),
            forall|i: int| 0 <= i < at ==> !text_before(line@, #[trigger] before[i]),
        ensures
            at <= lines@.len(),
            lines@ == old(lines)@,
            before == lines@.map_values(|line: String| line@),
            forall|i: int| 0 <= i < at ==> !text_before(line@, #[trigger] before[i]),
            at < lines@.len() ==> text_before(line@, before[at as int]),
        decreases lines@.len() - at,
    {
        assert(before[at as int] == lines@[at as int]@);
        at = at + 1;
    }
    proof {
        lemma_line_spot(before, line@, at as int);
    }
    lines.insert(at, line);
    assert(lines@.map_values(|line: String| line@) =~= before.insert(at as int, line@));
}

fn connection(peer: &Peer) -> (r: UiConnection)
    ensures
        r == connection_of(*peer),
{
    if !peer.connected {
        if peer.online {
            UiConnection::Connecting
        } else {
            UiConnection::Offline
        }
    } else if peer.degraded {
        UiConnection::Connecting
    } else {
        let rtt_us: u64 = match peer.rtt_us {
            Some(rtt) => rtt,
            None => 0,
        };
        if peer.direct {
            UiConnection::Direct { rtt_us }
        } else {
            UiConnection::Derp { rtt_us }
        }
    }
}

impl Engine {
    fn offset_of(&self, id: &MachineId) -> (r: Option<Vec2I>)
        ensures
            r == match placed(self@.places(), id@) {
                Some(p) => Some(p.offset),
                None => None,
            },
    {
        match &self.doc {
            Some(doc) => match find_place(&doc.machines, id) {
                Some(p) => Some(p.offset),
                None => None,
            },
            None => None,
        }
    }

    fn show_machine(&self, id: &MachineId, info: &Arc<MachineInfo>, connection: UiConnection) -> (r:
        UiMachine)
        ensures
            r == machine_shown(self@, *id, *info, connection),
    {
        UiMachine {
            id: id.clone(),
            info: info.clone(),
            offset: match self.offset_of(id) {
                Some(offset) => offset,
                None => Vec2I { x: 0, y: 0 },
            },
            enabled: self.machine_enabled(id),
            connection,
            is_source: self.owns_claim(id),
        }
    }

    fn show_peers(&self) -> (r: Vec<UiMachine>)
        ensures
            r@ == peers_shown(self@, self@.peers),
    {
        let mut out: Vec<UiMachine> = Vec::new();
        let ghost all = self.peers@;
        assert(all.take(0) =~= Seq::empty());
        for i in 0..self.peers.len()
            invariant
                all == self.peers@,
                out@ == peers_shown(self@, all.take(i as int)),
        {
            assert(all.take(i + 1).drop_last() =~= all.take(i as int));
            let peer = &self.peers[i];
            if let Some(info) = &peer.info {
                let shown = self.show_machine(&peer.id, info, connection(peer));
                add_machine(&mut out, shown);
            }
        }
        assert(all.take(all.len() as int) =~= all);
        out
    }

    fn is_present(&self, id: &MachineId) -> (r: bool)
        ensures
            r == present(self@, id@),
    {
        id.same(&self.me.id) || self.peer_usable(id)
    }

    fn show_edge(&self, link: &EdgeLink) -> (r: Option<UiEdge>)
        ensures
            r == edge_shown(self@, *link),
    {
        if !link.from.before(&link.to) {
            return None;
        }
        let Some(offset) = self.offset_of(&link.from) else {
            return None;
        };
        let (x, y) = (offset.x as i64, offset.y as i64);
        let (x1, y1, x2, y2) = if link.side.vertical() {
            let at: i64 = link.at as i64 + x;
            (at, link.from_range.0 as i64 + y, at, link.from_range.1 as i64 + y)
        } else {
            let at: i64 = link.at as i64 + y;
            (link.from_range.0 as i64 + x, at, link.from_range.1 as i64 + x, at)
        };
        let crossable: bool = self.machine_enabled(&link.from) && self.machine_enabled(&link.to)
            && self.is_present(&link.from) && self.is_present(&link.to);
        Some(UiEdge { a: link.from.clone(), b: link.to.clone(), x1, y1, x2, y2, crossable })
    }

    fn show_edges(&self) -> (r: Vec<UiEdge>)
        ensures
            r@ == edges_shown(self@, self@.geo_links),
    {
        let mut out: Vec<UiEdge> = Vec::new();
        let ghost all = self.geo_links@;
        assert(all.take(0) =~= Seq::empty());
        for i in 0..self.geo_links.len()
            invariant
                all == self.geo_links@,
                out@ == edges_shown(self@, all.take(i as int)),
        {
            assert(all.take(i + 1).drop_last() =~= all.take(i as int));
            if let Some(edge) = self.show_edge(&self.geo_links[i]) {
                out.push(edge);
            }
        }
        assert(all.take(all.len() as int) =~= all);
        out
    }

    fn show_trouble(&self) -> (r: Vec<String>)
        ensures
            r@.map_values(|line: String| line@) == trouble_lines(self@.peers),
    {
        let mut out: Vec<String> = Vec::new();
        let ghost all = self.peers@;
        assert(all.take(0) =~= Seq::empty());
        assert(out@.map_values(|line: String| line@) =~= Seq::empty());
        for i in 0..self.peers.len()
            invariant
                all == self.peers@,
                out@.map_values(|line: String| line@) == trouble_lines(all.take(i as int)),
        {
            assert(all.take(i + 1).drop_last() =~= all.take(i as int));
            let peer = &self.peers[i];
            if let Some(error) = &peer.error {
                let mut line: String = match &peer.hostname {
                    Some(name) => name.clone(),
                    None => peer.id.0.clone(),
                };
                line.append(": ");
                line.append(error.text().as_str());
                add_line(&mut out, line);
            }
        }
        assert(all.take(all.len() as int) =~= all);
        out
    }

    /// What is shown.
    pub fn build_ui(&self, around: Surroundings) -> (r: UiState)
        ensures
            shows(self@, around, r),
    {
        let mut machines: Vec<UiMachine> = Vec::new();
        machines.push(self.show_machine(&self.me.id, &self.me, UiConnection::SelfMachine));
        let mut peers = self.show_peers();
        machines.append(&mut peers);
        assert(machines@ =~= seq![
            machine_shown(self@, self@.me.id, self@.me, UiConnection::SelfMachine),
        ] + peers_shown(self@, self@.peers));
        UiState {
            self_id: self.me.id.clone(),
            machines,
            edges: self.show_edges(),
            source: match &self.claim {
                Some(stamp) => Some(stamp.writer.clone()),
                None => None,
            },
            focus: self.focus.clone(),
            crossing: match &self.crossing {
                Some(c) => Some(
                    UiCrossing {
                        from: c.link.from.clone(),
                        to: c.link.to.clone(),
                        progress: c.progress,
                        side: c.link.side,
                        position: c.pos,
                    },
                ),
                None => None,
            },
            input_settings: self.settings.clone(),
            input_error: clone_notice(&self.raw.error),
            raw_active: self.raw.active,
            preparing_input: match &self.raw.preparing {
                Some(id) => Some(id.clone()),
                None => None,
            },
            master_enabled: self.master_enabled,
            clipboard_sync: self.clipboard_sync,
            panic_chord: format_chord(&self.panic_chord),
            sensitivity: self.factors(),
            tailscale_error: clone_notice(&self.tailscale_error),
            config_error: clone_notice(&self.config_error),
            capture_error: clone_notice(&self.capture_error),
            connection_errors: self.show_trouble(),
            diagnostics: Diagnostics {
                peers: around.peers,
                export_path: match &self.export_path {
                    Some(path) => Some(path.clone()),
                    None => None,
                },
                export_error: clone_notice(&self.export_error),
            },
            health: match &self.health {
                Some(report) => Some(report.clone()),
                None => None,
            },
            backends: match &self.backend_status {
                Some(status) => Some(
                    BackendStatus { choice: status.choice, detail: status.detail.clone() },
                ),
                None => None,
            },
            updates: around.updates,
            restart_requested: self.restart_requested,
            build: around.build,
        }
    }
}

} // verus!
