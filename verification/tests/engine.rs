use splice_core::config::Config;
use splice_core::engine::clip::{answer, cut, tellable, Clip, ClipAct, ClipFrame};
use splice_core::engine::commands::{push_platform_event, Command, Event, PlatformEvent};
use splice_core::engine::notice::{just, Notice, Trouble};
use splice_core::engine::peers::{Node, PeerEvent, Status};
use splice_core::engine::raw::RawEvent;
use splice_core::engine::state::{
    Act, BackendStatus, Caps, Engine, Focus, Frame, LeaveReason, MachineInfo, Os, Place,
};
use splice_core::engine::view::{
    find_v4, format_chord, introduce, parse_os, SelfNode, Surroundings,
};
use splice_core::files::records::LocalSelection;
use splice_core::geometry::{DisplayRect, EdgeSide, Vec2, Vec2I, PIXEL};
use splice_core::input::InputEvent;
use splice_core::input_settings::InputSettings;
use splice_core::input_transport::socket::Ip;
use splice_core::layout::{EdgeLink, MachinePlacement};
use splice_core::machine::{MachineId, Stamp};
use std::sync::Arc;

fn machine(name: &str) -> MachineId {
    MachineId(name.into())
}

fn display() -> DisplayRect {
    DisplayRect { id: "1".into(), x: 0, y: 0, w: 1920, h: 1080, scale: 1000 }
}

fn at(x: i64, y: i64) -> Vec2 {
    Vec2 { x: x * PIXEL, y: y * PIXEL }
}

fn info(name: &str) -> MachineInfo {
    MachineInfo {
        id: machine(name),
        hostname: name.into(),
        os: Os::Linux,
        displays: vec![display()],
    }
}

fn fixture(name: &str) -> Engine {
    let settings = InputSettings::first_run(0).unwrap();
    let mut engine = Engine::new(Config::default(), settings, vec![display()], true, true);
    engine.me = Arc::new(info(name));
    engine
}

fn hello(name: &str) -> PeerEvent {
    PeerEvent::Connected {
        id: machine(name),
        hello: Arc::new(info(name)),
        caps: Caps { master: true, clipboard: true, files: true },
        ip: Some(Ip::V4(0x7f00_0001)),
    }
}

fn acts(engine: &mut Engine) -> Vec<Act> {
    std::mem::take(&mut engine.outbox)
}

fn is_local(engine: &Engine) -> bool {
    matches!(engine.focus, Focus::Local)
}

#[test]
fn a_late_socket_failure_cannot_release_a_reconnected_session() {
    let mut engine = fixture("b");
    let old_operation = engine.raw.operation;
    engine.raw.operation += 1;
    let peer = machine("a");
    engine.active_session = 1;
    engine.focus = Focus::Driven(peer.clone());
    engine.raw.active = true;
    let late = RawEvent::Ended {
        operation: old_operation,
        peer: peer.clone(),
        session: 1,
        error: just(Trouble::RawConnection),
    };
    engine.on_raw_event(late, 1);
    assert!(engine.raw.active);
    assert!(engine.focus.is_driven_by(&peer));
    assert!(engine.raw.error.is_none());
    assert!(acts(&mut engine).is_empty());
    let current = RawEvent::Ended {
        operation: engine.raw.operation,
        peer,
        session: 1,
        error: just(Trouble::RawConnection),
    };
    engine.on_raw_event(current, 2);
    assert!(is_local(&engine));
    assert!(!engine.raw.active);
    assert!(acts(&mut engine).iter().any(|act| matches!(act, Act::StopRaw { session: 1 })));
}

#[test]
fn a_replacement_control_connection_ends_both_desktop_roles() {
    for source in [true, false] {
        let mut engine = fixture("b");
        let peer = machine("a");
        engine.active_session = 1;
        let key = InputEvent::Key { code: 42, pressed: true };
        if source {
            engine.focus = Focus::Remote(peer.clone());
            engine.source.observe(&key);
        } else {
            engine.focus = Focus::Driven(peer.clone());
            engine.target.observe(&key);
        }
        engine.on_peer_event(hello("a"), 5);
        assert!(is_local(&engine));
        let acts = acts(&mut engine);
        if source {
            assert!(engine.source.presses().is_empty());
            assert!(acts.iter().any(|act| matches!(act, Act::EndCapture(_))));
        } else {
            assert!(engine.target.presses().is_empty());
            assert!(acts.iter().any(|act| matches!(act, Act::ReleaseAll)));
            assert!(acts.iter().any(|act| matches!(act, Act::Leave)));
        }
    }
}

#[test]
fn cancellation_and_panic_invalidate_uncommitted_preparation() {
    for frame in [Frame::Leave { session: 1, reason: LeaveReason::Crossed }, Frame::Panic] {
        let mut engine = fixture("b");
        let peer = machine("a");
        engine.raw.pending_target = Some((peer.clone(), 1));
        let operation = engine.raw.operation;
        engine.on_frame(peer.clone(), frame, 1);
        assert!(engine.raw.pending_target.is_none());
        let prepared = RawEvent::Prepared {
            operation,
            peer,
            session: 1,
            pos: at(1, 1),
            result: Err(Notice {
                what: Trouble::Said,
                detail: Some("late preparation result".into()),
            }),
        };
        engine.on_raw_event(prepared, 2);
        assert!(engine.raw.error.is_none());
        assert!(is_local(&engine));
        let acts = acts(&mut engine);
        assert!(!acts.iter().any(|act| matches!(act, Act::Enter(_) | Act::BeginRaw { .. })));
    }
}

fn boundary_fixture(focus_lock: bool) -> (Engine, MachineId) {
    let mut engine = fixture("b");
    let source = machine("a");
    engine.focus = Focus::Remote(source.clone());
    engine.raw.active = true;
    engine.active_session = 1;
    let mut settings = InputSettings::first_run(0).unwrap();
    settings.focus_lock = focus_lock;
    engine.settings = Arc::new(settings);
    engine.links = vec![EdgeLink {
        from: source.clone(),
        to: machine("b"),
        side: EdgeSide::Right,
        at: 1920,
        from_range: (0, 1080),
        to_range: (0, 1080),
        to_at: 0,
    }];
    (engine, source)
}

fn capture_ends(acts: &[Act]) -> usize {
    acts.iter().filter(|act| matches!(act, Act::EndCapture(_))).count()
}

#[test]
fn a_valid_raw_boundary_crossing_returns_control_home() {
    let (mut engine, source) = boundary_fixture(false);
    engine.cross_raw_boundary(&source, 1, machine("b"), Some(at(1920, 500)), 1);
    assert!(is_local(&engine));
    assert_eq!(capture_ends(&acts(&mut engine)), 1);
    assert!(!engine.raw.active);
}

#[test]
fn rejected_raw_boundary_crossings_keep_the_session() {
    for (focus_lock, session, pos) in [
        (true, 1, Some(at(1920, 500))),
        (false, 2, Some(at(1920, 500))),
        (false, 1, None),
        (false, 1, Some(at(1920, 4))),
        (false, 1, Some(at(1920, 1076))),
    ] {
        let (mut engine, source) = boundary_fixture(focus_lock);
        engine.cross_raw_boundary(&source, session, machine("b"), pos, 1);
        assert!(engine.focus.is_on(&source));
        assert!(engine.raw.active);
        assert_eq!(capture_ends(&acts(&mut engine)), 0);
    }
}

#[test]
fn an_unknown_boundary_target_keeps_the_session() {
    let (mut engine, source) = boundary_fixture(false);
    engine.cross_raw_boundary(&source, 1, machine("c"), Some(at(1920, 500)), 1);
    assert!(engine.focus.is_on(&source));
    assert_eq!(capture_ends(&acts(&mut engine)), 0);
}

fn arrange(engine: &mut Engine, offsets: &[(&str, i32)], now: u64) {
    let moves = offsets
        .iter()
        .map(|(name, x)| Place {
            id: machine(name),
            placement: MachinePlacement { offset: Vec2I { x: *x, y: 0 }, enabled: true },
        })
        .collect();
    engine.step(Event::Command(Command::SetArrangement(moves)), now);
}

/// A machine `a` with a connected machine `b` to its right.
fn pair() -> Engine {
    let mut engine = fixture("a");
    engine.begin(0);
    engine.open.push(machine("b"));
    engine.step(Event::Peer(hello("b")), 1);
    arrange(&mut engine, &[("a", 0), ("b", 1920)], 2);
    engine
}

#[test]
fn a_pointer_crosses_to_a_machine_and_back() {
    let mut engine = pair();
    assert_eq!(engine.links.len(), 2);
    let edges = acts(&mut engine);
    assert!(edges.iter().any(|act| matches!(act, Act::SetEdges(specs) if specs.len() == 1)));
    let hit = PlatformEvent::EdgeHit { edge: 0, along: 500 * PIXEL };
    engine.step(Event::Platform(hit), 2_000_000);
    let crossing = acts(&mut engine);
    assert!(crossing.iter().any(|act| matches!(
        act,
        Act::Send { frame: Frame::Enter { .. }, .. }
    )));
    assert!(matches!(crossing.last(), Some(Act::BeginCapture)));
    engine.step(Event::Answer(Ok(())), 2_000_001);
    assert!(engine.focus.is_on(&machine("b")));
    acts(&mut engine);
    let key = InputEvent::Key { code: 30, pressed: true };
    engine.step(Event::Platform(PlatformEvent::Input(key)), 2_000_002);
    assert!(acts(&mut engine).iter().any(|act| matches!(
        act,
        Act::Send { frame: Frame::Input { event: InputEvent::Key { code: 30, .. }, .. }, .. }
    )));
    let back = InputEvent::Motion { dx: -40 * PIXEL, dy: 0 };
    engine.step(Event::Platform(PlatformEvent::Input(back)), 2_000_003);
    assert!(is_local(&engine));
    let acts = acts(&mut engine);
    assert!(acts.iter().any(|act| matches!(
        act,
        Act::Send {
            frame: Frame::Input { event: InputEvent::Key { code: 30, pressed: false }, .. },
            ..
        }
    )));
    assert_eq!(capture_ends(&acts), 1);
}

#[test]
fn a_panic_ends_everything() {
    let mut engine = pair();
    engine.step(Event::Platform(PlatformEvent::EdgeHit { edge: 0, along: 500 * PIXEL }), 2_000_000);
    engine.step(Event::Answer(Ok(())), 2_000_001);
    assert!(engine.focus.is_on(&machine("b")));
    acts(&mut engine);
    engine.step(Event::Command(Command::Panic), 2_000_002);
    assert!(is_local(&engine));
    assert!(acts(&mut engine).iter().any(|act| matches!(act, Act::Broadcast(Frame::Panic))));
}

#[test]
fn a_machine_is_driven_only_by_the_source() {
    let mut engine = pair();
    acts(&mut engine);
    let enter = |session| PeerEvent::Frame {
        from: machine("b"),
        frame: Frame::Enter { session, pos: at(10, 10) },
    };
    engine.step(Event::Peer(enter(4)), 10);
    assert!(is_local(&engine));
    assert!(acts(&mut engine).iter().any(|act| matches!(
        act,
        Act::Send { frame: Frame::Leave { session: 4, .. }, .. }
    )));
    let claim = Frame::SourceClaim(Stamp { lamport: 100, writer: machine("b") });
    engine.step(Event::Peer(PeerEvent::Frame { from: machine("b"), frame: claim }), 11);
    engine.step(Event::Peer(enter(5)), 12);
    assert!(acts(&mut engine).iter().any(|act| matches!(act, Act::Enter(_))));
    engine.step(Event::Answer(Ok(())), 13);
    assert!(engine.focus.is_driven_by(&machine("b")));
    let late = Frame::Input { session: 4, event: InputEvent::Key { code: 30, pressed: true } };
    engine.step(Event::Peer(PeerEvent::Frame { from: machine("b"), frame: late }), 14);
    assert!(!acts(&mut engine).iter().any(|act| matches!(act, Act::Inject(_))));
    let current = Frame::Input { session: 5, event: InputEvent::Key { code: 30, pressed: true } };
    engine.step(Event::Peer(PeerEvent::Frame { from: machine("b"), frame: current }), 15);
    assert!(acts(&mut engine).iter().any(|act| matches!(act, Act::Inject(_))));
    let gone = PeerEvent::Disconnected { id: machine("b"), reason: just(Trouble::Unavailable) };
    engine.step(Event::Peer(gone), 16);
    assert!(is_local(&engine));
    assert!(acts(&mut engine).iter().any(|act| matches!(act, Act::ReleaseAll)));
}

fn around() -> Surroundings {
    Surroundings {
        peers: Arc::new(Vec::new()),
        updates: Arc::new("idle".into()),
        build: Arc::new("1.2".into()),
    }
}

#[test]
fn reports_are_shown_as_they_are_given() {
    let mut engine = pair();
    let ui = engine.build_ui(around());
    assert_eq!((ui.updates.as_str(), ui.build.as_str()), ("idle", "1.2"));
    assert!(ui.health.is_none() && ui.backends.is_none() && !ui.restart_requested);
    assert!(ui.diagnostics.export_path.is_none());
    let health = PlatformEvent::Health {
        report: Arc::new("fine".into()),
        capture: Some(just(Trouble::Unavailable)),
    };
    engine.step(Event::Platform(health), 20);
    let status = BackendStatus { choice: 1, detail: Arc::new("native".into()) };
    engine.step(Event::Platform(PlatformEvent::Backends(status)), 21);
    acts(&mut engine);
    engine.step(Event::Command(Command::SetBackends(2)), 22);
    let asked = acts(&mut engine);
    assert!(asked.iter().any(|act| matches!(act, Act::SetBackends(2))));
    engine.step(Event::Command(Command::Update { machine: machine("b"), action: 7 }), 23);
    let asked = acts(&mut engine);
    assert!(asked.iter().any(|act| matches!(act, Act::Update { action: 7, .. })));
    engine.step(Event::Exported(Ok(Arc::new("/tmp/report.json".into()))), 24);
    engine.step(Event::Exported(Err(just(Trouble::Unavailable))), 25);
    engine.step(Event::Polled { restart: true }, 26);
    let ui = engine.build_ui(around());
    assert_eq!(ui.health.as_deref().map(String::as_str), Some("fine"));
    assert!(ui.capture_error.is_some());
    let shown = ui.backends.unwrap();
    assert_eq!((shown.choice, shown.detail.as_str()), (2, "native"));
    let path = ui.diagnostics.export_path.as_deref().map(String::as_str);
    assert_eq!(path, Some("/tmp/report.json"));
    assert!(ui.diagnostics.export_error.is_some());
    assert!(ui.restart_requested);
}

#[test]
fn what_is_shown_follows_what_is_known() {
    let mut engine = pair();
    let ui = engine.build_ui(around());
    assert_eq!(ui.self_id, machine("a"));
    assert_eq!(ui.machines.len(), 2);
    assert!(!ui.edges.is_empty());
    assert!(ui.edges.iter().all(|edge| edge.crossable));
    let off = Command::SetMachineEnabled(machine("b"), false);
    engine.step(Event::Command(off), 10);
    assert!(engine.links.is_empty());
    let ui = engine.build_ui(around());
    assert!(ui.edges.iter().all(|edge| !edge.crossable));
}

#[test]
fn machines_of_the_same_owner_are_dialled() {
    let mut engine = fixture("a");
    engine.begin(0);
    acts(&mut engine);
    let node = |name: &str, online, user| Node {
        id: machine(name),
        hostname: name.into(),
        online,
        user,
        direct: true,
        ip: Some(Ip::V4(1)),
    };
    let nodes = vec![
        node("a", true, 7),
        node("b", true, 7),
        node("c", false, 7),
        node("d", true, 8),
    ];
    engine.step(Event::Discovered(Ok(Status { user: 7, nodes })), 1);
    let dialled = acts(&mut engine);
    assert!(dialled.iter().any(|act| matches!(
        act,
        Act::Dial(targets) if targets.len() == 1 && targets[0].id == machine("b")
    )));
}

#[test]
fn motion_in_a_row_is_joined() {
    let mut events = vec![];
    let motion = |dx, dy| PlatformEvent::Input(InputEvent::Motion { dx, dy });
    push_platform_event(&mut events, motion(1, 2));
    push_platform_event(&mut events, motion(3, 4));
    let key = InputEvent::Key { code: 30, pressed: true };
    push_platform_event(&mut events, PlatformEvent::Input(key));
    push_platform_event(&mut events, motion(5, 6));
    assert_eq!(events.len(), 3);
    assert!(matches!(
        events[0],
        PlatformEvent::Input(InputEvent::Motion { dx: 4, dy: 6 })
    ));
}

#[test]
fn a_machine_introduces_itself_by_its_network() {
    let node = SelfNode {
        id: machine("me"),
        hostname: String::new(),
        dns_name: "desk.tail.net.".into(),
        os: "macOS".into(),
        ips: vec![Ip::V6(1), Ip::V4(2), Ip::V4(3)],
    };
    let (info, ip) = introduce(&node, vec![]).unwrap();
    assert_eq!(info.hostname, "desk.tail.net");
    assert_eq!(info.os, Os::Macos);
    assert_eq!(ip, Ip::V4(2));
    assert_eq!(find_v4(&vec![Ip::V6(1)]), None);
    assert_eq!(parse_os("LINUX"), Os::Linux);
    assert_eq!(parse_os("windows"), Os::Other);
    assert!(format_chord(&vec![42, 54, 1]).contains('+'));
}

fn text(value: &str) -> Option<String> {
    Some(value.into())
}

fn mimes(names: &[&str]) -> Arc<Vec<String>> {
    Arc::new(names.iter().map(|name| name.to_string()).collect())
}

fn told(clip: &mut Clip) -> Vec<ClipAct> {
    std::mem::take(&mut clip.outbox)
}

#[test]
fn what_came_from_another_clipboard_is_not_offered_again() {
    let engine = pair();
    let mut clip = Clip::new();
    clip.on_clipboard_changed(&engine, mimes(&["text/plain"]), text("here"));
    assert!(matches!(
        &told(&mut clip)[..],
        [ClipAct::Broadcast(ClipFrame::Offer { id: 1, stamp, .. })] if stamp.lamport == 1
    ));
    let offer = |lamport| ClipFrame::Offer {
        id: 9,
        stamp: Stamp { lamport, writer: machine("b") },
        mimes: mimes(&["text/plain"]),
        inline_text: text("there"),
    };
    clip.on_frame(&engine, machine("b"), offer(5), None);
    assert!(matches!(&told(&mut clip)[..], [ClipAct::Show { .. }]));
    clip.on_clipboard_changed(&engine, mimes(&["text/plain"]), text("there"));
    assert!(told(&mut clip).is_empty());
    clip.on_frame(&engine, machine("b"), offer(5), None);
    clip.on_frame(&engine, machine("b"), offer(4), None);
    assert!(told(&mut clip).is_empty());
    clip.on_clipboard_changed(&engine, mimes(&["text/plain"]), text("other"));
    assert!(matches!(
        &told(&mut clip)[..],
        [ClipAct::Broadcast(ClipFrame::Offer { id: 2, stamp, .. })] if stamp.lamport == 6
    ));
}

#[test]
fn contents_are_read_for_live_offers_and_not_too_often() {
    let engine = pair();
    let mut clip = Clip::new();
    let request = |id, mime: &str| ClipFrame::Request { id, request: 3, mime: mime.into() };
    clip.on_frame(&engine, machine("b"), request(1, "text/plain"), None);
    assert!(matches!(
        &told(&mut clip)[..],
        [ClipAct::Send { frame: ClipFrame::Abort { request: 3, reason }, .. }]
            if reason.what == Trouble::ClipboardGone
    ));
    clip.on_clipboard_changed(&engine, mimes(&["text/plain"]), None);
    told(&mut clip);
    for _ in 0..8 {
        clip.on_frame(&engine, machine("b"), request(1, "text/plain"), None);
    }
    assert_eq!(clip.reads, 8);
    assert_eq!(told(&mut clip).len(), 8);
    clip.on_frame(&engine, machine("b"), request(1, "text/plain"), None);
    assert!(matches!(
        &told(&mut clip)[..],
        [ClipAct::Send { frame: ClipFrame::Abort { reason, .. }, .. }]
            if reason.what == Trouble::ClipboardBusy
    ));
    clip.read_done();
    assert_eq!(clip.reads, 7);
    clip.stop();
    assert_eq!(clip.reads, 0);
    assert!(clip.live_offer.is_none());
}

#[test]
fn contents_are_sent_in_pieces() {
    let pieces = cut(&vec![1, 2, 3, 4, 5], 2);
    let shape: Vec<(Vec<u8>, bool)> =
        pieces.into_iter().map(|piece| (piece.data, piece.last)).collect();
    assert_eq!(shape, vec![(vec![1, 2], false), (vec![3, 4], false), (vec![5], true)]);
    let empty = cut(&vec![], 2);
    assert_eq!(empty.len(), 1);
    assert!(empty[0].last && empty[0].data.is_empty());
    let even = answer(7, Ok(vec![1, 2, 3, 4]), 2);
    assert!(matches!(
        &even[..],
        [
            ClipFrame::Chunk { request: 7, last: false, .. },
            ClipFrame::Chunk { request: 7, last: true, .. }
        ]
    ));
    let failed = answer(7, Err(just(Trouble::ClipboardTimeout)), 2);
    assert!(matches!(&failed[..], [ClipFrame::Abort { request: 7, .. }]));
    assert!(tellable(&vec!["text/plain".into()], &text("short")));
    assert!(!tellable(&vec!["x".repeat(257)], &None));
    assert!(!tellable(&vec!["x".into(); 65], &None));
}

#[test]
fn what_is_fetched_arrives_or_is_given_up() {
    let engine = pair();
    let mut clip = Clip::new();
    let offer = ClipFrame::Offer {
        id: 9,
        stamp: Stamp { lamport: 5, writer: machine("b") },
        mimes: mimes(&["text/plain"]),
        inline_text: None,
    };
    clip.on_frame(&engine, machine("b"), offer, None);
    let shown = told(&mut clip);
    let [ClipAct::Show { fetch, .. }] = &shown[..] else { panic!("nothing shown") };
    let mime = "text/plain".to_string();
    let first = clip.fetches.begin(fetch, &mime).unwrap();
    let second = clip.fetches.begin(fetch, &mime).unwrap();
    let chunk = |request, data: &[u8], last| ClipFrame::Chunk { request, data: data.to_vec(), last };
    clip.on_frame(&engine, machine("b"), chunk(first, b"ab", false), None);
    clip.on_frame(&engine, machine("c"), chunk(first, b"x", true), None);
    assert!(told(&mut clip).is_empty());
    clip.on_frame(&engine, machine("b"), chunk(first, b"c", true), None);
    assert!(matches!(
        &told(&mut clip)[..],
        [ClipAct::Fetched { bytes, .. }] if bytes == b"abc"
    ));
    let abort = ClipFrame::Abort { request: second, reason: just(Trouble::ClipboardGone) };
    clip.on_frame(&engine, machine("b"), abort, None);
    assert!(matches!(&told(&mut clip)[..], [ClipAct::Unfetched { .. }]));
    clip.forget(&machine("b"));
    assert_eq!(clip.fetches.begin(fetch, &mime), None);
}

#[test]
fn files_follow_the_pointer_once() {
    let mut engine = pair();
    engine.claim_source(5);
    acts(&mut engine);
    let mut clip = Clip::new();
    clip.files_enabled = true;
    let selection = Arc::new(LocalSelection::paths(vec!["/selected".to_string()]));
    clip.local_file_clipboard(&engine, selection.clone(), 3, None);
    let first = told(&mut clip);
    assert!(matches!(first[0], ClipAct::CaptureFiles { generation: 3, .. }));
    assert!(matches!(
        first[1],
        ClipAct::Send { frame: ClipFrame::FileRef { generation: 3, .. }, .. }
    ));
    engine.focus = Focus::Remote(machine("b"));
    clip.route_file_clipboard(&engine);
    assert!(matches!(
        &told(&mut clip)[..],
        [ClipAct::RouteFiles { generation: 3, recipient }] if *recipient == machine("b")
    ));
    clip.route_file_clipboard(&engine);
    assert!(told(&mut clip).is_empty());
    clip.local_file_clipboard(&engine, selection, 4, Some(1));
    assert_eq!(clip.error.as_ref().unwrap().what, Trouble::OrderedBridge);
    told(&mut clip);
    let stamp = Stamp { lamport: 50, writer: machine("b") };
    let reference = ClipFrame::FileRef { stamp, generation: 8 };
    clip.on_frame(&engine, machine("b"), reference, Some(2));
    assert_eq!(clip.file.as_ref().unwrap().generation, 8);
    assert!(told(&mut clip).iter().any(|act| matches!(act, ClipAct::ClearFiles)));
}

#[test]
fn every_machine_repairs_alike() {
    let mut here = fixture("a");
    here.on_peer_event(hello("b"), 1);
    let mut there = fixture("b");
    there.on_peer_event(hello("a"), 1);
    let places = || {
        ["a", "b"]
            .iter()
            .map(|name| Place {
                id: machine(name),
                placement: MachinePlacement {
                    offset: Vec2I { x: if *name == "a" { 0 } else { 1500 }, y: 0 },
                    enabled: true,
                },
            })
            .collect::<Vec<Place>>()
    };
    let mut one = places();
    let mut other = places();
    assert!(here.settle_layout(&mut one));
    assert!(there.settle_layout(&mut other));
    let offsets =
        |all: &[Place]| all.iter().map(|place| place.placement.offset.x).collect::<Vec<i32>>();
    assert_eq!(offsets(&one), offsets(&other));
    assert_eq!(offsets(&one), vec![0, 1920]);
    assert!(!here.settle_layout(&mut one));
}

#[test]
fn barriers_stay_where_the_machines_stand() {
    let mut engine = pair();
    let edges = |engine: &mut Engine| {
        engine.recompute(50);
        match acts(engine).pop() {
            Some(Act::SetEdges(edges)) => edges.len(),
            _ => unreachable!(),
        }
    };
    assert_eq!(edges(&mut engine), 1);
    let armed = engine.armed.len();
    assert_eq!(engine.links.len(), 2);
    engine.on_peer_event(PeerEvent::Degraded(machine("b")), 51);
    assert_eq!(edges(&mut engine), 1);
    assert_eq!(engine.armed.len(), armed);
    assert!(engine.links.is_empty());
}

#[test]
fn a_refused_edge_hands_the_pointer_back() {
    let mut engine = pair();
    acts(&mut engine);
    engine.begin_edge(7, 0, false, 60);
    assert!(matches!(acts(&mut engine)[..], [Act::EndCapture(None)]));
    engine.master_enabled = false;
    engine.begin_edge(0, 500 * PIXEL, false, 61);
    assert!(matches!(acts(&mut engine)[..], [Act::EndCapture(Some(_))]));
    assert!(is_local(&engine));
}
