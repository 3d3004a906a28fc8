//! What people ask for, what this machine's own devices do, and the answers that come back.

use super::board::{machine_switched, rearranged, recomputed, repaired, sped};
use super::notice::{about, with_detail, Notice, Trouble};
use super::peers::{discovered, peer_happened, sane_frame, PeerEvent, Status};
use super::raw::RawEvent;
use super::state::{
    Act, Awaiting, BackendStatus, Engine, Factor, Focus, Frame, LeaveReason, MachineInfo, Mind,
    Place, RawState, LATEST,
};
use crate::geometry::POINT_REACH;
use crate::input::InputEvent;
use crate::input_settings::{CrossingPolicy, InputSettings};
use crate::machine::MachineId;
use std::sync::Arc;
use vstd::prelude::*;

verus! {

/// What people ask for.
#[derive(Debug)]
pub enum Command {
    SetInputSettings(Arc<InputSettings>),
    SelectTarget(MachineId),
    /// Has a machine updated; `action` is the updater's own.
    Update { machine: MachineId, action: u64 },
    ExportDiagnostics,
    SetMasterEnabled(bool),
    SetMachineEnabled(MachineId, bool),
    /// Puts machines somewhere, all at once.
    SetArrangement(Vec<Place>),
    SetSensitivity(Factor),
    SetClipboardSync(bool),
    SetBackends(u64),
    Panic,
    Refresh,
}

/// What this machine's own devices do.
#[derive(Debug)]
pub enum PlatformEvent {
    EdgeMotion { edge: u32, along: i64, dx: i64, dy: i64 },
    EdgeLeft,
    EdgeHit { edge: u32, along: i64 },
    Input(InputEvent),
    Broken,
    Panic,
    SwitchTarget,
    RawCaptureFailed { operation: u64, notice: Notice },
    RawError(Notice),
    RawBoundary { session: u64, edge: u32, along: i64 },
    PhysicalActivity,
    DisplaysChanged(Arc<MachineInfo>),
    /// How the devices are, in the platform's own words, and what is wrong with capturing.
    Health { report: Arc<String>, capture: Option<Notice> },
    /// Which implementations capture and inject now.
    Backends(BackendStatus),
}

/// Everything that can happen.
#[derive(Debug)]
pub enum Event {
    Tick,
    Raw(RawEvent),
    Command(Command),
    Platform(PlatformEvent),
    Peer(PeerEvent),
    Discovered(Result<Status, Notice>),
    /// The answer to what was awaited.
    Answer(Result<(), Notice>),
    InjectionFailed { from: MachineId, session: u64 },
    EdgesFailed(Notice),
    RawReleaseFailed(Notice),
    ConfigSaved(Result<(), Notice>),
    /// Where the diagnostics were written.
    Exported(Result<Arc<String>, Notice>),
    /// Updates were looked after; one may ask for a restart.
    Polled { restart: bool },
}

impl Mind {
    /// The peers in their order are told whether this machine takes part.
    pub open spec fn all_told(self, n: nat) -> Mind
        decreases n,
    {
        if n == 0 {
            self
        } else {
            let before = self.all_told((n - 1) as nat);
            before.master_told(self.peers[n - 1].id)
        }
    }

    pub open spec fn master_set(self, on: bool, now: u64) -> Mind {
        let set = Mind { master_enabled: on, ..self }.dirty(now);
        let told = set.all_told(self.peers.len());
        if on {
            told.touched(now)
        } else {
            let free = Mind { crossing: None, ..told };
            let quiet = if self.raw.pending_target is Some {
                free.stopped_raw()
            } else {
                free
            };
            match self.focus {
                Focus::Remote(target) => quiet.remote_ended(
                    target,
                    LeaveReason::Reconfigured,
                    Some(self.last_local),
                    true,
                    now,
                ),
                Focus::Driven(source) => quiet.driven_ended(
                    source,
                    Some(LeaveReason::Reconfigured),
                    now,
                ),
                Focus::Local => quiet,
            }.touched(now)
        }
    }

    /// Settings of input were written, or could not be.
    pub open spec fn settings_saved(
        self,
        result: Result<(), Notice>,
        settings: Arc<InputSettings>,
        now: u64,
    ) -> Mind {
        match result {
            Err(cause) => self.raw_trouble(with_detail(Trouble::InputSettings, cause)).touched(now),
            Ok(_) => {
                let free = match self.focus {
                    Focus::Remote(target) => self.remote_ended(
                        target,
                        LeaveReason::Reconfigured,
                        Some(self.last_local),
                        true,
                        now,
                    ),
                    _ => self,
                };
                Mind {
                    edge_dwell_ms: match settings.crossing {
                        CrossingPolicy::Dwell { milliseconds } => milliseconds,
                        _ => 0,
                    },
                    settings,
                    raw: RawState { error: None, ..free.raw },
                    ..free.dirty(now)
                }.touched(now)
            },
        }
    }

    /// Someone uses this machine's own devices.
    pub open spec fn used(self, now: u64) -> Mind {
        if !self.master_enabled || !self.enabled(self.me.id@) {
            self
        } else {
            let claimed = self.claiming(now);
            let free = match self.focus {
                Focus::Driven(source) => claimed.driven_ended(
                    source,
                    Some(LeaveReason::SourceChanged),
                    now,
                ),
                _ => claimed,
            };
            Mind { grace_until: None, ..free }
        }
    }

    /// This machine's displays changed.
    pub open spec fn redisplayed(self, info: Arc<MachineInfo>) -> Mind {
        Mind { me: info, ..self }.doing(Act::UpdateSelf(info))
    }

    /// The pointer leaves a capture edge.
    pub open spec fn edge_left(self, now: u64) -> Mind {
        let eased = if self.crossing matches Some(c) && c.local_edge is Some {
            Mind { crossing: None, ..self }.touched(now)
        } else {
            self
        };
        match self.focus {
            Focus::Remote(target) => if self.raw.preparing is Some && self.raw.edge is Some {
                eased.remote_ended(target, LeaveReason::Crossed, None, true, now)
            } else {
                eased
            },
            _ => eased,
        }
    }

    /// Capturing input broke down.
    pub open spec fn broken(self, now: u64) -> Mind {
        match self.focus {
            Focus::Remote(target) => self.remote_ended(
                target,
                LeaveReason::CaptureLost,
                None,
                true,
                now,
            ),
            _ => self,
        }
    }

    /// The capture edges could not be set.
    pub open spec fn edges_lost(self, notice: Notice, now: u64) -> Mind {
        let noted = Mind { capture_error: Some(notice), ..self };
        match self.focus {
            Focus::Remote(target) => noted.remote_ended(
                target,
                LeaveReason::CaptureLost,
                Some(self.last_local),
                true,
                now,
            ),
            _ => noted,
        }.touched(now)
    }

    /// Raw input could not be released; that is forgotten once raw input begins anew.
    pub open spec fn release_lost(self, notice: Notice, now: u64) -> Mind {
        if self.raw.preparing is Some {
            self
        } else {
            self.raw_trouble(with_detail(Trouble::RawRelease, notice)).touched(now)
        }
    }

    /// The settings were written, or could not be: then it is tried again.
    pub open spec fn config_saved(self, result: Result<(), Notice>, now: u64) -> Mind {
        match result {
            Ok(_) => Mind { config_error: None, ..self }.touched(now),
            Err(cause) => Mind {
                config_error: Some(with_detail(Trouble::ConfigSave, cause)),
                cfg_deadline: Some((now + SAVE_AGAIN) as u64),
                ..self
            }.touched(now),
        }
    }

    pub open spec fn exported(self, result: Result<Arc<String>, Notice>, now: u64) -> Mind {
        match result {
            Ok(path) => Mind { export_path: Some(path), export_error: None, ..self },
            Err(cause) => Mind {
                export_error: Some(with_detail(Trouble::Export, cause)),
                ..self
            },
        }.touched(now)
    }

    /// Updates were looked after: where one asks for a restart the engine is about to end.
    pub open spec fn polled(self, restart: bool, now: u64) -> Mind {
        if restart {
            Mind { restart_requested: true, ..self }
        } else {
            self.touched(now)
        }
    }

    /// Other implementations are to capture and inject.
    pub open spec fn backed_by(self, choice: u64, now: u64) -> Mind {
        Mind {
            backends: choice,
            backend_status: match self.backend_status {
                Some(status) => Some(BackendStatus { choice, ..status }),
                None => None,
            },
            ..self
        }.doing(Act::SaveConfig).doing(Act::SetBackends(choice)).touched(now)
    }

    /// What was awaited is answered.
    pub open spec fn answered(self, result: Result<(), Notice>, now: u64) -> Mind {
        let free = Mind { awaiting: None, ..self };
        match self.awaiting {
            None => self,
            Some(Awaiting::Capture { target, pos, held }) => free.captured(
                result,
                target,
                pos,
                held,
                now,
            ),
            Some(Awaiting::Enter { source, session }) => free.entered(
                result,
                source,
                session,
                now,
            ),
            Some(Awaiting::RawCapture { target, pos, edge }) => free.raw_capturable(
                result,
                target,
                pos,
                edge,
                now,
            ),
            Some(Awaiting::RawBegin { source, session, pos, port, ticket }) => free.raw_begun(
                result,
                source,
                session,
                pos,
                port,
                ticket,
                now,
            ),
            Some(Awaiting::RawArm { source, session, pos, port, ticket }) => free.raw_armed(
                result,
                source,
                session,
                pos,
                port,
                ticket,
                now,
            ),
            Some(Awaiting::RawPlace { source, session, port, ticket }) => free.raw_placed(
                result,
                source,
                session,
                port,
                ticket,
                now,
            ),
            Some(Awaiting::RawSend { target, session }) => free.raw_sending(
                result,
                target,
                session,
                now,
            ),
            Some(Awaiting::RawPolicy { source }) => free.boundary_set(result, source, now),
            Some(Awaiting::Settings(settings)) => free.settings_saved(result, settings, now),
        }
    }
}

/// Microseconds until the settings are written again after that failed.
pub const SAVE_AGAIN: u64 = 5_000_000;

/// What comes of a command.
pub open spec fn commanded(before: Mind, command: Command, now: u64, after: Mind) -> bool {
    match command {
        Command::SetInputSettings(settings) => after == (Mind {
            crossing: None,
            awaiting: Some(Awaiting::Settings(settings)),
            ..before
        }).doing(Act::SaveSettings(settings)),
        Command::SelectTarget(target) => after == before.selected(target, now),
        Command::Update { machine, action } => after == before.doing(
            Act::Update { machine, action },
        ).touched(now),
        Command::ExportDiagnostics => after == before.doing(Act::Export).touched(now),
        Command::SetMasterEnabled(on) => after == before.master_set(on, now),
        Command::SetMachineEnabled(id, enabled) => machine_switched(
            before,
            id,
            enabled,
            now,
            after,
        ),
        Command::SetArrangement(moves) => rearranged(before, moves@, now, after),
        Command::SetSensitivity(factor) => sped(before, factor, now, after),
        Command::SetClipboardSync(on) => {
            let set = Mind { clipboard_sync: on, ..before };
            let cleared = if on {
                set
            } else {
                set.doing(Act::StopClipboard)
            };
            after == cleared.dirty(now).touched(now)
        },
        Command::SetBackends(choice) => after == before.backed_by(choice, now),
        Command::Panic => after == before.panicked(now),
        Command::Refresh => after == before.doing(Act::Discover),
    }
}

/// What comes of something that this machine's devices do.
pub open spec fn platform_happened(before: Mind, event: PlatformEvent, now: u64, after: Mind) -> bool {
    match event {
        PlatformEvent::EdgeMotion { edge, along, dx, dy } => after == before.edge_moved(
            edge,
            along,
            dx,
            dy,
            now,
        ),
        PlatformEvent::EdgeLeft => after == before.edge_left(now),
        PlatformEvent::EdgeHit { edge, along } => after == before.edge_begun(
            edge,
            along,
            false,
            now,
        ),
        PlatformEvent::Input(input) => after == before.input_captured(input, now),
        PlatformEvent::Broken => after == before.broken(now),
        PlatformEvent::Panic => after == before.panicked(now),
        PlatformEvent::SwitchTarget => after == before.switched(now),
        PlatformEvent::RawCaptureFailed { operation, notice } => after == if operation
            == before.raw.operation {
            before.raw_failed(notice, now)
        } else {
            before
        },
        PlatformEvent::RawError(notice) => after == before.raw_failed(notice, now),
        PlatformEvent::RawBoundary { session, edge, along } => after == before.boundary_hit(
            session,
            edge,
            along,
        ),
        PlatformEvent::PhysicalActivity => after == before.used(now),
        PlatformEvent::DisplaysChanged(info) => exists|fixed: Mind| #[trigger]
            repaired(before.redisplayed(info), now, fixed) && after == fixed.touched(now),
        PlatformEvent::Health { report, capture } => after == (Mind {
            health: Some(report),
            capture_error: capture,
            ..before
        }).touched(now),
        PlatformEvent::Backends(status) => after == (Mind {
            backend_status: Some(status),
            ..before
        }).touched(now),
    }
}

/// The links have to be worked out anew after an event.
pub open spec fn relinks(event: Event) -> bool {
    match event {
        Event::Command(_) | Event::Discovered(_) => true,
        Event::Platform(PlatformEvent::DisplaysChanged(_)) => true,
        Event::Peer(event) => match event {
            PeerEvent::Connected { .. } | PeerEvent::Degraded(_) | PeerEvent::Healthy { .. }
            | PeerEvent::Disconnected { .. } => true,
            PeerEvent::Frame { frame, .. } => frame is LayoutSync || frame is MachineUpdate
                || frame is MasterState,
            _ => false,
        },
        _ => false,
    }
}

/// What comes of an event, before the links are worked out.
pub open spec fn happened(before: Mind, event: Event, now: u64, after: Mind) -> bool {
    match event {
        Event::Tick => after == before.edge_ticked(now),
        Event::Raw(event) => after == before.raw_happened(event, now),
        Event::Command(command) => commanded(before, command, now, after),
        Event::Platform(event) => platform_happened(before, event, now, after),
        Event::Peer(event) => peer_happened(before, event, now, after),
        Event::Discovered(status) => discovered(before, status, now, after),
        Event::Answer(result) => after == before.answered(result, now),
        Event::InjectionFailed { from, session } => after == before.injection_lost(
            from,
            session,
            now,
        ),
        Event::EdgesFailed(notice) => after == before.edges_lost(notice, now),
        Event::RawReleaseFailed(notice) => after == before.release_lost(notice, now),
        Event::ConfigSaved(result) => after == before.config_saved(result, now),
        Event::Exported(result) => after == before.exported(result, now),
        Event::Polled { restart } => after == before.polled(restart, now),
    }
}

/// What comes of an event.
pub open spec fn stepped(before: Mind, event: Event, now: u64, after: Mind) -> bool {
    if relinks(event) {
        exists|mid: Mind| #[trigger]
            happened(before, event, now, mid) && recomputed(mid, now, after)
    } else {
        happened(before, event, now, after)
    }
}

/// An event that can be taken as it is: points and counts are within bounds.
pub open spec fn sane_event(event: Event) -> bool {
    match event {
        Event::Raw(RawEvent::Prepared { pos, .. }) => pos.bounded(),
        Event::Platform(PlatformEvent::EdgeMotion { along, .. }) => -POINT_REACH <= along
            <= POINT_REACH,
        Event::Platform(PlatformEvent::EdgeHit { along, .. }) => -POINT_REACH <= along
            <= POINT_REACH,
        Event::Peer(PeerEvent::Frame { frame, .. }) => sane_frame(frame),
        _ => true,
    }
}

impl Engine {
    fn tell_all(&mut self)
        requires
            old(self).wf(),
        ensures
            final(self).wf(),
            final(self)@ == old(self)@.all_told(old(self)@.peers.len()),
    {
        let ghost before = self@;
        let count: usize = self.peers.len();
        for i in 0..count
            invariant
                self.wf(),
                count == before.peers.len(),
                self@ == before.all_told(i as nat),
                self@.peers == before.peers,
        {
            let id = self.peers[i].id.clone();
            self.send_master_state(&id);
        }
    }

    fn set_master(&mut self, on: bool, now: u64)
        requires
            old(self).wf(),
            now <= LATEST,
        ensures
            final(self).wf(),
            final(self)@ == old(self)@.master_set(on, now),
    {
        proof {
            lemma_telling_keeps(
                (Mind { master_enabled: on, ..self@ }).dirty(now),
                self@.peers.len(),
            );
        }
        self.master_enabled = on;
        self.mark_dirty(now);
        self.tell_all();
        if !on {
            self.crossing = None;
            if self.raw.pending_target.is_some() {
                self.stop_raw();
            }
            let warp = Some(self.last_local);
            match self.focus.clone() {
                Focus::Remote(target) => {
                    self.end_remote(&target, LeaveReason::Reconfigured, warp, true, now);
                },
                Focus::Driven(source) => {
                    self.end_driven(&source, Some(LeaveReason::Reconfigured), now);
                },
                Focus::Local => {},
            }
        }
        self.touch_ui(now);
    }

    fn take_settings(&mut self, result: Result<(), Notice>, settings: Arc<InputSettings>, now: u64)
        requires
            old(self).wf(),
            now <= LATEST,
        ensures
            final(self).wf(),
            final(self)@ == old(self)@.settings_saved(result, settings, now),
    {
        if let Err(cause) = result {
            self.set_raw_error(about(Trouble::InputSettings, cause));
            self.touch_ui(now);
            return ;
        }
        if let Focus::Remote(target) = self.focus.clone() {
            let warp = Some(self.last_local);
            self.end_remote(&target, LeaveReason::Reconfigured, warp, true, now);
        }
        self.edge_dwell_ms = match settings.crossing {
            CrossingPolicy::Dwell { milliseconds } => milliseconds,
            _ => 0,
        };
        self.mark_dirty(now);
        self.settings = settings;
        self.raw.error = None;
        self.touch_ui(now);
    }

    /// Carries out a command.
    pub fn on_command(&mut self, command: Command, now: u64)
        requires
            old(self).wf(),
            old(self)@.counts(),
            old(self)@.layout_lamport < u64::MAX - 2,
            now <= LATEST,
        ensures
            final(self).wf(),
            commanded(old(self)@, command, now, final(self)@),
    {
        match command {
            Command::SetInputSettings(settings) => {
                self.crossing = None;
                self.act(Act::SaveSettings(settings.clone()));
                self.awaiting = Some(Awaiting::Settings(settings));
            },
            Command::SelectTarget(target) => {
                self.select_target(&target, now);
            },
            Command::Update { machine, action } => {
                self.act(Act::Update { machine, action });
                self.touch_ui(now);
            },
            Command::ExportDiagnostics => {
                self.act(Act::Export);
                self.touch_ui(now);
            },
            Command::SetMasterEnabled(on) => {
                self.set_master(on, now);
            },
            Command::SetMachineEnabled(id, enabled) => {
                self.set_machine_enabled(&id, enabled, now);
            },
            Command::SetArrangement(moves) => {
                self.set_arrangement(&moves, now);
            },
            Command::SetSensitivity(factor) => {
                self.set_sensitivity(factor, now);
            },
            Command::SetClipboardSync(on) => {
                self.clipboard_sync = on;
                if !on {
                    self.act(Act::StopClipboard);
                }
                self.mark_dirty(now);
                self.touch_ui(now);
            },
            Command::SetBackends(choice) => {
                self.backends = choice;
                if let Some(status) = &mut self.backend_status {
                    status.choice = choice;
                }
                self.act(Act::SaveConfig);
                self.act(Act::SetBackends(choice));
                self.touch_ui(now);
            },
            Command::Panic => {
                self.panic(now);
            },
            Command::Refresh => {
                self.act(Act::Discover);
            },
        }
    }

    fn leave_edge(&mut self, now: u64)
        requires
            old(self).wf(),
            now <= LATEST,
        ensures
            final(self).wf(),
            final(self)@ == old(self)@.edge_left(now),
    {
        let local: bool = match &self.crossing {
            Some(c) => c.local_edge.is_some(),
            None => false,
        };
        if local {
            self.crossing = None;
            self.touch_ui(now);
        }
        if self.raw.preparing.is_some() && self.raw.edge.is_some() {
            if let Focus::Remote(target) = self.focus.clone() {
                self.end_remote(&target, LeaveReason::Crossed, None, true, now);
            }
        }
    }

    fn be_used(&mut self, now: u64)
        requires
            old(self).wf(),
            old(self)@.counts(),
            now <= LATEST,
        ensures
            final(self).wf(),
            final(self)@ == old(self)@.used(now),
    {
        if !self.master_enabled || !self.machine_enabled(&self.me.id) {
            return ;
        }
        self.claim_source(now);
        if let Focus::Driven(source) = self.focus.clone() {
            self.end_driven(&source, Some(LeaveReason::SourceChanged), now);
        }
        self.grace_until = None;
    }

    fn change_displays(&mut self, info: Arc<MachineInfo>, now: u64)
        requires
            old(self).wf(),
            old(self)@.layout_lamport < u64::MAX - 2,
            now <= LATEST,
        ensures
            final(self).wf(),
            exists|fixed: Mind| #[trigger]
                repaired(old(self)@.redisplayed(info), now, fixed) && final(self)@ == fixed.touched(now),
    {
        self.me = info.clone();
        self.act(Act::UpdateSelf(info));
        let ghost told = self@;
        self.repair_layout(now);
        let ghost fixed = self@;
        assert(repaired(told, now, fixed));
        self.touch_ui(now);
    }

    /// Takes what this machine's devices do.
    pub fn on_platform_event(&mut self, event: PlatformEvent, now: u64)
        requires
            old(self).wf(),
            old(self)@.counts(),
            old(self)@.layout_lamport < u64::MAX - 2,
            sane_event(Event::Platform(event)),
            now <= LATEST,
        ensures
            final(self).wf(),
            platform_happened(old(self)@, event, now, final(self)@),
    {
        match event {
            PlatformEvent::EdgeMotion { edge, along, dx, dy } => {
                self.edge_motion(edge, along, dx, dy, now);
            },
            PlatformEvent::EdgeLeft => {
                self.leave_edge(now);
            },
            PlatformEvent::EdgeHit { edge, along } => {
                self.begin_edge(edge, along, false, now);
            },
            PlatformEvent::Input(input) => {
                self.on_capture_input(input, now);
            },
            PlatformEvent::Broken => {
                if let Focus::Remote(target) = self.focus.clone() {
                    self.end_remote(&target, LeaveReason::CaptureLost, None, true, now);
                }
            },
            PlatformEvent::Panic => {
                self.panic(now);
            },
            PlatformEvent::SwitchTarget => {
                self.switch_target(now);
            },
            PlatformEvent::RawCaptureFailed { operation, notice } => {
                if operation == self.raw.operation {
                    self.raw_capture_failed(notice, now);
                }
            },
            PlatformEvent::RawError(notice) => {
                self.raw_capture_failed(notice, now);
            },
            PlatformEvent::RawBoundary { session, edge, along } => {
                self.raw_boundary_hit(session, edge, along);
            },
            PlatformEvent::PhysicalActivity => {
                self.be_used(now);
            },
            PlatformEvent::DisplaysChanged(info) => {
                self.change_displays(info, now);
            },
            PlatformEvent::Health { report, capture } => {
                self.health = Some(report);
                self.capture_error = capture;
                self.touch_ui(now);
            },
            PlatformEvent::Backends(status) => {
                self.backend_status = Some(status);
                self.touch_ui(now);
            },
        }
    }

    /// Takes the answer to what was awaited.
    pub fn on_answer(&mut self, result: Result<(), Notice>, now: u64)
        requires
            old(self).wf(),
            old(self)@.counts(),
            now <= LATEST,
        ensures
            final(self).wf(),
            final(self)@ == old(self)@.answered(result, now),
    {
        let Some(awaiting) = self.awaiting.take() else {
            return ;
        };
        match awaiting {
            Awaiting::Capture { target, pos, held } => {
                self.capture_answered(result, &target, pos, held, now);
            },
            Awaiting::Enter { source, session } => {
                self.enter_answered(result, &source, session, now);
            },
            Awaiting::RawCapture { target, pos, edge } => {
                self.raw_capture_answered(result, &target, pos, edge, now);
            },
            Awaiting::RawBegin { source, session, pos, port, ticket } => {
                self.raw_begin_answered(result, &source, session, pos, port, ticket, now);
            },
            Awaiting::RawArm { source, session, pos, port, ticket } => {
                self.raw_arm_answered(result, &source, session, pos, port, ticket, now);
            },
            Awaiting::RawPlace { source, session, port, ticket } => {
                self.raw_place_answered(result, &source, session, port, ticket, now);
            },
            Awaiting::RawSend { target, session } => {
                self.raw_send_answered(result, &target, session, now);
            },
            Awaiting::RawPolicy { source } => {
                self.raw_policy_answered(result, &source, now);
            },
            Awaiting::Settings(settings) => {
                self.take_settings(result, settings, now);
            },
        }
    }

    fn lose_edges(&mut self, notice: Notice, now: u64)
        requires
            old(self).wf(),
            now <= LATEST,
        ensures
            final(self).wf(),
            final(self)@ == old(self)@.edges_lost(notice, now),
    {
        self.capture_error = Some(notice);
        if let Focus::Remote(target) = self.focus.clone() {
            let warp = Some(self.last_local);
            self.end_remote(&target, LeaveReason::CaptureLost, warp, true, now);
        }
        self.touch_ui(now);
    }

    fn note_release(&mut self, notice: Notice, now: u64)
        requires
            old(self).wf(),
            now <= LATEST,
        ensures
            final(self).wf(),
            final(self)@ == old(self)@.release_lost(notice, now),
    {
        if self.raw.preparing.is_none() {
            self.set_raw_error(about(Trouble::RawRelease, notice));
            self.touch_ui(now);
        }
    }

    fn note_saved(&mut self, result: Result<(), Notice>, now: u64)
        requires
            old(self).wf(),
            now <= LATEST,
        ensures
            final(self).wf(),
            final(self)@ == old(self)@.config_saved(result, now),
    {
        match result {
            Ok(_) => {
                self.config_error = None;
            },
            Err(cause) => {
                self.config_error = Some(about(Trouble::ConfigSave, cause));
                self.cfg_deadline = Some(now + SAVE_AGAIN);
            },
        }
        self.touch_ui(now);
    }

    fn note_exported(&mut self, result: Result<Arc<String>, Notice>, now: u64)
        requires
            old(self).wf(),
            now <= LATEST,
        ensures
            final(self).wf(),
            final(self)@ == old(self)@.exported(result, now),
    {
        match result {
            Ok(path) => {
                self.export_path = Some(path);
                self.export_error = None;
            },
            Err(cause) => {
                self.export_error = Some(about(Trouble::Export, cause));
            },
        }
        self.touch_ui(now);
    }

    fn note_polled(&mut self, restart: bool, now: u64)
        requires
            old(self).wf(),
            now <= LATEST,
        ensures
            final(self).wf(),
            final(self)@ == old(self)@.polled(restart, now),
    {
        if restart {
            self.restart_requested = true;
        } else {
            self.touch_ui(now);
        }
    }

    fn relinks_after(event: &Event) -> (r: bool)
        ensures
            r == relinks(*event),
    {
        match event {
            Event::Command(_) => true,
            Event::Discovered(_) => true,
            Event::Platform(event) => match event {
                PlatformEvent::DisplaysChanged(_) => true,
                _ => false,
            },
            Event::Peer(event) => match event {
                PeerEvent::Connected { .. } => true,
                PeerEvent::Degraded(_) => true,
                PeerEvent::Healthy { .. } => true,
                PeerEvent::Disconnected { .. } => true,
                PeerEvent::Frame { frame, .. } => match frame {
                    Frame::LayoutSync(_) => true,
                    Frame::MachineUpdate(_) => true,
                    Frame::MasterState { .. } => true,
                    _ => false,
                },
                _ => false,
            },
            _ => false,
        }
    }

    fn take_event(&mut self, event: Event, now: u64)
        requires
            old(self).wf(),
            old(self)@.counts(),
            old(self)@.layout_lamport < u64::MAX - 2,
            sane_event(event),
            now <= LATEST,
        ensures
            final(self).wf(),
            happened(old(self)@, event, now, final(self)@),
    {
        match event {
            Event::Tick => {
                self.crossing_tick(now);
            },
            Event::Raw(event) => {
                self.on_raw_event(event, now);
            },
            Event::Command(command) => {
                self.on_command(command, now);
            },
            Event::Platform(event) => {
                self.on_platform_event(event, now);
            },
            Event::Peer(event) => {
                self.on_peer_event(event, now);
            },
            Event::Discovered(status) => {
                self.discover(status, now);
            },
            Event::Answer(result) => {
                self.on_answer(result, now);
            },
            Event::InjectionFailed { from, session } => {
                self.injection_failed(&from, session, now);
            },
            Event::EdgesFailed(notice) => {
                self.lose_edges(notice, now);
            },
            Event::RawReleaseFailed(notice) => {
                self.note_release(notice, now);
            },
            Event::ConfigSaved(result) => {
                self.note_saved(result, now);
            },
            Event::Exported(result) => {
                self.note_exported(result, now);
            },
            Event::Polled { restart } => {
                self.note_polled(restart, now);
            },
        }
    }

    /// Takes whatever happens. What is to be done stands in the outbox afterwards.
    pub fn step(&mut self, event: Event, now: u64)
        requires
            old(self).wf(),
            old(self)@.counts(),
            old(self)@.layout_lamport < u64::MAX - 2,
            sane_event(event),
            now <= LATEST,
        ensures
            final(self).wf(),
            stepped(old(self)@, event, now, final(self)@),
    {
        let again: bool = Engine::relinks_after(&event);
        let ghost said = event;
        self.take_event(event, now);
        let ghost mid = self@;
        assert(happened(old(self)@, said, now, mid));
        if again {
            self.recompute(now);
        }
    }

    /// Begins: this machine has a place, and the arrangement holds together.
    pub fn begin(&mut self, now: u64)
        requires
            old(self).wf(),
            old(self)@.layout_lamport < u64::MAX - 2,
            now <= LATEST,
        ensures
            final(self).wf(),
            exists|placed: Mind, fixed: Mind|
                {
                    &&& #[trigger] super::board::ensured(old(self)@, now, placed)
                    &&& #[trigger] repaired(placed, now, fixed)
                    &&& recomputed(fixed, now, final(self)@)
                },
    {
        self.ensure_doc(now);
        let ghost placed = self@;
        assert(super::board::ensured(old(self)@, now, placed));
        self.repair_layout(now);
        let ghost fixed = self@;
        assert(repaired(placed, now, fixed));
        self.recompute(now);
    }

    /// Ends: no session is left open.
    pub fn end(&mut self, now: u64)
        requires
            old(self).wf(),
            now <= LATEST,
        ensures
            final(self).wf(),
            final(self)@ == (match old(self)@.focus {
                Focus::Remote(target) => old(self)@.remote_ended(
                    target,
                    LeaveReason::Reconfigured,
                    Some(old(self)@.last_local),
                    true,
                    now,
                ),
                Focus::Driven(source) => old(self)@.driven_ended(
                    source,
                    Some(LeaveReason::Reconfigured),
                    now,
                ),
                Focus::Local => old(self)@,
            }).stopped_raw(),
    {
        let warp = Some(self.last_local);
        match self.focus.clone() {
            Focus::Remote(target) => {
                self.end_remote(&target, LeaveReason::Reconfigured, warp, true, now);
            },
            Focus::Driven(source) => {
                self.end_driven(&source, Some(LeaveReason::Reconfigured), now);
            },
            Focus::Local => {},
        }
        self.stop_raw();
    }

    /// Whether it is time to show the state, and to write the settings.
    pub fn due(&mut self, now: u64) -> (r: (bool, bool))
        requires
            old(self).wf(),
        ensures
            final(self).wf(),
            r.0 == (old(self)@.ui_deadline matches Some(at) && at <= now),
            r.1 == (old(self)@.cfg_deadline matches Some(at) && at <= now),
            final(self)@ == (Mind {
                ui_deadline: if r.0 {
                    None
                } else {
                    old(self)@.ui_deadline
                },
                cfg_deadline: if r.1 {
                    None
                } else {
                    old(self)@.cfg_deadline
                },
                ..old(self)@
            }),
    {
        let show: bool = match self.ui_deadline {
            Some(at) => at <= now,
            None => false,
        };
        let save: bool = match self.cfg_deadline {
            Some(at) => at <= now,
            None => false,
        };
        if show {
            self.ui_deadline = None;
        }
        if save {
            self.cfg_deadline = None;
        }
        (show, save)
    }
}

proof fn lemma_telling_keeps(mind: Mind, n: nat)
    requires
        n <= mind.peers.len(),
    ensures
        mind.all_told(n).peers == mind.peers,
        mind.all_told(n).focus == mind.focus,
        mind.all_told(n).raw == mind.raw,
        mind.all_told(n).last_local == mind.last_local,
    decreases n,
{
    if n > 0 {
        lemma_telling_keeps(mind, (n - 1) as nat);
    }
}

/// Two motions in a row are one; everything else stays apart.
pub open spec fn joined(events: Seq<PlatformEvent>, event: PlatformEvent) -> Seq<PlatformEvent> {
    match event {
        PlatformEvent::Input(InputEvent::Motion { dx, dy }) => {
            if events.len() > 0 && (events.last() matches PlatformEvent::Input(
                InputEvent::Motion { dx: x, dy: y },
            )) {
                match events.last() {
                    PlatformEvent::Input(InputEvent::Motion { dx: x, dy: y }) => events.update(
                        events.len() - 1,
                        PlatformEvent::Input(
                            InputEvent::Motion {
                                dx: saturated(x + dx),
                                dy: saturated(y + dy),
                            },
                        ),
                    ),
                    _ => events,
                }
            } else {
                events.push(event)
            }
        },
        _ => events.push(event),
    }
}

pub open spec fn saturated(value: int) -> i64 {
    if value < i64::MIN {
        i64::MIN
    } else if value > i64::MAX {
        i64::MAX
    } else {
        value as i64
    }
}

fn add_saturating(a: i64, b: i64) -> (r: i64)
    ensures
        r == saturated(a + b),
{
    let sum: i128 = a as i128 + b as i128;
    if sum < i64::MIN as i128 {
        i64::MIN
    } else if sum > i64::MAX as i128 {
        i64::MAX
    } else {
        sum as i64
    }
}

/// Adds an event to a batch.
pub fn push_platform_event(events: &mut Vec<PlatformEvent>, event: PlatformEvent)
    ensures
        final(events)@ == joined(old(events)@, event),
{
    if let PlatformEvent::Input(InputEvent::Motion { dx, dy }) = event {
        let count: usize = events.len();
        if count > 0 {
            let last: Option<(i64, i64)> = match &events[count - 1] {
                PlatformEvent::Input(InputEvent::Motion { dx: x, dy: y }) => Some((*x, *y)),
                _ => None,
            };
            if let Some((x, y)) = last {
                events.set(
                    count - 1,
                    PlatformEvent::Input(
                        InputEvent::Motion {
                            dx: add_saturating(x, dx),
                            dy: add_saturating(y, dy),
                        },
                    ),
                );
                return ;
            }
        }
        events.push(PlatformEvent::Input(InputEvent::Motion { dx, dy }));
    } else {
        events.push(event);
    }
}

} // verus!
