//! How a machine starts.

use super::state::{Engine, Focus, MachineInfo, Mind, Os, RawState};
use crate::config::Config;
use crate::geometry::{DisplayRect, Vec2, PIXEL};
use crate::input_settings::InputSettings;
use crate::ledger::{nothing_held, HeldLedger};
use crate::machine::MachineId;
use std::sync::Arc;
use vstd::prelude::*;

verus! {

/// No raw input yet.
pub open spec fn raw_idle(can_capture: bool, can_inject: bool) -> RawState {
    RawState {
        operation: 0,
        can_capture,
        can_inject,
        error: None,
        preparing: None,
        active: false,
        boundary: false,
        pending_policy: false,
        pending_boundary: None,
        pending_target: None,
        connecting: false,
        edge: None,
    }
}

impl Mind {
    /// A machine that has just started with a configuration: it drives nothing, nothing
    /// drives it, and it knows no other machine.
    pub open spec fn started(
        self,
        config: Config,
        settings: InputSettings,
        displays: Seq<DisplayRect>,
        can_capture: bool,
        can_inject: bool,
    ) -> bool {
        &&& self.me.id@.len() == 0
        &&& self.me.hostname@.len() == 0
        &&& self.me.os == Os::Other
        &&& self.me.displays@ == displays
        &&& self == (Mind {
            me: self.me,
            peers: Seq::empty(),
            open: Seq::empty(),
            master_enabled: config.master_enabled,
            clipboard_sync: config.clipboard_sync,
            panic_chord: config.panic_chord,
            edge_dwell_ms: config.edge_dwell_ms,
            corner_dead_zone: config.corner_dead_zone,
            backends: config.backends,
            doc: config.layout,
            layout_lamport: match config.layout {
                Some(doc) => doc.stamp.lamport,
                None => 0,
            },
            claim: None,
            claim_lamport: 0,
            focus: Focus::Local,
            session: 0,
            active_session: 0,
            pos: Vec2 { x: 0, y: 0 },
            factor: PIXEL,
            last_local: Vec2 { x: 0, y: 0 },
            source: nothing_held(),
            target: nothing_held(),
            links: Seq::empty(),
            geo_links: Seq::empty(),
            armed: Seq::empty(),
            crossing: None,
            raw: raw_idle(can_capture, can_inject),
            settings: Arc::new(settings),
            held: nothing_held(),
            tailscale_error: None,
            config_error: None,
            capture_error: None,
            export_path: None,
            export_error: None,
            health: None,
            backend_status: None,
            restart_requested: false,
            ui_deadline: None,
            cfg_deadline: None,
            grace_until: None,
            awaiting: None,
            outbox: Seq::empty(),
        })
    }
}

impl Engine {
    pub fn new(
        config: Config,
        settings: InputSettings,
        displays: Vec<DisplayRect>,
        can_capture: bool,
        can_inject: bool,
    ) -> (r: Self)
        ensures
            r.wf(),
            r@.started(config, settings, displays@, can_capture, can_inject),
    {
        let layout_lamport: u64 = match &config.layout {
            Some(doc) => doc.stamp.lamport,
            None => 0,
        };
        let me = MachineInfo {
            id: MachineId(String::new()),
            hostname: String::new(),
            os: Os::Other,
            displays,
        };
        Engine {
            me: Arc::new(me),
            peers: Vec::new(),
            open: Vec::new(),
            master_enabled: config.master_enabled,
            clipboard_sync: config.clipboard_sync,
            panic_chord: config.panic_chord,
            edge_dwell_ms: config.edge_dwell_ms,
            corner_dead_zone: config.corner_dead_zone,
            backends: config.backends,
            doc: config.layout,
            layout_lamport,
            claim: None,
            claim_lamport: 0,
            focus: Focus::Local,
            session: 0,
            active_session: 0,
            pos: Vec2 { x: 0, y: 0 },
            factor: PIXEL,
            last_local: Vec2 { x: 0, y: 0 },
            source: HeldLedger::default(),
            target: HeldLedger::default(),
            links: Vec::new(),
            geo_links: Vec::new(),
            armed: Vec::new(),
            crossing: None,
            raw: RawState {
                operation: 0,
                can_capture,
                can_inject,
                error: None,
                preparing: None,
                active: false,
                boundary: false,
                pending_policy: false,
                pending_boundary: None,
                pending_target: None,
                connecting: false,
                edge: None,
            },
            settings: Arc::new(settings),
            held: HeldLedger::default(),
            tailscale_error: None,
            config_error: None,
            capture_error: None,
            export_path: None,
            export_error: None,
            health: None,
            backend_status: None,
            restart_requested: false,
            ui_deadline: None,
            cfg_deadline: None,
            grace_until: None,
            awaiting: None,
            outbox: Vec::new(),
        }
    }
}

} // verus!
