//! Who has the pointer, and how sessions begin and end.

use super::notice::{about, just, plain, with_detail, Notice, Trouble};
use super::paths::{reachable, way_exists};
use super::state::{
    Act, Awaiting, Engine, Focus, Frame, LeaveReason, Mind, RawState, DRIVEN_GRACE, LATEST,
};
use crate::geometry::{Vec2, PIXEL};
use crate::input::InputEvent;
use crate::ledger::{button_events, key_presses, key_releases, nothing_held, HeldLedger, Holding};
use crate::machine::{supersedes, MachineId, Stamp};
use vstd::prelude::*;

verus! {

/// Releases of all that is held.
pub open spec fn releases(held: Holding) -> Seq<InputEvent> {
    key_releases(held.keys) + button_events(held.buttons, false)
}

/// Presses of all that is held.
pub open spec fn presses_of(held: Holding) -> Seq<InputEvent> {
    key_presses(held.keys, true) + key_presses(held.keys, false) + button_events(held.buttons, true)
}

impl Mind {
    /// Raw input stops, and whatever it was about no longer matters.
    pub open spec fn stopped_raw(self) -> Mind {
        Mind {
            raw: RawState {
                operation: vstd::wrapping::u64_specs::wrapping_add(self.raw.operation, 1),
                preparing: None,
                active: false,
                boundary: false,
                pending_policy: false,
                pending_boundary: None,
                pending_target: None,
                connecting: false,
                edge: None,
                ..self.raw
            },
            ..self
        }.doing(Act::StopRaw { session: self.active_session })
    }

    pub open spec fn raw_trouble(self, notice: Notice) -> Mind {
        Mind { raw: RawState { error: Some(notice), ..self.raw }, ..self }
    }

    /// A machine is told that its session ends, after everything held was released.
    pub open spec fn left(self, target: MachineId, reason: LeaveReason, release_all: bool) -> Mind {
        let empty = Mind { source: nothing_held(), ..self };
        let told = if self.connected(target@) {
            let gone = empty.posted_inputs(
                target,
                self.active_session,
                releases(self.source),
            ).posted(target, Frame::Leave { session: self.active_session, reason });
            if release_all {
                gone.posted(target, Frame::ReleaseAll)
            } else {
                gone
            }
        } else {
            empty
        };
        told.doing(Act::SetActive { peer: target, active: false })
    }

    /// This machine drives no other any more.
    pub open spec fn remote_left(
        self,
        target: MachineId,
        reason: LeaveReason,
        release_all: bool,
        now: u64,
    ) -> Mind {
        let gone = Mind { crossing: None, ..self }.stopped_raw().left(target, reason, release_all);
        Mind { focus: Focus::Local, factor: PIXEL, ..gone }.touched(now)
    }

    /// The same, and the pointer is given back here.
    pub open spec fn remote_ended(
        self,
        target: MachineId,
        reason: LeaveReason,
        warp: Option<Vec2>,
        release_all: bool,
        now: u64,
    ) -> Mind {
        self.remote_left(target, reason, release_all, now).doing(Act::EndCapture(warp))
    }

    /// What another machine held here is released.
    pub open spec fn target_released(self) -> Mind {
        Mind { target: nothing_held(), ..self }.doing(Act::ReleaseAll)
    }

    /// This machine is driven no longer.
    pub open spec fn driven_ended(self, source: MachineId, notify: Option<LeaveReason>, now: u64) -> Mind {
        let free = self.stopped_raw().target_released().doing(Act::Leave);
        let told = match notify {
            Some(reason) => if self.connected(source@) {
                free.posted(source, Frame::Leave { session: self.active_session, reason })
            } else {
                free
            },
            None => free,
        };
        Mind {
            grace_until: Some((now + DRIVEN_GRACE) as u64),
            focus: Focus::Local,
            ..told.doing(Act::SetActive { peer: source, active: false })
        }.touched(now)
    }

    /// Everything ends at once, everywhere.
    pub open spec fn panicked(self, now: u64) -> Mind {
        let stopped = Mind { crossing: None, ..self }.stopped_raw();
        let ended = match self.focus {
            Focus::Remote(target) => stopped.remote_ended(
                target,
                LeaveReason::Panic,
                None,
                true,
                now,
            ),
            Focus::Driven(source) => stopped.driven_ended(source, Some(LeaveReason::Panic), now),
            Focus::Local => stopped,
        };
        Mind { focus: Focus::Local, ..ended.doing(Act::Broadcast(Frame::Panic)) }.touched(now)
    }

    /// Another machine panicked.
    pub open spec fn panic_heard(self, now: u64) -> Mind {
        let stopped = self.stopped_raw();
        match self.focus {
            Focus::Remote(target) => stopped.remote_ended(
                target,
                LeaveReason::Panic,
                None,
                true,
                now,
            ),
            Focus::Driven(source) => stopped.driven_ended(source, Some(LeaveReason::Panic), now),
            Focus::Local => stopped.target_released(),
        }
    }

    /// A claim counts where it is later than the one known.
    pub open spec fn claim_heard(self, stamp: Stamp, now: u64) -> Mind {
        let noted = Mind {
            claim_lamport: if stamp.lamport > self.claim_lamport {
                stamp.lamport
            } else {
                self.claim_lamport
            },
            ..self
        };
        if self.claim is Some && !supersedes(stamp, self.claim->0) {
            noted
        } else {
            let quiet = if self.raw.pending_target matches Some((peer, _)) && peer@
                != stamp.writer@ {
                noted.stopped_raw()
            } else {
                noted
            };
            let claimed = Mind { claim: Some(stamp), ..quiet };
            let ended = match self.focus {
                Focus::Remote(target) => claimed.remote_ended(
                    target,
                    LeaveReason::SourceChanged,
                    Some(self.last_local),
                    false,
                    now,
                ),
                Focus::Driven(source) => if stamp.writer@ != source@ {
                    claimed.driven_ended(source, Some(LeaveReason::SourceChanged), now)
                } else {
                    claimed
                },
                Focus::Local => claimed,
            };
            ended.touched(now)
        }
    }

    /// The pointer is to be captured to drive a machine.
    pub open spec fn desktop_started(self, target: MachineId, pos: Vec2, held: bool, now: u64) -> Mind {
        let claimed = self.claiming(now);
        let number = (self.session + 1) as u64;
        let begun = Mind { session: number, active_session: number, ..claimed };
        if !begun.sends(target@) {
            begun.raw_trouble(plain(Trouble::DestinationGone)).doing(
                Act::EndCapture(Some(self.last_local)),
            ).touched(now)
        } else {
            Mind {
                awaiting: Some(Awaiting::Capture { target, pos, held }),
                ..begun.posted(target, Frame::Enter { session: number, pos }).doing(
                    Act::BeginCapture,
                )
            }
        }
    }

    /// The pointer is captured, or cannot be.
    pub open spec fn captured(
        self,
        result: Result<(), Notice>,
        target: MachineId,
        pos: Vec2,
        held: bool,
        now: u64,
    ) -> Mind {
        match result {
            Err(cause) => self.posted(
                target,
                Frame::Leave { session: self.active_session, reason: LeaveReason::CaptureLost },
            ).raw_trouble(with_detail(Trouble::DesktopCapture, cause)).doing(
                Act::EndCapture(Some(self.last_local)),
            ).touched(now),
            Ok(_) => {
                let driving = Mind {
                    focus: Focus::Remote(target),
                    pos,
                    factor: self.speed(target@),
                    source: nothing_held(),
                    ..self.doing(Act::SetActive { peer: target, active: true })
                }.touched(now);
                if held {
                    Mind {
                        source: self.held,
                        ..driving.posted_inputs(
                            target,
                            self.active_session,
                            presses_of(self.held),
                        )
                    }
                } else {
                    driving
                }
            },
        }
    }

    /// A machine may drive this one.
    pub open spec fn admits(self, source: Seq<char>) -> bool {
        &&& self.master_enabled
        &&& self.enabled(self.me.id@)
        &&& self.enabled(source)
        &&& self.usable(source)
        &&& self.claimed_by(source)
    }

    pub open spec fn refused(self, source: MachineId, session: u64) -> Mind {
        self.posted(source, Frame::Leave { session, reason: LeaveReason::Reconfigured })
    }

    /// A machine wants to drive this one.
    pub open spec fn entering(self, source: MachineId, session: u64, pos: Vec2, now: u64) -> Mind {
        if !self.admits(source@) || self.focus is Remote {
            self.refused(source, session)
        } else {
            let quiet = if self.raw.pending_target is Some {
                self.stopped_raw()
            } else {
                self
            };
            let free = match self.focus {
                Focus::Driven(old) => if old@ == source@ {
                    quiet.stopped_raw().target_released()
                } else {
                    quiet.stopped_raw().driven_ended(old, Some(LeaveReason::SourceChanged), now)
                },
                _ => quiet,
            };
            Mind {
                awaiting: Some(Awaiting::Enter { source, session }),
                ..free.doing(Act::Enter(pos))
            }
        }
    }

    /// The pointer was placed for another machine, or could not be.
    pub open spec fn entered(
        self,
        result: Result<(), Notice>,
        source: MachineId,
        session: u64,
        now: u64,
    ) -> Mind {
        match result {
            Err(_) => self.refused(source, session),
            Ok(_) => Mind {
                focus: Focus::Driven(source),
                active_session: session,
                target: nothing_held(),
                ..self
            }.doing(Act::SetActive { peer: source, active: true }).touched(now),
        }
    }

    /// This machine may drive another.
    pub open spec fn may_drive(self, target: Seq<char>) -> bool {
        &&& self.master_enabled
        &&& self.enabled(self.me.id@)
        &&& self.enabled(target)
        &&& self.usable(target)
        &&& self.claimed_by(self.me.id@)
        &&& reachable(self.links, target, self.me.id@)
    }

    /// A session that may no longer be ends.
    pub open spec fn reconciled(self, now: u64) -> Mind {
        match self.focus {
            Focus::Local => self,
            Focus::Remote(target) => if self.may_drive(target@) {
                self
            } else {
                self.remote_ended(
                    target,
                    LeaveReason::Reconfigured,
                    Some(self.last_local),
                    true,
                    now,
                )
            },
            Focus::Driven(source) => if self.admits(source@) {
                self
            } else {
                self.driven_ended(source, Some(LeaveReason::Reconfigured), now)
            },
        }
    }
}

impl Engine {
    pub(crate) fn stop_raw(&mut self)
        requires
            old(self).wf(),
        ensures
            final(self).wf(),
            final(self)@ == old(self)@.stopped_raw(),
    {
        self.raw.operation = self.raw.operation.wrapping_add(1);
        self.raw.preparing = None;
        self.raw.active = false;
        self.raw.boundary = false;
        self.raw.pending_policy = false;
        self.raw.pending_boundary = None;
        self.raw.pending_target = None;
        self.raw.connecting = false;
        self.raw.edge = None;
        self.outbox.push(Act::StopRaw { session: self.active_session });
    }

    pub(crate) fn set_raw_error(&mut self, notice: Notice)
        requires
            old(self).wf(),
        ensures
            final(self).wf(),
            final(self)@ == old(self)@.raw_trouble(notice),
    {
        self.raw.error = Some(notice);
    }

    pub(crate) fn send_leave(&mut self, target: &MachineId, reason: LeaveReason, release_all: bool)
        requires
            old(self).wf(),
        ensures
            final(self).wf(),
            final(self)@ == old(self)@.left(*target, reason, release_all),
    {
        let events = self.source.drain_releases();
        if self.is_connected(target) {
            let session: u64 = self.active_session;
            self.send_inputs(target, session, &events);
            self.send(target, Frame::Leave { session, reason });
            if release_all {
                self.send(target, Frame::ReleaseAll);
            }
        }
        self.act(Act::SetActive { peer: target.clone(), active: false });
    }

    pub(crate) fn leave_remote(
        &mut self,
        target: &MachineId,
        reason: LeaveReason,
        release_all: bool,
        now: u64,
    )
        requires
            old(self).wf(),
            now <= LATEST,
        ensures
            final(self).wf(),
            final(self)@ == old(self)@.remote_left(*target, reason, release_all, now),
    {
        self.crossing = None;
        self.stop_raw();
        self.send_leave(target, reason, release_all);
        self.focus = Focus::Local;
        self.factor = PIXEL;
        self.touch_ui(now);
    }

    /// This machine drives no other any more.
    pub fn end_remote(
        &mut self,
        target: &MachineId,
        reason: LeaveReason,
        warp: Option<Vec2>,
        release_all: bool,
        now: u64,
    )
        requires
            old(self).wf(),
            now <= LATEST,
        ensures
            final(self).wf(),
            final(self)@ == old(self)@.remote_ended(*target, reason, warp, release_all, now),
    {
        self.leave_remote(target, reason, release_all, now);
        self.act(Act::EndCapture(warp));
    }

    pub(crate) fn release_target_side(&mut self)
        requires
            old(self).wf(),
        ensures
            final(self).wf(),
            final(self)@ == old(self)@.target_released(),
    {
        let _ = self.target.drain_releases();
        self.act(Act::ReleaseAll);
    }

    /// This machine is driven no longer.
    pub fn end_driven(&mut self, source: &MachineId, notify: Option<LeaveReason>, now: u64)
        requires
            old(self).wf(),
            now <= LATEST,
        ensures
            final(self).wf(),
            final(self)@ == old(self)@.driven_ended(*source, notify, now),
    {
        self.stop_raw();
        self.release_target_side();
        self.act(Act::Leave);
        if let Some(reason) = notify {
            if self.is_connected(source) {
                self.send(source, Frame::Leave { session: self.active_session, reason });
            }
        }
        self.act(Act::SetActive { peer: source.clone(), active: false });
        self.grace_until = Some(now + DRIVEN_GRACE);
        self.focus = Focus::Local;
        self.touch_ui(now);
    }

    /// Ends every session at once, and tells everybody to.
    pub fn panic(&mut self, now: u64)
        requires
            old(self).wf(),
            now <= LATEST,
        ensures
            final(self).wf(),
            final(self)@ == old(self)@.panicked(now),
    {
        self.crossing = None;
        self.stop_raw();
        match self.focus.clone() {
            Focus::Remote(target) => {
                self.end_remote(&target, LeaveReason::Panic, None, true, now);
            },
            Focus::Driven(source) => {
                self.end_driven(&source, Some(LeaveReason::Panic), now);
            },
            Focus::Local => {},
        }
        self.act(Act::Broadcast(Frame::Panic));
        self.focus = Focus::Local;
        self.touch_ui(now);
    }

    pub(crate) fn hear_panic(&mut self, now: u64)
        requires
            old(self).wf(),
            now <= LATEST,
        ensures
            final(self).wf(),
            final(self)@ == old(self)@.panic_heard(now),
    {
        self.stop_raw();
        match self.focus.clone() {
            Focus::Remote(target) => {
                self.end_remote(&target, LeaveReason::Panic, None, true, now);
            },
            Focus::Driven(source) => {
                self.end_driven(&source, Some(LeaveReason::Panic), now);
            },
            Focus::Local => {
                self.release_target_side();
            },
        }
    }

    /// Another machine claims to be the source of input.
    pub fn on_source_claim(&mut self, stamp: Stamp, now: u64)
        requires
            old(self).wf(),
            now <= LATEST,
        ensures
            final(self).wf(),
            final(self)@ == old(self)@.claim_heard(stamp, now),
    {
        if stamp.lamport > self.claim_lamport {
            self.claim_lamport = stamp.lamport;
        }
        let newer: bool = match &self.claim {
            Some(claim) => stamp.after(claim),
            None => true,
        };
        if !newer {
            return ;
        }
        let other: bool = match &self.raw.pending_target {
            Some((peer, _)) => !peer.same(&stamp.writer),
            None => false,
        };
        if other {
            self.stop_raw();
        }
        let writer = stamp.writer.clone();
        self.claim = Some(stamp);
        match self.focus.clone() {
            Focus::Remote(target) => {
                let warp = Some(self.last_local);
                self.end_remote(&target, LeaveReason::SourceChanged, warp, false, now);
            },
            Focus::Driven(source) => {
                if !writer.same(&source) {
                    self.end_driven(&source, Some(LeaveReason::SourceChanged), now);
                }
            },
            Focus::Local => {},
        }
        self.touch_ui(now);
    }

    pub(crate) fn start_desktop(&mut self, target: &MachineId, pos: Vec2, held: bool, now: u64)
        requires
            old(self).wf(),
            old(self)@.counts(),
            pos.bounded(),
            now <= LATEST,
        ensures
            final(self).wf(),
            final(self)@ == old(self)@.desktop_started(*target, pos, held, now),
    {
        self.claim_source(now);
        self.session = self.session + 1;
        self.active_session = self.session;
        let session: u64 = self.active_session;
        if !self.send(target, Frame::Enter { session, pos }) {
            self.set_raw_error(just(Trouble::DestinationGone));
            self.act(Act::EndCapture(Some(self.last_local)));
            self.touch_ui(now);
            return ;
        }
        self.act(Act::BeginCapture);
        self.awaiting = Some(Awaiting::Capture { target: target.clone(), pos, held });
    }

    pub(crate) fn capture_answered(
        &mut self,
        result: Result<(), Notice>,
        target: &MachineId,
        pos: Vec2,
        held: bool,
        now: u64,
    )
        requires
            old(self).wf(),
            pos.bounded(),
            now <= LATEST,
        ensures
            final(self).wf(),
            final(self)@ == old(self)@.captured(result, *target, pos, held, now),
    {
        let session: u64 = self.active_session;
        if let Err(cause) = result {
            self.send(target, Frame::Leave { session, reason: LeaveReason::CaptureLost });
            self.set_raw_error(about(Trouble::DesktopCapture, cause));
            self.act(Act::EndCapture(Some(self.last_local)));
            self.touch_ui(now);
            return ;
        }
        self.act(Act::SetActive { peer: target.clone(), active: true });
        self.factor = self.sensitivity(target);
        self.focus = Focus::Remote(target.clone());
        self.pos = pos;
        self.source = HeldLedger::default();
        self.touch_ui(now);
        if held {
            let events = self.held.presses();
            self.send_inputs(target, session, &events);
            self.source = self.held.clone();
        }
    }

    pub(crate) fn admits_source(&self, source: &MachineId) -> (r: bool)
        ensures
            r == self@.admits(source@),
    {
        self.master_enabled && self.machine_enabled(&self.me.id) && self.machine_enabled(source)
            && self.peer_usable(source) && self.owns_claim(source)
    }

    pub(crate) fn refuse_enter(&mut self, source: &MachineId, session: u64)
        requires
            old(self).wf(),
        ensures
            final(self).wf(),
            final(self)@ == old(self)@.refused(*source, session),
    {
        self.send(source, Frame::Leave { session, reason: LeaveReason::Reconfigured });
    }

    /// A machine wants to drive this one.
    pub fn on_enter(&mut self, source: MachineId, session: u64, pos: Vec2, now: u64)
        requires
            old(self).wf(),
            now <= LATEST,
        ensures
            final(self).wf(),
            final(self)@ == old(self)@.entering(source, session, pos, now),
    {
        if !self.admits_source(&source) || self.focus.is_remote() {
            self.refuse_enter(&source, session);
            return ;
        }
        if self.raw.pending_target.is_some() {
            self.stop_raw();
        }
        if let Focus::Driven(old) = self.focus.clone() {
            self.stop_raw();
            if old.same(&source) {
                self.release_target_side();
            } else {
                self.end_driven(&old, Some(LeaveReason::SourceChanged), now);
            }
        }
        self.act(Act::Enter(pos));
        self.awaiting = Some(Awaiting::Enter { source, session });
    }

    pub(crate) fn enter_answered(
        &mut self,
        result: Result<(), Notice>,
        source: &MachineId,
        session: u64,
        now: u64,
    )
        requires
            old(self).wf(),
            now <= LATEST,
        ensures
            final(self).wf(),
            final(self)@ == old(self)@.entered(result, *source, session, now),
    {
        if result.is_err() {
            self.refuse_enter(source, session);
            return ;
        }
        self.focus = Focus::Driven(source.clone());
        self.active_session = session;
        self.target = HeldLedger::default();
        self.act(Act::SetActive { peer: source.clone(), active: true });
        self.touch_ui(now);
    }

    /// Whether links lead from a machine back to this one.
    pub fn return_path_exists(&self, from: &MachineId) -> (r: bool)
        ensures
            r == reachable(self@.links, from@, self@.me.id@),
    {
        way_exists(&self.links, from, &self.me.id)
    }

    /// Ends a session that may no longer be.
    pub fn reconcile_focus(&mut self, now: u64)
        requires
            old(self).wf(),
            now <= LATEST,
        ensures
            final(self).wf(),
            final(self)@ == old(self)@.reconciled(now),
    {
        match self.focus.clone() {
            Focus::Local => {},
            Focus::Remote(target) => {
                let valid: bool = self.master_enabled && self.machine_enabled(&self.me.id)
                    && self.machine_enabled(&target) && self.peer_usable(&target)
                    && self.owns_claim(&self.me.id) && self.return_path_exists(&target);
                if !valid {
                    let warp = Some(self.last_local);
                    self.end_remote(&target, LeaveReason::Reconfigured, warp, true, now);
                }
            },
            Focus::Driven(source) => {
                if !self.admits_source(&source) {
                    self.end_driven(&source, Some(LeaveReason::Reconfigured), now);
                }
            },
        }
    }
}

} // verus!
