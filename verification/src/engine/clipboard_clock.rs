//! The order of clipboard events: what is late no longer counts.

use crate::files::records::LocalSelection;
use std::sync::Arc;
use vstd::prelude::*;

verus! {

/// How far a clipboard's generation got.
#[derive(Clone, Copy, Debug, PartialEq, Eq, Structural)]
pub enum Phase {
    Invalidated,
    Changed,
    Captured,
    Replaced,
}

impl Phase {
    pub open spec fn rank(self) -> int {
        match self {
            Phase::Invalidated => 0,
            Phase::Changed => 1,
            Phase::Captured => 2,
            Phase::Replaced => 3,
        }
    }

    fn number(self) -> (r: u8)
        ensures
            r == self.rank(),
    {
        match self {
            Phase::Invalidated => 0,
            Phase::Changed => 1,
            Phase::Captured => 2,
            Phase::Replaced => 3,
        }
    }
}

/// When an event belongs.
#[derive(Clone, Copy, Debug, PartialEq, Eq, Structural)]
pub struct Moment {
    pub generation: u64,
    pub phase: Phase,
}

/// A moment that comes later than another.
pub open spec fn follows(a: Moment, b: Moment) -> bool {
    a.generation > b.generation || (a.generation == b.generation && a.phase.rank()
        > b.phase.rank())
}

impl Moment {
    pub fn after(self, other: Moment) -> (r: bool)
        ensures
            r == follows(self, other),
    {
        self.generation > other.generation || (self.generation == other.generation
            && self.phase.number() > other.phase.number())
    }
}

/// A moment that counts after the latest one.
pub open spec fn counts_after(latest: Option<Moment>, moment: Moment) -> bool {
    match latest {
        Some(latest) => follows(moment, latest),
        None => true,
    }
}

fn counts(latest: Option<Moment>, moment: Moment) -> (r: bool)
    ensures
        r == counts_after(latest, moment),
{
    match latest {
        Some(latest) => moment.after(latest),
        None => true,
    }
}

/// What happens to this machine's clipboard.
#[derive(Debug)]
pub enum NativeClipboardEvent {
    Invalidated { generation: u64, epoch: u64 },
    Changed {
        generation: u64,
        mimes: Arc<Vec<String>>,
        inline_text: Option<String>,
        epoch: u64,
    },
    Captured { selection: Arc<LocalSelection>, generation: u64, epoch: u64 },
}

impl NativeClipboardEvent {
    pub open spec fn epoch_of(self) -> u64 {
        match self {
            NativeClipboardEvent::Invalidated { epoch, .. } => epoch,
            NativeClipboardEvent::Changed { epoch, .. } => epoch,
            NativeClipboardEvent::Captured { epoch, .. } => epoch,
        }
    }

    pub open spec fn moment(self) -> Moment {
        match self {
            NativeClipboardEvent::Invalidated { generation, .. } => Moment {
                generation,
                phase: Phase::Invalidated,
            },
            NativeClipboardEvent::Changed { generation, .. } => Moment {
                generation,
                phase: Phase::Changed,
            },
            NativeClipboardEvent::Captured { generation, .. } => Moment {
                generation,
                phase: Phase::Captured,
            },
        }
    }

    /// The same event in another epoch.
    pub open spec fn in_epoch(self, value: u64) -> NativeClipboardEvent {
        match self {
            NativeClipboardEvent::Invalidated { generation, .. } =>
                NativeClipboardEvent::Invalidated { generation, epoch: value },
            NativeClipboardEvent::Changed { generation, mimes, inline_text, .. } =>
                NativeClipboardEvent::Changed { generation, mimes, inline_text, epoch: value },
            NativeClipboardEvent::Captured { selection, generation, .. } =>
                NativeClipboardEvent::Captured { selection, generation, epoch: value },
        }
    }

    pub fn epoch(&self) -> (r: u64)
        ensures
            r == self.epoch_of(),
    {
        match self {
            NativeClipboardEvent::Invalidated { epoch, .. } => *epoch,
            NativeClipboardEvent::Changed { epoch, .. } => *epoch,
            NativeClipboardEvent::Captured { epoch, .. } => *epoch,
        }
    }

    pub fn stamp(&self) -> (r: Moment)
        ensures
            r == self.moment(),
    {
        match self {
            NativeClipboardEvent::Invalidated { generation, .. } => Moment {
                generation: *generation,
                phase: Phase::Invalidated,
            },
            NativeClipboardEvent::Changed { generation, .. } => Moment {
                generation: *generation,
                phase: Phase::Changed,
            },
            NativeClipboardEvent::Captured { generation, .. } => Moment {
                generation: *generation,
                phase: Phase::Captured,
            },
        }
    }

    pub fn generation(&self) -> (r: u64)
        ensures
            r == self.moment().generation,
    {
        self.stamp().generation
    }

    pub fn bind_epoch(self, value: u64) -> (r: NativeClipboardEvent)
        ensures
            r == self.in_epoch(value),
    {
        match self {
            NativeClipboardEvent::Invalidated { generation, .. } =>
                NativeClipboardEvent::Invalidated { generation, epoch: value },
            NativeClipboardEvent::Changed { generation, mimes, inline_text, .. } =>
                NativeClipboardEvent::Changed { generation, mimes, inline_text, epoch: value },
            NativeClipboardEvent::Captured { selection, generation, .. } =>
                NativeClipboardEvent::Captured { selection, generation, epoch: value },
        }
    }
}

/// The latest event of the clipboard that nobody took yet.
#[derive(Debug)]
pub struct Pending {
    pub epoch: u64,
    pub closed: bool,
    pub latest: Option<Moment>,
    pub event: Option<NativeClipboardEvent>,
}

/// An event is put in: late ones are dropped, and one generation keeps the epoch of its
/// first event.
pub open spec fn submitted(before: Pending, event: NativeClipboardEvent) -> Pending {
    let moment = event.moment();
    if before.closed || !counts_after(before.latest, moment) {
        before
    } else {
        let epoch = if before.latest matches Some(latest) && latest.generation
            >= moment.generation {
            before.epoch
        } else {
            event.epoch_of()
        };
        Pending { epoch, latest: Some(moment), event: Some(event.in_epoch(epoch)), ..before }
    }
}

impl Pending {
    pub fn new() -> (r: Self)
        ensures
            r == (Pending { epoch: 0, closed: false, latest: None, event: None }),
    {
        Pending { epoch: 0, closed: false, latest: None, event: None }
    }

    /// Puts an event in; refused once closed.
    pub fn send(&mut self, event: NativeClipboardEvent) -> (r: bool)
        ensures
            r == !old(self).closed,
            *final(self) == submitted(*old(self), event),
    {
        if self.closed {
            return false;
        }
        let moment = event.stamp();
        if !counts(self.latest, moment) {
            return true;
        }
        let older: bool = match self.latest {
            Some(latest) => latest.generation >= moment.generation,
            None => false,
        };
        if !older {
            self.epoch = event.epoch();
        }
        self.latest = Some(moment);
        self.event = Some(event.bind_epoch(self.epoch));
        true
    }

    pub fn latest_generation(&self) -> (r: Option<u64>)
        ensures
            r == match self.latest {
                Some(latest) => Some(latest.generation),
                None => None,
            },
    {
        match self.latest {
            Some(latest) => Some(latest.generation),
            None => None,
        }
    }

    /// Something else replaced the clipboard: what was put in no longer counts.
    pub fn replace_pending(&mut self) -> (r: Option<u64>)
        ensures
            r == (match old(self).latest {
                Some(latest) => Some(latest.generation),
                None => None,
            }),
            *final(self) == (Pending {
                latest: match old(self).latest {
                    Some(latest) => Some(
                        Moment { generation: latest.generation, phase: Phase::Replaced },
                    ),
                    None => None,
                },
                event: None,
                ..*old(self)
            }),
    {
        let generation: Option<u64> = self.latest_generation();
        if let Some(generation) = generation {
            self.latest = Some(Moment { generation, phase: Phase::Replaced });
        }
        self.event = None;
        generation
    }

    /// Takes the event out.
    pub fn take(&mut self) -> (r: Option<NativeClipboardEvent>)
        ensures
            r == old(self).event,
            *final(self) == (Pending { event: None, ..*old(self) }),
    {
        self.event.take()
    }

    pub fn close(&mut self)
        ensures
            *final(self) == (Pending { closed: true, event: None, ..*old(self) }),
    {
        self.closed = true;
        self.event = None;
    }
}

/// The latest moment that was acted on.
#[derive(Clone, Copy, Debug, PartialEq, Eq, Structural)]
pub struct ClipboardClock {
    pub stamp: Option<Moment>,
}

/// The clock once what was submitted is invalid.
pub open spec fn invalidated(clock: ClipboardClock, submitted: Option<u64>) -> ClipboardClock {
    let generation = match (clock.stamp, submitted) {
        (Some(moment), Some(other)) => Some(
            if moment.generation > other {
                moment.generation
            } else {
                other
            },
        ),
        (Some(moment), None) => Some(moment.generation),
        (None, other) => other,
    };
    match generation {
        Some(generation) => ClipboardClock {
            stamp: Some(Moment { generation, phase: Phase::Replaced }),
        },
        None => clock,
    }
}

impl ClipboardClock {
    pub fn new() -> (r: Self)
        ensures
            r == (ClipboardClock { stamp: None }),
    {
        ClipboardClock { stamp: None }
    }

    pub fn ordered(&self) -> (r: bool)
        ensures
            r == (self.stamp is Some),
    {
        self.stamp.is_some()
    }

    /// Whether an event counts; then it is the latest.
    pub fn accept(&mut self, event: &NativeClipboardEvent) -> (r: bool)
        ensures
            r == counts_after(old(self).stamp, event.moment()),
            *final(self) == if r {
                ClipboardClock { stamp: Some(event.moment()) }
            } else {
                *old(self)
            },
    {
        let moment = event.stamp();
        if !counts(self.stamp, moment) {
            return false;
        }
        self.stamp = Some(moment);
        true
    }

    /// What was submitted up to now no longer counts.
    pub fn invalidate_pending(&mut self, submitted: Option<u64>)
        ensures
            *final(self) == invalidated(*old(self), submitted),
    {
        let generation: Option<u64> = match (self.stamp, submitted) {
            (Some(moment), Some(other)) => Some(
                if moment.generation > other {
                    moment.generation
                } else {
                    other
                },
            ),
            (Some(moment), None) => Some(moment.generation),
            (None, other) => other,
        };
        if let Some(generation) = generation {
            self.stamp = Some(Moment { generation, phase: Phase::Replaced });
        }
    }
}

/// Of events that count one after the other, each is later than all before: none counts
/// twice, and none counts after a later one.
pub proof fn only_later_events_count(clock: ClipboardClock, first: Moment, second: Moment)
    requires
        counts_after(clock.stamp, first),
        counts_after(Some(first), second),
    ensures
        counts_after(clock.stamp, second),
        !counts_after(Some(second), first),
        !counts_after(Some(second), second),
{
}

/// A generation that was replaced never counts again, whether its event was still waiting
/// or was taken already.
pub proof fn a_replaced_generation_never_counts(clock: ClipboardClock, generation: u64, phase: Phase)
    ensures
        !counts_after(
            invalidated(clock, Some(generation)).stamp,
            Moment { generation, phase },
        ),
{
}

/// A capture that comes late keeps the epoch in which its generation began, so that what
/// was shut off in between does not come back.
pub proof fn a_late_capture_keeps_its_epoch(
    before: Pending,
    first: NativeClipboardEvent,
    late: NativeClipboardEvent,
)
    requires
        !before.closed,
        counts_after(before.latest, first.moment()),
        before.latest matches Some(latest) ==> latest.generation < first.moment().generation,
        late.moment().generation == first.moment().generation,
        follows(late.moment(), first.moment()),
    ensures
        submitted(submitted(before, first), late).event == Some(late.in_epoch(first.epoch_of())),
{
}

} // verus!
