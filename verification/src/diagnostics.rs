//! What is known of a connection, for whoever looks into it.

use crate::engine::notice::Notice;
use crate::input_transport::socket::Address;
use crate::machine::MachineId;
use std::sync::Arc;
use vstd::prelude::*;
use vstd::wrapping::u64_specs::wrapping_add;

verus! {

#[derive(Clone, Copy, Debug, PartialEq, Eq, Structural)]
pub enum ConnectionPhase {
    Discovered,
    Connecting,
    SendingHello,
    AwaitingWelcome,
    AwaitingHello,
    AwaitingReady,
    Connected,
    Degraded,
    Disconnected,
    Rejected,
}

impl Default for ConnectionPhase {
    fn default() -> (r: Self)
        ensures
            r == ConnectionPhase::Discovered,
    {
        ConnectionPhase::Discovered
    }
}

#[derive(Clone, Copy, Debug, PartialEq, Eq, Structural)]
pub struct TrafficSnapshot {
    pub frames_sent: u64,
    pub input_frames_sent: u64,
    pub bytes_sent: u64,
    pub max_queue_depth: u64,
    pub max_input_queue_us: u64,
    pub max_write_us: u64,
}

impl Default for TrafficSnapshot {
    fn default() -> (r: Self)
        ensures
            r == no_traffic(),
    {
        TrafficSnapshot {
            frames_sent: 0,
            input_frames_sent: 0,
            bytes_sent: 0,
            max_queue_depth: 0,
            max_input_queue_us: 0,
            max_write_us: 0,
        }
    }
}

pub open spec fn no_traffic() -> TrafficSnapshot {
    TrafficSnapshot {
        frames_sent: 0,
        input_frames_sent: 0,
        bytes_sent: 0,
        max_queue_depth: 0,
        max_input_queue_us: 0,
        max_write_us: 0,
    }
}

pub open spec fn higher(a: u64, b: u64) -> u64 {
    if a < b {
        b
    } else {
        a
    }
}

fn high(a: u64, b: u64) -> (r: u64)
    ensures
        r == higher(a, b),
{
    if a < b {
        b
    } else {
        a
    }
}

/// Counters of a connection; they start over beyond their range.
#[derive(Debug)]
pub struct Traffic {
    counts: TrafficSnapshot,
}

impl View for Traffic {
    type V = TrafficSnapshot;

    closed spec fn view(&self) -> TrafficSnapshot {
        self.counts
    }
}

impl Default for Traffic {
    fn default() -> (r: Self)
        ensures
            r@ == no_traffic(),
    {
        Traffic { counts: TrafficSnapshot::default() }
    }
}

/// The counters once frames wait in the queue.
pub open spec fn with_queued(counts: TrafficSnapshot, depth: usize) -> TrafficSnapshot {
    TrafficSnapshot {
        max_queue_depth: higher(counts.max_queue_depth, depth as u64),
        ..counts
    }
}

/// The counters once a frame was written.
pub open spec fn with_sent(
    counts: TrafficSnapshot,
    input: bool,
    bytes: usize,
    queued_us: u64,
    written_us: u64,
) -> TrafficSnapshot {
    TrafficSnapshot {
        frames_sent: wrapping_add(counts.frames_sent, 1),
        bytes_sent: wrapping_add(counts.bytes_sent, bytes as u64),
        max_write_us: higher(counts.max_write_us, written_us),
        input_frames_sent: if input {
            wrapping_add(counts.input_frames_sent, 1)
        } else {
            counts.input_frames_sent
        },
        max_input_queue_us: if input {
            higher(counts.max_input_queue_us, queued_us)
        } else {
            counts.max_input_queue_us
        },
        ..counts
    }
}

impl Traffic {
    /// Frames wait in the queue.
    pub fn queued(&mut self, depth: usize)
        ensures
            final(self)@ == with_queued(old(self)@, depth),
    {
        self.counts.max_queue_depth = high(self.counts.max_queue_depth, depth as u64);
    }

    /// A frame was written; times are in microseconds.
    pub fn sent(&mut self, input: bool, bytes: usize, queued_us: u64, written_us: u64)
        ensures
            final(self)@ == with_sent(old(self)@, input, bytes, queued_us, written_us),
    {
        self.counts.frames_sent = self.counts.frames_sent.wrapping_add(1);
        self.counts.bytes_sent = self.counts.bytes_sent.wrapping_add(bytes as u64);
        self.counts.max_write_us = high(self.counts.max_write_us, written_us);
        if input {
            self.counts.input_frames_sent = self.counts.input_frames_sent.wrapping_add(1);
            self.counts.max_input_queue_us = high(self.counts.max_input_queue_us, queued_us);
        }
    }

    pub fn snapshot(&self) -> (r: TrafficSnapshot)
        ensures
            r == self@,
    {
        self.counts
    }
}

/// Something that is counted.
pub ghost enum Counted {
    Queued { depth: usize },
    Sent { input: bool, bytes: usize, queued_us: u64, written_us: u64 },
}

pub open spec fn with_counted(counts: TrafficSnapshot, what: Counted) -> TrafficSnapshot {
    match what {
        Counted::Queued { depth } => with_queued(counts, depth),
        Counted::Sent { input, bytes, queued_us, written_us } => with_sent(
            counts,
            input,
            bytes,
            queued_us,
            written_us,
        ),
    }
}

/// The counters of a connection once all that was counted.
pub open spec fn counts_of(all: Seq<Counted>) -> TrafficSnapshot {
    all.fold_left(no_traffic(), |counts: TrafficSnapshot, what: Counted| with_counted(counts, what))
}

/// In whatever order the same things are counted, the counters end up the same.
pub proof fn the_order_of_counting_does_not_matter(one: Seq<Counted>, other: Seq<Counted>)
    requires
        one.to_multiset() == other.to_multiset(),
    ensures
        counts_of(one) == counts_of(other),
{
    let f = |counts: TrafficSnapshot, what: Counted| with_counted(counts, what);
    assert forall|x: Counted, y: Counted, v: TrafficSnapshot| #[trigger] f(f(v, x), y) == f(
        f(v, y),
        x,
    ) by {}
    vstd::seq_lib::lemma_fold_left_permutation(one, other, f, no_traffic());
}

/// The queue's depth is the greatest that was counted, nothing where none was. As long as no
/// counter starts over, all written frames are counted, and no more input frames than frames.
pub proof fn counters_say_what_was_counted(all: Seq<Counted>)
    requires
        all.len() <= u64::MAX,
    ensures
        forall|i: int|
            0 <= i < all.len() && #[trigger] all[i] is Queued ==> all[i]->depth
                <= counts_of(all).max_queue_depth,
        counts_of(all).max_queue_depth == 0 || exists|i: int|
            0 <= i < all.len() && #[trigger] all[i] is Queued && all[i]->depth
                == counts_of(all).max_queue_depth,
        counts_of(all).frames_sent == all.filter(|what: Counted| what is Sent).len(),
        counts_of(all).input_frames_sent <= counts_of(all).frames_sent,
    decreases all.len(),
{
    let written = |what: Counted| what is Sent;
    reveal(Seq::filter);
    if all.len() > 0 {
        let front = all.drop_last();
        let last = all.last();
        let before = counts_of(front);
        counters_say_what_was_counted(front);
        assert(counts_of(all) == with_counted(before, last));
        assert(front.filter(written).len() <= front.len()) by {
            front.lemma_filter_len(written);
        }
        assert forall|i: int| 0 <= i < all.len() && #[trigger] all[i] is Queued implies all[i]->depth
            <= counts_of(all).max_queue_depth by {
            if i < front.len() {
                assert(front[i] == all[i]);
            }
        }
        if counts_of(all).max_queue_depth != 0 {
            if last is Queued && last->depth == counts_of(all).max_queue_depth {
                assert(all[all.len() - 1] is Queued);
            } else {
                let i = choose|i: int|
                    0 <= i < front.len() && #[trigger] front[i] is Queued && front[i]->depth
                        == before.max_queue_depth;
                assert(all[i] is Queued && all[i]->depth == counts_of(all).max_queue_depth);
            }
        }
    }
}

#[derive(Debug)]
pub struct PeerDiagnostics {
    pub phase: ConnectionPhase,
    pub address: Option<Address>,
    pub phase_changed_ms: u64,
    pub last_connected_ms: Option<u64>,
    pub last_heartbeat_ms: Option<u64>,
    pub attempts: u64,
    pub disconnects: u64,
    pub last_error: Option<String>,
    /// Which build the machine runs.
    pub build: Option<String>,
    pub traffic: TrafficSnapshot,
}

impl Default for PeerDiagnostics {
    fn default() -> (r: Self)
        ensures
            r == (PeerDiagnostics {
                phase: ConnectionPhase::Discovered,
                address: None,
                phase_changed_ms: 0,
                last_connected_ms: None,
                last_heartbeat_ms: None,
                attempts: 0,
                disconnects: 0,
                last_error: None,
                build: None,
                traffic: no_traffic(),
            }),
    {
        PeerDiagnostics {
            phase: ConnectionPhase::Discovered,
            address: None,
            phase_changed_ms: 0,
            last_connected_ms: None,
            last_heartbeat_ms: None,
            attempts: 0,
            disconnects: 0,
            last_error: None,
            build: None,
            traffic: TrafficSnapshot::default(),
        }
    }
}

/// A connection and the machine at its other end.
#[derive(Debug)]
pub struct Contact {
    pub machine: MachineId,
    pub diagnostics: PeerDiagnostics,
}

#[derive(Debug)]
pub struct Diagnostics {
    /// Peers, each once.
    pub peers: Arc<Vec<Contact>>,
    /// Where they were last written to.
    pub export_path: Option<Arc<String>>,
    pub export_error: Option<Notice>,
}

} // verus!
