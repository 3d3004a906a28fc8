//! What the machines' clipboards hold, and to whom files on them are offered.

use super::clipboard_clock::{counts_after, invalidated, ClipboardClock, NativeClipboardEvent};
use super::notice::{just, plain, Notice, Trouble};
use super::state::{Engine, Focus, Mind};
use crate::clipboard::{
    exceeds, has_mime, offers, others, origin_place, place, Chunk, Fetch, RemoteFetch, Transfers,
    TransfersView, CLIP_MAX_TOTAL,
};
use crate::files::records::LocalSelection;
use crate::machine::{supersedes, MachineId, Stamp};
use crate::text::{byte_count, byte_len};
use std::sync::Arc;
use vstd::prelude::*;

verus! {

/// Clipboard contents that may be read at the same time.
pub const MAX_READS: usize = 8;

/// Formats that a clipboard may have.
pub const MAX_MIMES: usize = 64;

/// Bytes of a format's name.
pub const MAX_MIME: usize = 256;

/// Bytes of text that go along with an offer.
pub const CLIP_INLINE_TEXT_MAX: usize = 0x1_0000;

/// What machines tell each other about clipboards.
#[derive(Debug)]
pub enum ClipFrame {
    Offer { id: u64, stamp: Stamp, mimes: Arc<Vec<String>>, inline_text: Option<String> },
    Request { id: u64, request: u64, mime: String },
    Chunk { request: u64, data: Vec<u8>, last: bool },
    Abort { request: u64, reason: Notice },
    FileRef { stamp: Stamp, generation: u64 },
    FileRoute { stamp: Stamp, generation: u64, recipient: MachineId },
}

/// What is to be done.
#[derive(Debug)]
pub enum ClipAct {
    Send { to: MachineId, frame: ClipFrame },
    Broadcast(ClipFrame),
    /// Puts another machine's offer on this clipboard.
    Show { fetch: RemoteFetch, inline_text: Option<String> },
    /// Reads this clipboard for another machine.
    Read { from: MachineId, request: u64, mime: String },
    /// What was fetched from another machine.
    Fetched { from: MachineId, request: u64, bytes: Vec<u8> },
    /// What was to be fetched from another machine does not come.
    Unfetched { from: MachineId, request: u64 },
    CaptureFiles { selection: Arc<LocalSelection>, generation: u64, epoch: u64 },
    ClearFiles,
    RouteFiles { recipient: MachineId, generation: u64 },
    /// Something that is shown changed.
    Touch,
}

/// Files on a machine's clipboard.
#[derive(Debug)]
pub struct FileClipboardRef {
    pub stamp: Stamp,
    pub generation: u64,
}

impl Clone for FileClipboardRef {
    fn clone(&self) -> (r: Self)
        ensures
            r == *self,
    {
        FileClipboardRef { stamp: self.stamp.clone(), generation: self.generation }
    }
}

pub struct Clip {
    pub lamport: u64,
    pub seen: Option<Stamp>,
    /// Text that came from another machine's offer.
    pub last_inline: Option<String>,
    pub offer_id: u64,
    pub live_offer: Option<(u64, Arc<Vec<String>>)>,
    pub fetches: Transfers,
    /// Contents being read for other machines.
    pub reads: usize,
    pub file: Option<FileClipboardRef>,
    /// The last offer of files, and to whom.
    pub route: Option<(Stamp, MachineId)>,
    pub local_epoch: u64,
    pub clock: ClipboardClock,
    pub error: Option<Notice>,
    /// File sharing is on.
    pub files_enabled: bool,
    /// File sharing takes changes of the clipboard.
    pub files_open: bool,
    /// Why file sharing takes no commands, where it takes none.
    pub queue_fault: Option<String>,
    pub files_epoch: u64,
    pub outbox: Vec<ClipAct>,
}

pub ghost struct ClipMind {
    pub lamport: u64,
    pub seen: Option<Stamp>,
    pub last_inline: Option<String>,
    pub offer_id: u64,
    pub live_offer: Option<(u64, Arc<Vec<String>>)>,
    pub fetches: TransfersView,
    pub reads: usize,
    pub file: Option<FileClipboardRef>,
    pub route: Option<(Stamp, MachineId)>,
    pub local_epoch: u64,
    pub clock: ClipboardClock,
    pub error: Option<Notice>,
    pub files_enabled: bool,
    pub files_open: bool,
    pub queue_fault: Option<String>,
    pub files_epoch: u64,
    pub outbox: Seq<ClipAct>,
}

impl View for Clip {
    type V = ClipMind;

    open spec fn view(&self) -> ClipMind {
        ClipMind {
            lamport: self.lamport,
            seen: self.seen,
            last_inline: self.last_inline,
            offer_id: self.offer_id,
            live_offer: self.live_offer,
            fetches: self.fetches@,
            reads: self.reads,
            file: self.file,
            route: self.route,
            local_epoch: self.local_epoch,
            clock: self.clock,
            error: self.error,
            files_enabled: self.files_enabled,
            files_open: self.files_open,
            queue_fault: self.queue_fault,
            files_epoch: self.files_epoch,
            outbox: self.outbox@,
        }
    }
}

/// The same text.
pub open spec fn same_text(a: Option<String>, b: Option<String>) -> bool {
    match (a, b) {
        (Some(x), Some(y)) => x@ == y@,
        _ => false,
    }
}

pub open spec fn emptied(fetches: TransfersView) -> TransfersView {
    TransfersView {
        generation: vstd::wrapping::u64_specs::wrapping_add(fetches.generation, 1),
        pending: Seq::empty(),
        ..fetches
    }
}

/// What is fetched once a machine's connection ended.
pub open spec fn parted(fetches: TransfersView, from: Seq<char>) -> TransfersView {
    let at = origin_place(fetches.origins, from);
    TransfersView {
        origins: if at == fetches.origins.len() {
            fetches.origins
        } else {
            fetches.origins.remove(at)
        },
        pending: others(fetches.pending, from),
        ..fetches
    }
}

/// A piece of what is fetched came in: nobody waits for it, it is too much, it is kept, or it
/// was the last.
pub open spec fn pieced(
    before: ClipMind,
    after: ClipMind,
    from: MachineId,
    request: u64,
    data: Seq<u8>,
    last: bool,
) -> bool {
    let pending = before.fetches.pending;
    let at = place(pending, from@, request);
    let without = TransfersView { pending: pending.remove(at), ..before.fetches };
    if at == pending.len() {
        after == before
    } else if exceeds(pending, at, data) {
        after == ClipMind { fetches: without, ..before }.doing(
            ClipAct::Unfetched { from, request },
        )
    } else if last {
        &&& after.outbox.len() == before.outbox.len() + 1
        &&& after.outbox.last() matches ClipAct::Fetched { from: sender, request: asked, bytes }
        &&& sender == from
        &&& asked == request
        &&& bytes@ == pending[at].bytes + data
        &&& after == ClipMind { fetches: without, ..before }.doing(after.outbox.last())
    } else {
        after == ClipMind {
            fetches: TransfersView {
                pending: without.pending.push(
                    Fetch { bytes: pending[at].bytes + data, ..pending[at] },
                ),
                ..before.fetches
            },
            ..before
        }
    }
}

impl Mind {
    /// A machine understands files.
    pub open spec fn takes_files(self, id: Seq<char>) -> bool {
        self.connected(id) && self.peer(id).caps.files
    }

    pub open spec fn takes_clipboard(self, id: Seq<char>) -> bool {
        self.knows(id) && self.peer(id).caps.clipboard
    }
}

impl ClipMind {
    pub open spec fn doing(self, act: ClipAct) -> ClipMind {
        ClipMind { outbox: self.outbox.push(act), ..self }
    }

    pub open spec fn posted(self, mind: Mind, to: MachineId, frame: ClipFrame) -> ClipMind {
        if mind.sends(to@) {
            self.doing(ClipAct::Send { to, frame })
        } else {
            self
        }
    }

    pub open spec fn wrong(self, trouble: Trouble) -> ClipMind {
        ClipMind { error: Some(plain(trouble)), ..self }.doing(ClipAct::Touch)
    }

    /// This clipboard changed: the others are told, unless it was theirs.
    pub open spec fn changed(
        self,
        mind: Mind,
        mimes: Arc<Vec<String>>,
        inline_text: Option<String>,
    ) -> ClipMind {
        if !mind.clipboard_sync || same_text(inline_text, self.last_inline) {
            self
        } else {
            let stamp = Stamp { lamport: (self.lamport + 1) as u64, writer: mind.me.id };
            let id = (self.offer_id + 1) as u64;
            ClipMind {
                lamport: stamp.lamport,
                seen: Some(stamp),
                offer_id: id,
                live_offer: Some((id, mimes)),
                ..self
            }.doing(ClipAct::Broadcast(ClipFrame::Offer { id, stamp, mimes, inline_text }))
        }
    }

    /// Another machine's clipboard changed: a later offer takes the place of this one's.
    pub open spec fn offered(
        self,
        mind: Mind,
        from: MachineId,
        id: u64,
        stamp: Stamp,
        mimes: Arc<Vec<String>>,
        inline_text: Option<String>,
    ) -> ClipMind {
        let noted = self.counted(stamp);
        if !mind.clipboard_sync || !mind.takes_clipboard(from@) || (self.seen is Some
            && !supersedes(stamp, self.seen->0)) {
            noted
        } else {
            let fetches = self.fetches.offering(from@);
            ClipMind { seen: Some(stamp), last_inline: inline_text, fetches, ..noted }.doing(
                ClipAct::Show { fetch: fetches.fetch_of(from, id, mimes), inline_text },
            )
        }
    }

    pub open spec fn counted(self, stamp: Stamp) -> ClipMind {
        ClipMind {
            lamport: if stamp.lamport > self.lamport {
                stamp.lamport
            } else {
                self.lamport
            },
            ..self
        }
    }

    /// What is asked for is on this clipboard.
    pub open spec fn has(self, mind: Mind, id: u64, mime: Seq<char>) -> bool {
        mind.clipboard_sync && (self.live_offer matches Some((offer, mimes)) && offer == id
            && offers(mimes@, mime))
    }

    /// Another machine asks for what is on this clipboard.
    pub open spec fn asked(self, mind: Mind, from: MachineId, id: u64, request: u64, mime: String) -> ClipMind {
        if !self.has(mind, id, mime@) {
            self.posted(
                mind,
                from,
                ClipFrame::Abort { request, reason: plain(Trouble::ClipboardGone) },
            )
        } else if self.reads >= MAX_READS {
            self.posted(
                mind,
                from,
                ClipFrame::Abort { request, reason: plain(Trouble::ClipboardBusy) },
            )
        } else {
            ClipMind { reads: (self.reads + 1) as usize, ..self }.doing(
                ClipAct::Read { from, request, mime },
            )
        }
    }

    /// What is fetched does not come.
    pub open spec fn aborted(self, from: MachineId, request: u64) -> ClipMind {
        let at = place(self.fetches.pending, from@, request);
        ClipMind {
            fetches: if at == self.fetches.pending.len() {
                self.fetches
            } else {
                TransfersView { pending: self.fetches.pending.remove(at), ..self.fetches }
            },
            ..self
        }.doing(ClipAct::Unfetched { from, request })
    }

    /// Files may be shared through the clipboard.
    pub open spec fn files_ready(self, mind: Mind) -> bool {
        mind.clipboard_sync && mind.master_enabled && mind.enabled(mind.me.id@)
            && self.files_enabled
    }

    pub open spec fn files_of(self, id: Seq<char>) -> bool {
        self.file matches Some(file) && file.stamp.writer@ == id
    }

    /// The files of this clipboard are gone.
    pub open spec fn retired(self, mind: Mind) -> ClipMind {
        let gone = if self.files_of(mind.me.id@) {
            ClipMind { file: None, route: None, ..self }
        } else {
            self
        };
        gone.clear_sent()
    }

    /// File sharing is told to forget the clipboard's files.
    pub open spec fn clear_sent(self) -> ClipMind {
        if self.files_open {
            self.doing(ClipAct::ClearFiles).doing(ClipAct::Touch)
        } else {
            self.wrong(Trouble::FileClipboardStopped)
        }
    }

    pub open spec fn stale_retired(self, mind: Mind) -> ClipMind {
        if self.local_epoch != self.files_epoch && self.files_of(mind.me.id@) {
            self.retired(mind)
        } else {
            self
        }
    }

    pub open spec fn files_cleared(self) -> ClipMind {
        ClipMind { file: None, route: None, ..self }.clear_sent()
    }

    /// The peers that understand files are told of those on this clipboard.
    pub open spec fn announced(self, mind: Mind, stamp: Stamp, generation: u64, n: nat) -> ClipMind
        decreases n,
    {
        if n == 0 {
            self
        } else {
            let before = self.announced(mind, stamp, generation, (n - 1) as nat);
            let peer = mind.peers[n - 1];
            if peer.connected && mind.enabled(peer.id@) && peer.caps.files {
                before.posted(mind, peer.id, ClipFrame::FileRef { stamp, generation })
            } else {
                before
            }
        }
    }

    /// Who should be offered the files: the machine that has the pointer.
    pub open spec fn recipient(self, mind: Mind) -> MachineId {
        match mind.focus {
            Focus::Remote(target) => target,
            _ => mind.me.id,
        }
    }

    /// Files are offered to the machine that has the pointer, once.
    pub open spec fn routed(self, mind: Mind) -> ClipMind {
        if !self.files_ready(mind) || !mind.claimed_by(mind.me.id@) {
            self
        } else if mind.focus is Driven {
            ClipMind { route: None, ..self }
        } else {
            let to = self.recipient(mind);
            match self.file {
                None => self,
                Some(file) => if file.stamp.writer@ == to@ || self.was_routed(file.stamp, to@) {
                    self
                } else if file.stamp.writer@ == mind.me.id@ {
                    if self.queue_fault is None {
                        ClipMind { route: Some((file.stamp, to)), ..self }.doing(
                            ClipAct::RouteFiles { recipient: to, generation: file.generation },
                        )
                    } else {
                        self
                    }
                } else if mind.sends(file.stamp.writer@) {
                    ClipMind { route: Some((file.stamp, to)), ..self }.posted(
                        mind,
                        file.stamp.writer,
                        ClipFrame::FileRoute {
                            stamp: file.stamp,
                            generation: file.generation,
                            recipient: to,
                        },
                    )
                } else {
                    self
                },
            }
        }
    }

    pub open spec fn was_routed(self, stamp: Stamp, to: Seq<char>) -> bool {
        self.route matches Some((last, machine)) && last.lamport == stamp.lamport
            && last.writer@ == stamp.writer@ && machine@ == to
    }

    /// Files were put on this clipboard.
    pub open spec fn captured(
        self,
        mind: Mind,
        selection: Arc<LocalSelection>,
        generation: u64,
        epoch: u64,
    ) -> ClipMind {
        if !self.files_ready(mind) {
            self
        } else if !selection.is_valid() {
            self.wrong(Trouble::ClipboardSelection)
        } else if !self.files_open {
            self.wrong(Trouble::FileClipboardStopped)
        } else {
            let stamp = Stamp { lamport: (self.lamport + 1) as u64, writer: mind.me.id };
            let held = ClipMind {
                local_epoch: epoch,
                fetches: emptied(self.fetches),
                live_offer: None,
                lamport: stamp.lamport,
                seen: Some(stamp),
                file: Some(FileClipboardRef { stamp, generation }),
                route: None,
                ..self.doing(ClipAct::CaptureFiles { selection, generation, epoch })
            };
            held.announced(mind, stamp, generation, mind.peers.len()).routed(mind).doing(
                ClipAct::Touch,
            )
        }
    }

    /// What was submitted of this clipboard no longer counts.
    pub open spec fn superseded(self, mind: Mind, replaced: Option<u64>) -> ClipMind {
        ClipMind { clock: invalidated(self.clock, replaced), ..self }.retired(mind)
    }

    /// Another machine's files may take the place of this clipboard.
    pub open spec fn admits(self, mind: Mind, from: Seq<char>, stamp: Stamp) -> bool {
        &&& self.files_ready(mind)
        &&& mind.enabled(from)
        &&& mind.usable(from)
        &&& stamp.writer@ == from
        &&& mind.takes_files(from)
        &&& !(self.seen is Some && !supersedes(stamp, self.seen->0))
    }

    /// Files were put on another machine's clipboard.
    pub open spec fn file_heard(
        self,
        mind: Mind,
        from: Seq<char>,
        stamp: Stamp,
        generation: u64,
        replaced: Option<u64>,
    ) -> ClipMind {
        if !self.admits(mind, from, stamp) {
            self
        } else {
            let cleared = self.counted(stamp).superseded(mind, replaced).files_cleared();
            ClipMind {
                fetches: emptied(self.fetches),
                live_offer: None,
                seen: Some(stamp),
                file: Some(FileClipboardRef { stamp, generation }),
                ..cleared
            }.routed(mind).doing(ClipAct::Touch)
        }
    }

    /// The source of input asks that files of this clipboard be offered to a machine.
    pub open spec fn route_heard(
        self,
        mind: Mind,
        from: Seq<char>,
        stamp: Stamp,
        generation: u64,
        recipient: MachineId,
    ) -> ClipMind {
        if !self.files_ready(mind) || !mind.claimed_by(from) || !self.is_own(mind, stamp, generation)
            || !mind.enabled(from) || !mind.usable(from) || !mind.enabled(recipient@)
            || !mind.usable(recipient@) {
            self
        } else if self.queue_fault is Some {
            ClipMind {
                error: Some(Notice { what: Trouble::FileQueue, detail: self.queue_fault }),
                ..self
            }.doing(ClipAct::Touch)
        } else {
            self.doing(ClipAct::RouteFiles { recipient, generation })
        }
    }

    pub open spec fn is_own(self, mind: Mind, stamp: Stamp, generation: u64) -> bool {
        self.file matches Some(file) && file.stamp.lamport == stamp.lamport
            && file.stamp.writer@ == stamp.writer@ && file.generation == generation
            && stamp.writer@ == mind.me.id@
    }

    /// A machine is told of the files on this clipboard.
    pub open spec fn file_told(self, mind: Mind, peer: MachineId) -> ClipMind {
        if self.files_ready(mind) && mind.enabled(peer@) && mind.takes_files(peer@)
            && self.files_of(mind.me.id@) {
            self.posted(
                mind,
                peer,
                ClipFrame::FileRef {
                    stamp: self.file->0.stamp,
                    generation: self.file->0.generation,
                },
            )
        } else {
            self
        }
    }

    /// Something happened to this clipboard.
    pub open spec fn happened(self, mind: Mind, event: NativeClipboardEvent) -> ClipMind {
        if event.epoch_of() != self.files_epoch {
            ClipMind {
                clock: invalidated(self.clock, Some(event.moment().generation)),
                ..self
            }.stale_retired(mind)
        } else if !counts_after(self.clock.stamp, event.moment()) {
            self
        } else {
            let ticked = ClipMind {
                clock: ClipboardClock { stamp: Some(event.moment()) },
                ..self
            };
            match event {
                NativeClipboardEvent::Invalidated { .. } => ticked.retired(mind),
                NativeClipboardEvent::Changed { mimes, inline_text, .. } => ticked.changed(
                    mind,
                    mimes,
                    inline_text,
                ),
                NativeClipboardEvent::Captured { selection, generation, epoch } =>
                    ticked.captured(mind, selection, generation, epoch),
            }
        }
    }
}

fn clone_text(text: &Option<String>) -> (r: Option<String>)
    ensures
        r == *text,
{
    match text {
        Some(text) => Some(text.clone()),
        None => None,
    }
}

/// A change of the clipboard that is small enough to be told.
pub open spec fn is_tellable(mimes: Seq<String>, inline_text: Option<String>) -> bool {
    &&& mimes.len() <= MAX_MIMES
    &&& forall|i: int| 0 <= i < mimes.len() ==> byte_count((#[trigger] mimes[i])@) <= MAX_MIME
    &&& inline_text matches Some(text) ==> byte_count(text@) <= CLIP_INLINE_TEXT_MAX
}

pub fn tellable(mimes: &Vec<String>, inline_text: &Option<String>) -> (r: bool)
    ensures
        r == is_tellable(mimes@, *inline_text),
{
    if mimes.len() > MAX_MIMES {
        return false;
    }
    for i in 0..mimes.len()
        invariant
            forall|k: int| 0 <= k < i ==> byte_count((#[trigger] mimes@[k])@) <= MAX_MIME,
    {
        if byte_len(mimes[i].as_str()) > MAX_MIME {
            return false;
        }
    }
    match inline_text {
        Some(text) => byte_len(text.as_str()) <= CLIP_INLINE_TEXT_MAX,
        None => true,
    }
}

impl Clip {
    pub open spec fn wf(&self) -> bool {
        self.fetches@.wf()
    }

    /// Nothing is on any clipboard yet.
    pub fn new() -> (r: Self)
        ensures
            r.wf(),
            r@ == (ClipMind {
                lamport: 0,
                seen: None,
                last_inline: None,
                offer_id: 0,
                live_offer: None,
                fetches: r@.fetches,
                reads: 0,
                file: None,
                route: None,
                local_epoch: 0,
                clock: ClipboardClock { stamp: None },
                error: None,
                files_enabled: false,
                files_open: true,
                queue_fault: None,
                files_epoch: 0,
                outbox: Seq::empty(),
            }),
            r@.fetches.pending.len() == 0,
    {
        Clip {
            lamport: 0,
            seen: None,
            last_inline: None,
            offer_id: 0,
            live_offer: None,
            fetches: Transfers::default(),
            reads: 0,
            file: None,
            route: None,
            local_epoch: 0,
            clock: ClipboardClock::new(),
            error: None,
            files_enabled: false,
            files_open: true,
            queue_fault: None,
            files_epoch: 0,
            outbox: Vec::new(),
        }
    }

    fn act(&mut self, act: ClipAct)
        requires
            old(self).wf(),
        ensures
            final(self).wf(),
            final(self)@ == old(self)@.doing(act),
    {
        self.outbox.push(act);
    }

    fn send(&mut self, engine: &Engine, to: &MachineId, frame: ClipFrame) -> (r: bool)
        requires
            old(self).wf(),
        ensures
            final(self).wf(),
            r == engine@.sends(to@),
            final(self)@ == old(self)@.posted(engine@, *to, frame),
    {
        if engine.takes_frames(to) {
            self.outbox.push(ClipAct::Send { to: to.clone(), frame });
            true
        } else {
            false
        }
    }

    fn complain(&mut self, trouble: Trouble)
        requires
            old(self).wf(),
        ensures
            final(self).wf(),
            final(self)@ == old(self)@.wrong(trouble),
    {
        self.error = Some(just(trouble));
        self.act(ClipAct::Touch);
    }

    /// This clipboard changed.
    pub fn on_clipboard_changed(
        &mut self,
        engine: &Engine,
        mimes: Arc<Vec<String>>,
        inline_text: Option<String>,
    )
        requires
            old(self).wf(),
            old(self)@.lamport < u64::MAX,
            old(self)@.offer_id < u64::MAX,
        ensures
            final(self).wf(),
            final(self)@ == old(self)@.changed(engine@, mimes, inline_text),
    {
        if !engine.clipboard_sync {
            return ;
        }
        let echo: bool = match (&inline_text, &self.last_inline) {
            (Some(a), Some(b)) => *a == *b,
            _ => false,
        };
        if echo {
            return ;
        }
        self.lamport = self.lamport + 1;
        let stamp = Stamp { lamport: self.lamport, writer: engine.me.id.clone() };
        self.seen = Some(stamp.clone());
        self.offer_id = self.offer_id + 1;
        let id: u64 = self.offer_id;
        self.live_offer = Some((id, mimes.clone()));
        self.act(ClipAct::Broadcast(ClipFrame::Offer { id, stamp, mimes, inline_text }));
    }

    fn is_old(&self, stamp: &Stamp) -> (r: bool)
        ensures
            r == (self@.seen is Some && !supersedes(*stamp, self@.seen->0)),
    {
        match &self.seen {
            Some(seen) => !stamp.after(seen),
            None => false,
        }
    }

    fn count(&mut self, stamp: &Stamp)
        requires
            old(self).wf(),
        ensures
            final(self).wf(),
            final(self)@ == old(self)@.counted(*stamp),
    {
        if stamp.lamport > self.lamport {
            self.lamport = stamp.lamport;
        }
    }

    fn understands_clipboard(engine: &Engine, id: &MachineId) -> (r: bool)
        ensures
            r == engine@.takes_clipboard(id@),
    {
        let at: usize = engine.find_peer(id);
        at < engine.peers.len() && engine.peers[at].caps.clipboard
    }

    fn understands_files(engine: &Engine, id: &MachineId) -> (r: bool)
        ensures
            r == engine@.takes_files(id@),
    {
        let at: usize = engine.find_peer(id);
        at < engine.peers.len() && engine.peers[at].connected && engine.peers[at].caps.files
    }

    /// Another machine's clipboard changed.
    pub fn on_clip_offer(
        &mut self,
        engine: &Engine,
        from: MachineId,
        id: u64,
        stamp: Stamp,
        mimes: Arc<Vec<String>>,
        inline_text: Option<String>,
    )
        requires
            old(self).wf(),
        ensures
            final(self).wf(),
            final(self)@ == old(self)@.offered(engine@, from, id, stamp, mimes, inline_text),
    {
        let late: bool = self.is_old(&stamp);
        self.count(&stamp);
        if !engine.clipboard_sync || !Clip::understands_clipboard(engine, &from) || late {
            return ;
        }
        self.seen = Some(stamp);
        self.last_inline = clone_text(&inline_text);
        let fetch = self.fetches.offer(from, id, mimes);
        self.act(ClipAct::Show { fetch, inline_text });
    }

    /// Another machine asks for what is on this clipboard.
    pub fn on_clip_request(
        &mut self,
        engine: &Engine,
        from: MachineId,
        id: u64,
        request: u64,
        mime: String,
    )
        requires
            old(self).wf(),
        ensures
            final(self).wf(),
            final(self)@ == old(self)@.asked(engine@, from, id, request, mime),
    {
        let live: bool = engine.clipboard_sync && match &self.live_offer {
            Some((offer, mimes)) => *offer == id && has_mime(mimes, &mime),
            None => false,
        };
        if !live {
            let reason = just(Trouble::ClipboardGone);
            self.send(engine, &from, ClipFrame::Abort { request, reason });
            return ;
        }
        if self.reads >= MAX_READS {
            let reason = just(Trouble::ClipboardBusy);
            self.send(engine, &from, ClipFrame::Abort { request, reason });
            return ;
        }
        self.reads = self.reads + 1;
        self.act(ClipAct::Read { from, request, mime });
    }

    /// Contents were read, or could not be.
    pub fn read_done(&mut self)
        requires
            old(self).wf(),
        ensures
            final(self).wf(),
            final(self)@ == (ClipMind {
                reads: if old(self)@.reads > 0 {
                    (old(self)@.reads - 1) as usize
                } else {
                    0
                },
                ..old(self)@
            }),
    {
        if self.reads > 0 {
            self.reads = self.reads - 1;
        }
    }

    /// A piece of what is fetched came in.
    pub fn on_clip_chunk(&mut self, from: MachineId, request: u64, data: Vec<u8>, last: bool)
        requires
            old(self).wf(),
        ensures
            final(self).wf(),
            pieced(old(self)@, final(self)@, from, request, data@, last),
    {
        match self.fetches.chunk(&from, request, &data, last) {
            Chunk::Unknown | Chunk::Buffered => {},
            Chunk::TooLarge => {
                self.act(ClipAct::Unfetched { from, request });
            },
            Chunk::Complete(bytes) => {
                self.act(ClipAct::Fetched { from, request, bytes });
            },
        }
    }

    /// What is fetched does not come.
    pub fn on_clip_abort(&mut self, from: MachineId, request: u64)
        requires
            old(self).wf(),
        ensures
            final(self).wf(),
            final(self)@ == old(self)@.aborted(from, request),
    {
        self.fetches.abort(&from, request);
        self.act(ClipAct::Unfetched { from, request });
    }

    /// A machine's connection ended: nothing comes from it any more.
    pub fn forget(&mut self, from: &MachineId)
        requires
            old(self).wf(),
        ensures
            final(self).wf(),
            final(self)@ == (ClipMind { fetches: parted(old(self)@.fetches, from@), ..old(self)@ }),
    {
        self.fetches.disconnect(from);
    }

    /// Takes what another machine tells about clipboards; `replaced` is the generation of this
    /// clipboard that was about to be told.
    pub fn on_frame(
        &mut self,
        engine: &Engine,
        from: MachineId,
        frame: ClipFrame,
        replaced: Option<u64>,
    )
        requires
            old(self).wf(),
        ensures
            final(self).wf(),
            match frame {
                ClipFrame::Offer { id, stamp, mimes, inline_text } => final(self)@ == old(
                    self,
                )@.offered(engine@, from, id, stamp, mimes, inline_text),
                ClipFrame::Request { id, request, mime } => final(self)@ == old(self)@.asked(
                    engine@,
                    from,
                    id,
                    request,
                    mime,
                ),
                ClipFrame::Chunk { request, data, last } => pieced(
                    old(self)@,
                    final(self)@,
                    from,
                    request,
                    data@,
                    last,
                ),
                ClipFrame::Abort { request, .. } => final(self)@ == old(self)@.aborted(
                    from,
                    request,
                ),
                ClipFrame::FileRef { stamp, generation } => final(self)@ == old(self)@.file_heard(
                    engine@,
                    from@,
                    stamp,
                    generation,
                    replaced,
                ),
                ClipFrame::FileRoute { stamp, generation, recipient } => final(self)@ == old(
                    self,
                )@.route_heard(engine@, from@, stamp, generation, recipient),
            },
    {
        match frame {
            ClipFrame::Offer { id, stamp, mimes, inline_text } => {
                self.on_clip_offer(engine, from, id, stamp, mimes, inline_text);
            },
            ClipFrame::Request { id, request, mime } => {
                self.on_clip_request(engine, from, id, request, mime);
            },
            ClipFrame::Chunk { request, data, last } => {
                self.on_clip_chunk(from, request, data, last);
            },
            ClipFrame::Abort { request, .. } => {
                self.on_clip_abort(from, request);
            },
            ClipFrame::FileRef { stamp, generation } => {
                self.remote_file_clipboard(engine, &from, stamp, generation, replaced);
            },
            ClipFrame::FileRoute { stamp, generation, recipient } => {
                self.remote_file_route(engine, &from, stamp, generation, recipient);
            },
        }
    }

    /// Sharing the clipboard stops.
    pub fn stop(&mut self)
        requires
            old(self).wf(),
        ensures
            final(self).wf(),
            final(self)@ == (ClipMind {
                live_offer: None,
                reads: 0,
                fetches: emptied(old(self)@.fetches),
                ..old(self)@
            }),
    {
        self.live_offer = None;
        self.reads = 0;
        self.fetches.clear();
    }

    fn shares_files(&self, engine: &Engine) -> (r: bool)
        ensures
            r == self@.files_ready(engine@),
    {
        engine.clipboard_sync && engine.master_enabled && engine.machine_enabled(&engine.me.id)
            && self.files_enabled
    }

    fn holds_files_of(&self, id: &MachineId) -> (r: bool)
        ensures
            r == self@.files_of(id@),
    {
        match &self.file {
            Some(file) => file.stamp.writer.same(id),
            None => false,
        }
    }

    fn send_clear(&mut self)
        requires
            old(self).wf(),
        ensures
            final(self).wf(),
            final(self)@ == old(self)@.clear_sent(),
    {
        if self.files_open {
            self.act(ClipAct::ClearFiles);
            self.act(ClipAct::Touch);
        } else {
            self.complain(Trouble::FileClipboardStopped);
        }
    }

    fn retire_local(&mut self, engine: &Engine)
        requires
            old(self).wf(),
        ensures
            final(self).wf(),
            final(self)@ == old(self)@.retired(engine@),
    {
        if self.holds_files_of(&engine.me.id) {
            self.file = None;
            self.route = None;
        }
        self.send_clear();
    }

    /// Files of this clipboard that were captured before sharing was shut off are gone.
    pub fn retire_stale_file_clipboard(&mut self, engine: &Engine)
        requires
            old(self).wf(),
        ensures
            final(self).wf(),
            final(self)@ == old(self)@.stale_retired(engine@),
    {
        if self.local_epoch != self.files_epoch && self.holds_files_of(&engine.me.id) {
            self.retire_local(engine);
        }
    }

    pub fn clear_file_clipboard(&mut self)
        requires
            old(self).wf(),
        ensures
            final(self).wf(),
            final(self)@ == old(self)@.files_cleared(),
    {
        self.file = None;
        self.route = None;
        self.send_clear();
    }

    fn announce(&mut self, engine: &Engine, stamp: &Stamp, generation: u64)
        requires
            old(self).wf(),
        ensures
            final(self).wf(),
            final(self)@ == old(self)@.announced(
                engine@,
                *stamp,
                generation,
                engine@.peers.len(),
            ),
    {
        let ghost before = self@;
        for i in 0..engine.peers.len()
            invariant
                self.wf(),
                self@ == before.announced(engine@, *stamp, generation, i as nat),
        {
            let peer = &engine.peers[i];
            if peer.connected && engine.machine_enabled(&peer.id) && peer.caps.files {
                self.send(
                    engine,
                    &peer.id,
                    ClipFrame::FileRef { stamp: stamp.clone(), generation },
                );
            }
        }
    }

    fn is_routed(&self, stamp: &Stamp, to: &MachineId) -> (r: bool)
        ensures
            r == self@.was_routed(*stamp, to@),
    {
        match &self.route {
            Some((last, machine)) => last.same(stamp) && machine.same(to),
            None => false,
        }
    }

    /// Offers files to the machine that has the pointer.
    pub fn route_file_clipboard(&mut self, engine: &Engine)
        requires
            old(self).wf(),
        ensures
            final(self).wf(),
            final(self)@ == old(self)@.routed(engine@),
    {
        if !self.shares_files(engine) || !engine.owns_claim(&engine.me.id) {
            return ;
        }
        let to = match &engine.focus {
            Focus::Remote(target) => target.clone(),
            Focus::Local => engine.me.id.clone(),
            Focus::Driven(_) => {
                self.route = None;
                return ;
            },
        };
        let Some(file) = &self.file else {
            return ;
        };
        let file = file.clone();
        if file.stamp.writer.same(&to) || self.is_routed(&file.stamp, &to) {
            return ;
        }
        if file.stamp.writer.same(&engine.me.id) {
            if self.queue_fault.is_some() {
                return ;
            }
            self.route = Some((file.stamp, to.clone()));
            self.act(ClipAct::RouteFiles { recipient: to, generation: file.generation });
            return ;
        }
        if engine.takes_frames(&file.stamp.writer) {
            self.route = Some((file.stamp.clone(), to.clone()));
            let frame = ClipFrame::FileRoute {
                stamp: file.stamp.clone(),
                generation: file.generation,
                recipient: to,
            };
            self.send(engine, &file.stamp.writer, frame);
        }
    }

    /// Files were put on this clipboard.
    pub fn local_native_file_clipboard(
        &mut self,
        engine: &Engine,
        selection: Arc<LocalSelection>,
        generation: u64,
        epoch: u64,
    )
        requires
            old(self).wf(),
            old(self)@.lamport < u64::MAX,
        ensures
            final(self).wf(),
            final(self)@ == old(self)@.captured(engine@, selection, generation, epoch),
    {
        if !self.shares_files(engine) {
            return ;
        }
        if selection.validate().is_err() {
            self.complain(Trouble::ClipboardSelection);
            return ;
        }
        if !self.files_open {
            self.complain(Trouble::FileClipboardStopped);
            return ;
        }
        self.act(ClipAct::CaptureFiles { selection, generation, epoch });
        self.local_epoch = epoch;
        self.fetches.clear();
        self.live_offer = None;
        self.lamport = self.lamport + 1;
        let stamp = Stamp { lamport: self.lamport, writer: engine.me.id.clone() };
        self.seen = Some(stamp.clone());
        self.file = Some(FileClipboardRef { stamp: stamp.clone(), generation });
        self.route = None;
        self.announce(engine, &stamp, generation);
        self.route_file_clipboard(engine);
        self.act(ClipAct::Touch);
    }

    /// Whether this clipboard's events come in an order of their own.
    pub fn native_clipboard_ordered(&self, latest: Option<u64>) -> (r: bool)
        ensures
            r == (self@.clock.stamp is Some || latest is Some),
    {
        self.clock.ordered() || latest.is_some()
    }

    /// Files were put on this clipboard, as an observer without an order saw it.
    pub fn local_file_clipboard(
        &mut self,
        engine: &Engine,
        selection: Arc<LocalSelection>,
        generation: u64,
        latest: Option<u64>,
    )
        requires
            old(self).wf(),
            old(self)@.lamport < u64::MAX,
        ensures
            final(self).wf(),
            final(self)@ == if old(self)@.clock.stamp is Some || latest is Some {
                old(self)@.wrong(Trouble::OrderedBridge)
            } else {
                old(self)@.captured(engine@, selection, generation, old(self)@.files_epoch)
            },
    {
        if self.native_clipboard_ordered(latest) {
            self.complain(Trouble::OrderedBridge);
            return ;
        }
        let epoch: u64 = self.files_epoch;
        self.local_native_file_clipboard(engine, selection, generation, epoch);
    }

    pub fn invalidate_pending_native_clipboard(&mut self, engine: &Engine, replaced: Option<u64>)
        requires
            old(self).wf(),
        ensures
            final(self).wf(),
            final(self)@ == old(self)@.superseded(engine@, replaced),
    {
        self.clock.invalidate_pending(replaced);
        self.retire_local(engine);
    }

    /// Whether another machine's files may take the place of this clipboard.
    pub fn admits_files(&self, engine: &Engine, from: &MachineId, stamp: &Stamp) -> (r: bool)
        ensures
            r == self@.admits(engine@, from@, *stamp),
    {
        self.shares_files(engine) && engine.machine_enabled(from) && engine.peer_usable(from)
            && stamp.writer.same(from) && Clip::understands_files(engine, from) && !self.is_old(
            stamp,
        )
    }

    /// Files were put on another machine's clipboard.
    pub fn remote_file_clipboard(
        &mut self,
        engine: &Engine,
        from: &MachineId,
        stamp: Stamp,
        generation: u64,
        replaced: Option<u64>,
    )
        requires
            old(self).wf(),
        ensures
            final(self).wf(),
            final(self)@ == old(self)@.file_heard(engine@, from@, stamp, generation, replaced),
    {
        if !self.admits_files(engine, from, &stamp) {
            return ;
        }
        self.count(&stamp);
        self.invalidate_pending_native_clipboard(engine, replaced);
        self.clear_file_clipboard();
        self.fetches.clear();
        self.live_offer = None;
        self.seen = Some(stamp.clone());
        self.file = Some(FileClipboardRef { stamp, generation });
        self.route_file_clipboard(engine);
        self.act(ClipAct::Touch);
    }

    fn is_own_file(&self, engine: &Engine, stamp: &Stamp, generation: u64) -> (r: bool)
        ensures
            r == self@.is_own(engine@, *stamp, generation),
    {
        match &self.file {
            Some(file) => file.stamp.same(stamp) && file.generation == generation
                && stamp.writer.same(&engine.me.id),
            None => false,
        }
    }

    /// The source of input asks that files of this clipboard be offered to a machine.
    pub fn remote_file_route(
        &mut self,
        engine: &Engine,
        from: &MachineId,
        stamp: Stamp,
        generation: u64,
        recipient: MachineId,
    )
        requires
            old(self).wf(),
        ensures
            final(self).wf(),
            final(self)@ == old(self)@.route_heard(engine@, from@, stamp, generation, recipient),
    {
        if !self.shares_files(engine) || !engine.owns_claim(from) || !self.is_own_file(
            engine,
            &stamp,
            generation,
        ) || !engine.machine_enabled(from) || !engine.peer_usable(from) || !engine.machine_enabled(
            &recipient,
        ) || !engine.peer_usable(&recipient) {
            return ;
        }
        if let Some(why) = &self.queue_fault {
            let detail = why.clone();
            self.error = Some(Notice { what: Trouble::FileQueue, detail: Some(detail) });
            self.act(ClipAct::Touch);
            return ;
        }
        self.act(ClipAct::RouteFiles { recipient, generation });
    }

    /// Tells a machine of the files on this clipboard.
    pub fn send_file_clipboard_ref(&mut self, engine: &Engine, peer: &MachineId)
        requires
            old(self).wf(),
        ensures
            final(self).wf(),
            final(self)@ == old(self)@.file_told(engine@, *peer),
    {
        if !self.shares_files(engine) || !engine.machine_enabled(peer) || !Clip::understands_files(
            engine,
            peer,
        ) || !self.holds_files_of(&engine.me.id) {
            return ;
        }
        let Some(file) = &self.file else {
            return ;
        };
        let file = file.clone();
        self.send(
            engine,
            peer,
            ClipFrame::FileRef { stamp: file.stamp, generation: file.generation },
        );
    }

    /// Something happened to this clipboard.
    pub fn native_clipboard_event(&mut self, engine: &Engine, event: NativeClipboardEvent)
        requires
            old(self).wf(),
            old(self)@.lamport < u64::MAX,
            old(self)@.offer_id < u64::MAX,
        ensures
            final(self).wf(),
            final(self)@ == old(self)@.happened(engine@, event),
    {
        if event.epoch() != self.files_epoch {
            self.clock.invalidate_pending(Some(event.generation()));
            self.retire_stale_file_clipboard(engine);
            return ;
        }
        if !self.clock.accept(&event) {
            return ;
        }
        match event {
            NativeClipboardEvent::Invalidated { .. } => {
                self.retire_local(engine);
            },
            NativeClipboardEvent::Changed { mimes, inline_text, .. } => {
                self.on_clipboard_changed(engine, mimes, inline_text);
            },
            NativeClipboardEvent::Captured { selection, generation, epoch } => {
                self.local_native_file_clipboard(engine, selection, generation, epoch);
            },
        }
    }
}

/// A piece of clipboard contents.
#[derive(Debug)]
pub struct Piece {
    pub data: Vec<u8>,
    pub last: bool,
}

/// All pieces in a row.
pub open spec fn contents(pieces: Seq<Piece>) -> Seq<u8>
    decreases pieces.len(),
{
    if pieces.len() == 0 {
        Seq::empty()
    } else {
        contents(pieces.drop_last()) + pieces.last().data@
    }
}

/// Cuts contents into pieces: all of them in order, none too large, and the last one, and
/// only it, marked as such.
pub fn cut(bytes: &Vec<u8>, size: usize) -> (r: Vec<Piece>)
    requires
        size > 0,
    ensures
        r@.len() > 0,
        contents(r@) == bytes@,
        forall|i: int| 0 <= i < r@.len() ==> (#[trigger] r@[i]).data@.len() <= size,
        forall|i: int| 0 <= i < r@.len() ==> (#[trigger] r@[i]).last == (i == r@.len() - 1),
        forall|i: int| 0 <= i < r@.len() - 1 ==> (#[trigger] r@[i]).data@.len() == size,
        bytes@.len() > 0 ==> r@.last().data@.len() > 0,
{
    let mut out: Vec<Piece> = Vec::new();
    let mut at: usize = 0;
    let total: usize = bytes.len();
    while total - at > size
        invariant
            size > 0,
            total == bytes@.len(),
            at <= total,
            bytes@.len() > 0 ==> at < total,
            contents(out@) == bytes@.take(at as int),
            forall|i: int|
                0 <= i < out@.len() ==> (#[trigger] out@[i]).data@.len() == size && !out@[i].last,
        decreases total - at,
    {
        let data = slice_of(bytes, at, at + size);
        let ghost before = out@;
        out.push(Piece { data, last: false });
        assert(out@.drop_last() =~= before);
        assert(bytes@.take(at as int) + bytes@.subrange(at as int, at + size) =~= bytes@.take(
            at + size,
        ));
        at = at + size;
        assert(contents(out@) == bytes@.take(at as int));
    }
    let data = slice_of(bytes, at, total);
    let ghost before = out@;
    out.push(Piece { data, last: true });
    assert(out@.drop_last() =~= before);
    assert(bytes@.take(at as int) + bytes@.subrange(at as int, total as int) =~= bytes@);
    out
}

/// A frame carries a piece.
pub open spec fn carries(frame: ClipFrame, request: u64, piece: Piece) -> bool {
    frame matches ClipFrame::Chunk { request: asked, data, last } && asked == request && data@
        == piece.data@ && last == piece.last
}

/// Frames carry pieces that make up some contents, the last one marked as such.
pub open spec fn delivers(frames: Seq<ClipFrame>, request: u64, bytes: Seq<u8>, size: usize) -> bool {
    exists|pieces: Seq<Piece>|
        {
            &&& #[trigger] contents(pieces) == bytes
            &&& pieces.len() > 0
            &&& pieces.len() == frames.len()
            &&& forall|i: int|
                0 <= i < pieces.len() ==> carries(#[trigger] frames[i], request, pieces[i])
                    && pieces[i].data@.len() <= size && pieces[i].last == (i == pieces.len() - 1)
        }
}

/// What is answered to a request: the contents in pieces, unless they could not be read or are
/// too large.
pub fn answer(request: u64, result: Result<Vec<u8>, Notice>, size: usize) -> (r: Vec<ClipFrame>)
    requires
        size > 0,
    ensures
        match result {
            Err(reason) => r@ == seq![ClipFrame::Abort { request, reason }],
            Ok(bytes) => if bytes@.len() > CLIP_MAX_TOTAL {
                r@ == seq![
                    ClipFrame::Abort { request, reason: plain(Trouble::ClipboardSize) },
                ]
            } else {
                delivers(r@, request, bytes@, size)
            },
        },
{
    let mut out: Vec<ClipFrame> = Vec::new();
    match result {
        Err(reason) => {
            out.push(ClipFrame::Abort { request, reason });
            assert(out@ =~= seq![ClipFrame::Abort { request, reason }]);
        },
        Ok(bytes) => {
            if bytes.len() > CLIP_MAX_TOTAL {
                let reason = just(Trouble::ClipboardSize);
                out.push(ClipFrame::Abort { request, reason });
                assert(out@ =~= seq![
                    ClipFrame::Abort { request, reason: plain(Trouble::ClipboardSize) },
                ]);
                return out;
            }
            let mut pieces = cut(&bytes, size);
            let ghost all = pieces@;
            let count: usize = pieces.len();
            let mut i: usize = 0;
            while i < count
                invariant
                    i <= count,
                    count == all.len(),
                    pieces@ == all.skip(i as int),
                    out@.len() == i,
                    forall|k: int| 0 <= k < i ==> carries(#[trigger] out@[k], request, all[k]),
                decreases count - i,
            {
                let piece = pieces.remove(0);
                assert(piece == all[i as int]);
                assert(pieces@ =~= all.skip(i + 1));
                out.push(ClipFrame::Chunk { request, data: piece.data, last: piece.last });
                i = i + 1;
            }
            assert(contents(all) == bytes@);
            assert(delivers(out@, request, bytes@, size));
        },
    }
    out
}

fn slice_of(bytes: &Vec<u8>, from: usize, to: usize) -> (r: Vec<u8>)
    requires
        from <= to <= bytes@.len(),
    ensures
        r@ == bytes@.subrange(from as int, to as int),
{
    let mut out: Vec<u8> = Vec::new();
    for i in from..to
        invariant
            to <= bytes@.len(),
            out@ =~= bytes@.subrange(from as int, i as int),
    {
        out.push(bytes[i]);
    }
    out
}

/// What a machine put on its clipboard never comes back as a change of another's: text that
/// came with an offer is not offered again.
pub proof fn an_offer_does_not_echo(
    clip: ClipMind,
    mind: Mind,
    from: MachineId,
    id: u64,
    stamp: Stamp,
    mimes: Arc<Vec<String>>,
    text: String,
    seen_mimes: Arc<Vec<String>>,
)
    requires
        mind.clipboard_sync,
        mind.takes_clipboard(from@),
        clip.seen is Some ==> supersedes(stamp, clip.seen->0),
    ensures
        ({
            let shown = clip.offered(mind, from, id, stamp, mimes, Some(text));
            shown.changed(mind, seen_mimes, Some(text)) == shown
        }),
{
}

/// An offer that is not later than the last one seen is not shown.
pub proof fn an_old_offer_is_not_shown(
    clip: ClipMind,
    mind: Mind,
    from: MachineId,
    id: u64,
    stamp: Stamp,
    mimes: Arc<Vec<String>>,
    inline_text: Option<String>,
)
    requires
        clip.seen is Some,
        !supersedes(stamp, clip.seen->0),
    ensures
        clip.offered(mind, from, id, stamp, mimes, inline_text).outbox == clip.outbox,
        clip.offered(mind, from, id, stamp, mimes, inline_text).seen == clip.seen,
{
}

} // verus!
