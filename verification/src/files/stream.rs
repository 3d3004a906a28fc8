//! The stream that carries the files of a transfer.

use super::records::{EntryId, EntryKind, Manifest, ManifestEntry, Token, TransferId};
use crate::bytes::{
    digits, digits_and_number_are_inverse, lemma_digits_len, lemma_range_16, push_number,
    read_number,
};
use crate::outside::{sha256, taken_in, Hasher};
use vstd::prelude::*;

verus! {

/// Bytes that are read or written at once.
pub const FILE_CHUNK: u64 = 0x4_0000;

/// Bytes that open a stream.
pub const HEADER: usize = 56;

/// How a stream starts.
pub open spec fn magic() -> Seq<u8> {
    seq![0x53u8, 0x50, 0x4c, 0x46, 0x49, 0x4c, 0x45, 0x31]
}

/// How a stream ends.
pub open spec fn seal() -> Seq<u8> {
    seq![0x44u8, 0x4f, 0x4e, 0x45]
}

fn magic_bytes() -> (r: Vec<u8>)
    ensures
        r@ == magic(),
{
    let out: Vec<u8> = vec![0x53, 0x50, 0x4c, 0x46, 0x49, 0x4c, 0x45, 0x31];
    assert(out@ =~= magic());
    out
}

fn seal_bytes() -> (r: Vec<u8>)
    ensures
        r@ == seal(),
{
    let out: Vec<u8> = vec![0x44, 0x4f, 0x4e, 0x45];
    assert(out@ =~= seal());
    out
}

/// The bytes that open the stream of a transfer.
pub open spec fn opening(transfer: TransferId, token: Token) -> Seq<u8> {
    magic() + digits(transfer.0 as nat, 16) + digits(token.high as nat, 16) + digits(
        token.low as nat,
        16,
    )
}

pub fn open_stream(transfer: TransferId, token: Token) -> (r: Vec<u8>)
    ensures
        r@ == opening(transfer, token),
        r@.len() == HEADER,
{
    let mut out = magic_bytes();
    push_number(&mut out, transfer.0);
    push_number(&mut out, token.high);
    push_number(&mut out, token.low);
    proof {
        lemma_digits_len(transfer.0 as nat, 16);
        lemma_digits_len(token.high as nat, 16);
        lemma_digits_len(token.low as nat, 16);
    }
    out
}

fn same_bytes(a: &Vec<u8>, b: &Vec<u8>) -> (r: bool)
    ensures
        r == (a@ == b@),
{
    if a.len() != b.len() {
        return false;
    }
    for i in 0..a.len()
        invariant
            a@.len() == b@.len(),
            forall|k: int| 0 <= k < i ==> (#[trigger] a@[k]) == b@[k],
    {
        if a[i] != b[i] {
            assert(a@[i as int] != b@[i as int]);
            return false;
        }
    }
    assert(a@ =~= b@);
    true
}

/// Which transfer a stream belongs to, and the secret that it shows; nothing if it is no such
/// stream.
pub fn accept_stream(header: &Vec<u8>) -> (r: Option<(TransferId, Token)>)
    requires
        header@.len() == HEADER,
    ensures
        match r {
            Some((transfer, token)) => header@ == opening(transfer, token),
            None => header@.take(8) != magic(),
        },
{
    let expected = magic_bytes();
    for i in 0..8usize
        invariant
            header@.len() == HEADER,
            expected@ == magic(),
            forall|k: int| 0 <= k < i ==> (#[trigger] header@[k]) == magic()[k],
    {
        if header[i] != expected[i] {
            assert(header@.take(8)[i as int] != magic()[i as int]);
            return None;
        }
    }
    let transfer: u128 = read_number(header, 8);
    let high: u128 = read_number(header, 24);
    let low: u128 = read_number(header, 40);
    proof {
        lemma_range_16();
        digits_and_number_are_inverse(0, header@.subrange(8, 24), 16);
        digits_and_number_are_inverse(0, header@.subrange(24, 40), 16);
        digits_and_number_are_inverse(0, header@.subrange(40, 56), 16);
        assert(header@ =~= magic() + header@.subrange(8, 24) + header@.subrange(24, 40)
            + header@.subrange(40, 56));
    }
    Some((TransferId(transfer), Token { high, low }))
}

/// What opens a stream is understood as it was meant: no two transfers or secrets open it
/// alike.
pub proof fn an_opening_is_unmistakable(a: TransferId, s: Token, b: TransferId, t: Token)
    requires
        opening(a, s) == opening(b, t),
    ensures
        a == b,
        s == t,
{
    lemma_range_16();
    let x = opening(a, s);
    lemma_digits_len(a.0 as nat, 16);
    lemma_digits_len(s.high as nat, 16);
    lemma_digits_len(s.low as nat, 16);
    lemma_digits_len(b.0 as nat, 16);
    lemma_digits_len(t.high as nat, 16);
    lemma_digits_len(t.low as nat, 16);
    assert(digits(a.0 as nat, 16) =~= x.subrange(8, 24));
    assert(digits(s.high as nat, 16) =~= x.subrange(24, 40));
    assert(digits(s.low as nat, 16) =~= x.subrange(40, 56));
    assert(digits(b.0 as nat, 16) =~= x.subrange(8, 24));
    assert(digits(t.high as nat, 16) =~= x.subrange(24, 40));
    assert(digits(t.low as nat, 16) =~= x.subrange(40, 56));
    let any = digits(0, 16);
    lemma_digits_len(0, 16);
    digits_and_number_are_inverse(a.0 as nat, any, 16);
    digits_and_number_are_inverse(b.0 as nat, any, 16);
    digits_and_number_are_inverse(s.high as nat, any, 16);
    digits_and_number_are_inverse(t.high as nat, any, 16);
    digits_and_number_are_inverse(s.low as nat, any, 16);
    digits_and_number_are_inverse(t.low as nat, any, 16);
}

/// A file that the stream carries.
#[derive(Clone, Copy, Debug, PartialEq, Eq, Structural)]
pub struct Carried {
    pub entry: EntryId,
    pub size: u64,
}

/// The files among some entries, in their order.
pub open spec fn carried(entries: Seq<ManifestEntry>) -> Seq<Carried>
    decreases entries.len(),
{
    if entries.len() == 0 {
        Seq::empty()
    } else {
        let before = carried(entries.drop_last());
        match entries.last().kind {
            EntryKind::File { size } => before.push(Carried { entry: entries.last().id, size }),
            _ => before,
        }
    }
}

pub fn carried_files(manifest: &Manifest) -> (r: Vec<Carried>)
    ensures
        r@ == carried(manifest.entries@),
{
    let mut out: Vec<Carried> = Vec::new();
    let ghost all = manifest.entries@;
    assert(all.take(0) =~= Seq::empty());
    for i in 0..manifest.entries.len()
        invariant
            all == manifest.entries@,
            out@ == carried(all.take(i as int)),
    {
        assert(all.take(i + 1).drop_last() =~= all.take(i as int));
        match &manifest.entries[i].kind {
            EntryKind::File { size } => {
                out.push(Carried { entry: manifest.entries[i].id, size: *size });
            },
            _ => {},
        }
    }
    assert(all.take(all.len() as int) =~= all);
    out
}

/// Files on the stream: each with its digest behind it.
pub open spec fn wire(files: Seq<Seq<u8>>) -> Seq<u8>
    decreases files.len(),
{
    if files.len() == 0 {
        Seq::empty()
    } else {
        wire(files.drop_last()) + files.last() + sha256(files.last())
    }
}

/// The whole stream behind what opens it.
pub open spec fn stream(files: Seq<Seq<u8>>) -> Seq<u8> {
    wire(files) + seal()
}

/// Files have the sizes that were announced.
pub open spec fn as_announced(files: Seq<Seq<u8>>, announced: Seq<Carried>) -> bool {
    &&& files.len() == announced.len()
    &&& forall|i: int| 0 <= i < files.len() ==> (#[trigger] files[i]).len() == announced[i].size
}

/// What is wrong with a stream.
#[derive(Clone, Copy, Debug, PartialEq, Eq, Structural)]
pub enum StreamFault {
    /// A file ended before its size.
    Truncated,
    /// The stream ended within a digest or the seal.
    Cut,
    Mismatch,
    Unsealed,
    Trailing,
    /// The source became shorter.
    Shrunk,
}

impl StreamFault {
    pub open spec fn words(self) -> Seq<char> {
        match self {
            StreamFault::Truncated => "file stream ended before declared size"@,
            StreamFault::Cut => "file stream ended early"@,
            StreamFault::Mismatch => "file SHA-256 mismatch"@,
            StreamFault::Unsealed => "source did not verify completed selection"@,
            StreamFault::Trailing => "unexpected trailing file data"@,
            StreamFault::Shrunk => "source truncated during transfer"@,
        }
    }

    pub fn text(self) -> (r: &'static str)
        ensures
            r@ == self.words(),
    {
        match self {
            StreamFault::Truncated => "file stream ended before declared size",
            StreamFault::Cut => "file stream ended early",
            StreamFault::Mismatch => "file SHA-256 mismatch",
            StreamFault::Unsealed => "source did not verify completed selection",
            StreamFault::Trailing => "unexpected trailing file data",
            StreamFault::Shrunk => "source truncated during transfer",
        }
    }
}

/// What a receiver is at.
#[derive(Clone, Copy, Debug, PartialEq, Eq, Structural)]
pub enum IntakePhase {
    /// The next file has to be made.
    Open,
    Data,
    Digest,
    Seal,
    End,
    Over,
    /// The stream was refused.
    Failed,
}

/// What to do with what was received.
#[derive(Clone, Copy, Debug, PartialEq, Eq, Structural)]
pub enum Got {
    /// Write it to the file.
    Keep,
    /// Read on.
    More,
    /// The file is as it was sent: it is to be brought to the disk.
    Settle(EntryId),
    /// All files were there.
    Sealed,
    /// The stream is at its end.
    Complete,
}

/// Receives the files of a transfer.
pub struct Intake {
    files: Vec<Carried>,
    at: usize,
    phase: IntakePhase,
    remaining: u64,
    hasher: Hasher,
    tail: Vec<u8>,
    heard: Ghost<Seq<u8>>,
    kept: Ghost<Seq<Seq<u8>>>,
}

pub ghost struct IntakeView {
    pub files: Seq<Carried>,
    pub phase: IntakePhase,
    /// What the file at hand has so far.
    pub fed: Seq<u8>,
    /// What was read of a digest or of the seal.
    pub tail: Seq<u8>,
    /// All that was read.
    pub heard: Seq<u8>,
    /// The files that are done.
    pub kept: Seq<Seq<u8>>,
}

impl View for Intake {
    type V = IntakeView;

    closed spec fn view(&self) -> IntakeView {
        IntakeView {
            files: self.files@,
            phase: self.phase,
            fed: if self.phase is Data || self.phase is Digest {
                taken_in(self.hasher)
            } else {
                Seq::empty()
            },
            tail: self.tail@,
            heard: self.heard@,
            kept: self.kept@,
        }
    }
}

impl IntakeView {
    /// The file at hand.
    pub open spec fn current(self) -> Carried {
        self.files[self.kept.len() as int]
    }

    /// Where a receiver goes on once a file is done.
    pub open spec fn next_phase(files: Seq<Carried>, done: nat) -> IntakePhase {
        if done < files.len() {
            IntakePhase::Open
        } else {
            IntakePhase::Seal
        }
    }

    pub open spec fn started(files: Seq<Carried>) -> IntakeView {
        IntakeView {
            files,
            phase: IntakeView::next_phase(files, 0),
            fed: Seq::empty(),
            tail: Seq::empty(),
            heard: Seq::empty(),
            kept: Seq::empty(),
        }
    }

    /// Bytes that may be read next.
    pub open spec fn wanted(self) -> int {
        match self.phase {
            IntakePhase::Data => {
                let left = self.current().size - self.fed.len();
                if left < FILE_CHUNK {
                    left
                } else {
                    FILE_CHUNK as int
                }
            },
            IntakePhase::Digest => 32 - self.tail.len(),
            IntakePhase::Seal => 4 - self.tail.len(),
            IntakePhase::End => 1,
            _ => 0,
        }
    }

    /// The file at hand was made.
    pub open spec fn opened(self) -> IntakeView {
        IntakeView {
            phase: if self.current().size == 0 {
                IntakePhase::Digest
            } else {
                IntakePhase::Data
            },
            ..self
        }
    }

    /// What becomes of some bytes; none at all are the end of the stream.
    pub open spec fn verdict(self, bytes: Seq<u8>) -> Result<Got, StreamFault> {
        match self.phase {
            IntakePhase::Data => if bytes.len() == 0 {
                Err(StreamFault::Truncated)
            } else {
                Ok(Got::Keep)
            },
            IntakePhase::Digest => if bytes.len() == 0 {
                Err(StreamFault::Cut)
            } else if self.tail.len() + bytes.len() < 32 {
                Ok(Got::More)
            } else if self.tail + bytes == sha256(self.fed) {
                Ok(Got::Settle(self.current().entry))
            } else {
                Err(StreamFault::Mismatch)
            },
            IntakePhase::Seal => if bytes.len() == 0 {
                Err(StreamFault::Cut)
            } else if self.tail.len() + bytes.len() < 4 {
                Ok(Got::More)
            } else if self.tail + bytes == seal() {
                Ok(Got::Sealed)
            } else {
                Err(StreamFault::Unsealed)
            },
            _ => if bytes.len() == 0 {
                Ok(Got::Complete)
            } else {
                Err(StreamFault::Trailing)
            },
        }
    }

    /// What is known once some bytes were taken.
    pub open spec fn after(self, bytes: Seq<u8>) -> IntakeView {
        let heard = self.heard + bytes;
        match self.verdict(bytes) {
            Ok(Got::Keep) => {
                let fed = self.fed + bytes;
                IntakeView {
                    fed,
                    heard,
                    phase: if fed.len() < self.current().size {
                        IntakePhase::Data
                    } else {
                        IntakePhase::Digest
                    },
                    ..self
                }
            },
            Ok(Got::More) => IntakeView { tail: self.tail + bytes, heard, ..self },
            Ok(Got::Settle(_)) => IntakeView {
                phase: IntakeView::next_phase(self.files, self.kept.len() + 1),
                kept: self.kept.push(self.fed),
                fed: Seq::empty(),
                tail: Seq::empty(),
                heard,
                ..self
            },
            Ok(Got::Sealed) => IntakeView {
                phase: IntakePhase::End,
                tail: Seq::empty(),
                heard,
                ..self
            },
            Ok(Got::Complete) => IntakeView { phase: IntakePhase::Over, ..self },
            Err(_) => IntakeView { phase: IntakePhase::Failed, fed: Seq::empty(), ..self },
        }
    }

    /// What was read is what some files look like on the stream, as far as it goes.
    pub open spec fn wf(self) -> bool {
        &&& self.kept.len() <= self.files.len()
        &&& forall|i: int|
            0 <= i < self.kept.len() ==> (#[trigger] self.kept[i]).len() == self.files[i].size
        &&& match self.phase {
            IntakePhase::Open => {
                &&& self.kept.len() < self.files.len()
                &&& self.fed.len() == 0
                &&& self.tail.len() == 0
                &&& self.heard == wire(self.kept)
            },
            IntakePhase::Data => {
                &&& self.kept.len() < self.files.len()
                &&& self.fed.len() < self.current().size
                &&& self.tail.len() == 0
                &&& self.heard == wire(self.kept) + self.fed
            },
            IntakePhase::Digest => {
                &&& self.kept.len() < self.files.len()
                &&& self.fed.len() == self.current().size
                &&& self.tail.len() < 32
                &&& self.heard == wire(self.kept) + self.fed + self.tail
            },
            IntakePhase::Seal => {
                &&& self.kept.len() == self.files.len()
                &&& self.fed.len() == 0
                &&& self.tail.len() < 4
                &&& self.heard == wire(self.kept) + self.tail
            },
            IntakePhase::End | IntakePhase::Over => {
                &&& self.kept.len() == self.files.len()
                &&& self.fed.len() == 0
                &&& self.tail.len() == 0
                &&& self.heard == stream(self.kept)
            },
            IntakePhase::Failed => self.fed.len() == 0,
        }
    }
}

impl Intake {
    pub closed spec fn wf(&self) -> bool {
        &&& self@.wf()
        &&& self.at == self.kept@.len()
        &&& self.phase is Open ==> taken_in(self.hasher) == Seq::<u8>::empty()
        &&& self.phase is Data ==> self.remaining == self@.current().size - self@.fed.len()
    }

    pub fn new(manifest: &Manifest) -> (r: Self)
        ensures
            r.wf(),
            r@ == IntakeView::started(carried(manifest.entries@)),
            r@.wf(),
    {
        let files = carried_files(manifest);
        let phase = if files.len() > 0 {
            IntakePhase::Open
        } else {
            IntakePhase::Seal
        };
        let r = Intake {
            files,
            at: 0,
            phase,
            remaining: 0,
            hasher: Hasher::start(),
            tail: Vec::new(),
            heard: Ghost(Seq::empty()),
            kept: Ghost(Seq::empty()),
        };
        proof {
            assert(r@.kept =~= Seq::empty());
            assert(r@.tail =~= Seq::empty());
            assert(r@.heard =~= wire(r@.kept));
            assert(r@.heard =~= wire(r@.kept) + r@.tail);
        }
        r
    }

    /// The file that has to be made before anything is read.
    pub fn opens(&self) -> (r: Option<EntryId>)
        requires
            self.wf(),
        ensures
            r == if self@.phase is Open {
                Some(self@.current().entry)
            } else {
                None
            },
    {
        if self.phase == IntakePhase::Open {
            Some(self.files[self.at].entry)
        } else {
            None
        }
    }

    /// The file was made.
    pub fn open(&mut self)
        requires
            old(self).wf(),
            old(self)@.phase is Open,
        ensures
            final(self).wf(),
            final(self)@ == old(self)@.opened(),
    {
        let size: u64 = self.files[self.at].size;
        self.remaining = size;
        self.phase = if size == 0 {
            IntakePhase::Digest
        } else {
            IntakePhase::Data
        };
        proof {
            assert(self@.fed =~= old(self)@.fed);
            assert(self@.heard =~= wire(self@.kept) + self@.fed);
            assert(self@.heard =~= wire(self@.kept) + self@.fed + self@.tail);
        }
    }

    /// How many bytes may be read.
    pub fn wants(&self) -> (r: usize)
        requires
            self.wf(),
        ensures
            r == self@.wanted(),
            r <= FILE_CHUNK,
    {
        match self.phase {
            IntakePhase::Data => if self.remaining < FILE_CHUNK {
                self.remaining as usize
            } else {
                FILE_CHUNK as usize
            },
            IntakePhase::Digest => 32 - self.tail.len(),
            IntakePhase::Seal => 4 - self.tail.len(),
            IntakePhase::End => 1,
            _ => 0,
        }
    }

    /// Takes what was read, nothing being the end of the stream. A stream is complete only if
    /// it is that of files with the announced sizes, each with its digest.
    pub fn take(&mut self, bytes: &Vec<u8>) -> (r: Result<Got, StreamFault>)
        requires
            old(self).wf(),
            !(old(self)@.phase is Open),
            !(old(self)@.phase is Over),
            !(old(self)@.phase is Failed),
            bytes@.len() <= old(self)@.wanted(),
        ensures
            final(self).wf(),
            r == old(self)@.verdict(bytes@),
            final(self)@ == old(self)@.after(bytes@),
            r == Ok::<Got, StreamFault>(Got::Complete) ==> final(self)@.heard == stream(
                final(self)@.kept,
            ) && as_announced(final(self)@.kept, final(self)@.files),
    {
        match self.phase {
            IntakePhase::Data => self.take_data(bytes),
            IntakePhase::Digest => self.take_digest(bytes),
            IntakePhase::Seal => self.take_seal(bytes),
            _ => {
                if bytes.len() == 0 {
                    self.phase = IntakePhase::Over;
                    Ok(Got::Complete)
                } else {
                    self.phase = IntakePhase::Failed;
                    Err(StreamFault::Trailing)
                }
            },
        }
    }

    fn take_data(&mut self, bytes: &Vec<u8>) -> (r: Result<Got, StreamFault>)
        requires
            old(self).wf(),
            old(self)@.phase is Data,
            bytes@.len() <= old(self)@.wanted(),
        ensures
            final(self).wf(),
            r == old(self)@.verdict(bytes@),
            final(self)@ == old(self)@.after(bytes@),
    {
        if bytes.len() == 0 {
            self.phase = IntakePhase::Failed;
            return Err(StreamFault::Truncated);
        }
        self.hasher.take_in(bytes);
        self.remaining = self.remaining - bytes.len() as u64;
        if self.remaining == 0 {
            self.phase = IntakePhase::Digest;
        }
        proof {
            self.heard@ = self.heard@ + bytes@;
            assert(self@.heard =~= wire(self@.kept) + self@.fed);
            assert(self@.heard =~= wire(self@.kept) + self@.fed + self@.tail);
        }
        Ok(Got::Keep)
    }

    fn take_digest(&mut self, bytes: &Vec<u8>) -> (r: Result<Got, StreamFault>)
        requires
            old(self).wf(),
            old(self)@.phase is Digest,
            bytes@.len() <= old(self)@.wanted(),
        ensures
            final(self).wf(),
            r == old(self)@.verdict(bytes@),
            final(self)@ == old(self)@.after(bytes@),
    {
        if bytes.len() == 0 {
            self.phase = IntakePhase::Failed;
            return Err(StreamFault::Cut);
        }
        let tail = joined(&self.tail, bytes);
        if tail.len() < 32 {
            self.tail = tail;
            proof {
                self.heard@ = self.heard@ + bytes@;
                assert(self@.heard =~= wire(self@.kept) + self@.fed + self@.tail);
            }
            return Ok(Got::More);
        }
        let ghost data = self@.fed;
        let mut hasher = Hasher::start();
        std::mem::swap(&mut hasher, &mut self.hasher);
        let digest = hasher.finish();
        if !same_bytes(&tail, &digest) {
            self.phase = IntakePhase::Failed;
            return Err(StreamFault::Mismatch);
        }
        let entry = self.files[self.at].entry;
        let count: usize = self.files.len();
        self.tail = Vec::new();
        self.at = self.at + 1;
        self.phase = if self.at < count {
            IntakePhase::Open
        } else {
            IntakePhase::Seal
        };
        proof {
            let before = self.kept@;
            self.heard@ = self.heard@ + bytes@;
            self.kept@ = before.push(data);
            assert(self@.kept.drop_last() =~= before);
            assert(self@.tail =~= Seq::empty());
            assert(self@.heard =~= wire(before) + data + sha256(data));
            assert(self@.heard =~= wire(self@.kept) + self@.tail);
        }
        Ok(Got::Settle(entry))
    }

    fn take_seal(&mut self, bytes: &Vec<u8>) -> (r: Result<Got, StreamFault>)
        requires
            old(self).wf(),
            old(self)@.phase is Seal,
            bytes@.len() <= old(self)@.wanted(),
        ensures
            final(self).wf(),
            r == old(self)@.verdict(bytes@),
            final(self)@ == old(self)@.after(bytes@),
    {
        if bytes.len() == 0 {
            self.phase = IntakePhase::Failed;
            return Err(StreamFault::Cut);
        }
        let tail = joined(&self.tail, bytes);
        if tail.len() < 4 {
            self.tail = tail;
            proof {
                self.heard@ = self.heard@ + bytes@;
                assert(self@.heard =~= wire(self@.kept) + self@.tail);
            }
            return Ok(Got::More);
        }
        let expected = seal_bytes();
        if !same_bytes(&tail, &expected) {
            self.phase = IntakePhase::Failed;
            return Err(StreamFault::Unsealed);
        }
        self.tail = Vec::new();
        self.phase = IntakePhase::End;
        proof {
            self.heard@ = self.heard@ + bytes@;
            assert(self@.tail =~= Seq::empty());
            assert(self@.heard =~= stream(self@.kept));
        }
        Ok(Got::Sealed)
    }
}

fn joined(a: &Vec<u8>, b: &Vec<u8>) -> (r: Vec<u8>)
    ensures
        r@ == a@ + b@,
{
    let mut out: Vec<u8> = a.clone();
    assert(out@ =~= a@);
    for i in 0..b.len()
        invariant
            out@ == a@ + b@.take(i as int),
    {
        out.push(b[i]);
        assert(b@.take(i + 1) =~= b@.take(i as int).push(b@[i as int]));
    }
    assert(b@.take(b@.len() as int) =~= b@);
    out
}

/// A receiver has so far what some files look like.
pub open spec fn follows(view: IntakeView, files: Seq<Seq<u8>>) -> bool {
    &&& as_announced(files, view.files)
    &&& view.kept == files.take(view.kept.len() as int)
    &&& view.phase is Data ==> view.fed == files[view.kept.len() as int].take(
        view.fed.len() as int,
    )
    &&& view.phase is Digest ==> view.fed == files[view.kept.len() as int] && view.tail == sha256(
        view.fed,
    ).take(view.tail.len() as int)
    &&& view.phase is Seal ==> view.tail == seal().take(view.tail.len() as int)
}

/// What such a receiver has to read next, up to the next turn.
pub open spec fn due(view: IntakeView, files: Seq<Seq<u8>>) -> Seq<u8> {
    match view.phase {
        IntakePhase::Data => files[view.kept.len() as int].skip(view.fed.len() as int),
        IntakePhase::Digest => sha256(files[view.kept.len() as int]).skip(view.tail.len() as int),
        IntakePhase::Seal => seal().skip(view.tail.len() as int),
        _ => Seq::empty(),
    }
}

/// Files that are sent as announced are never refused, in whatever pieces they arrive, and
/// the receiver keeps exactly them.
pub proof fn what_is_sent_is_taken(view: IntakeView, files: Seq<Seq<u8>>, n: int)
    requires
        view.wf(),
        follows(view, files),
        view.phase is Data || view.phase is Digest || view.phase is Seal,
        forall|i: int| 0 <= i < files.len() ==> sha256(#[trigger] files[i]).len() == 32,
        0 < n <= due(view, files).len(),
        n <= view.wanted(),
    ensures
        view.verdict(due(view, files).take(n)) is Ok,
        follows(view.after(due(view, files).take(n)), files),
{
    let bytes = due(view, files).take(n);
    let at = view.kept.len() as int;
    match view.phase {
        IntakePhase::Data => {
            assert(view.fed + bytes =~= files[at].take(view.fed.len() + n));
            assert(files[at].take(files[at].len() as int) =~= files[at]);
            assert(sha256(files[at]).take(0) =~= Seq::empty());
            assert(view.tail =~= Seq::empty());
        },
        IntakePhase::Digest => {
            let whole = sha256(view.fed);
            assert(view.tail + bytes =~= whole.take(view.tail.len() + n));
            assert(whole.take(32) =~= whole);
            assert(view.kept.push(view.fed) =~= files.take(at + 1));
            assert(seal().take(0) =~= Seq::<u8>::empty());
        },
        _ => {
            assert(view.tail + bytes =~= seal().take(view.tail.len() + n));
            assert(seal().take(4) =~= seal());
        },
    }
}

/// What a sender is at.
#[derive(Clone, Copy, Debug, PartialEq, Eq, Structural)]
pub enum OutletPhase {
    /// The next file has to be opened.
    Open,
    Data,
    /// The file has to be checked once more.
    Check,
    /// The whole selection has to be checked once more.
    Final,
    Over,
    Failed,
}

/// Sends the files of a transfer.
pub struct Outlet {
    files: Vec<Carried>,
    at: usize,
    phase: OutletPhase,
    remaining: u64,
    hasher: Hasher,
    said: Ghost<Seq<u8>>,
    given: Ghost<Seq<Seq<u8>>>,
}

pub ghost struct OutletView {
    pub files: Seq<Carried>,
    pub phase: OutletPhase,
    /// What was read of the file at hand.
    pub fed: Seq<u8>,
    /// All that was to be written.
    pub said: Seq<u8>,
    /// The files that are done.
    pub given: Seq<Seq<u8>>,
}

impl View for Outlet {
    type V = OutletView;

    closed spec fn view(&self) -> OutletView {
        OutletView {
            files: self.files@,
            phase: self.phase,
            fed: if self.phase is Data || self.phase is Check {
                taken_in(self.hasher)
            } else {
                Seq::empty()
            },
            said: self.said@,
            given: self.given@,
        }
    }
}

impl OutletView {
    pub open spec fn current(self) -> Carried {
        self.files[self.given.len() as int]
    }

    pub open spec fn next_phase(files: Seq<Carried>, done: nat) -> OutletPhase {
        if done < files.len() {
            OutletPhase::Open
        } else {
            OutletPhase::Final
        }
    }

    pub open spec fn started(files: Seq<Carried>) -> OutletView {
        OutletView {
            files,
            phase: OutletView::next_phase(files, 0),
            fed: Seq::empty(),
            said: Seq::empty(),
            given: Seq::empty(),
        }
    }

    pub open spec fn opened(self) -> OutletView {
        OutletView {
            phase: if self.current().size == 0 {
                OutletPhase::Check
            } else {
                OutletPhase::Data
            },
            ..self
        }
    }

    /// How many bytes are read next.
    pub open spec fn wanted(self) -> int {
        let left = self.current().size - self.fed.len();
        if left < FILE_CHUNK {
            left
        } else {
            FILE_CHUNK as int
        }
    }

    /// Some bytes of the file were read.
    pub open spec fn read(self, bytes: Seq<u8>) -> OutletView {
        if bytes.len() == 0 {
            OutletView { phase: OutletPhase::Failed, fed: Seq::empty(), ..self }
        } else {
            let fed = self.fed + bytes;
            OutletView {
                fed,
                said: self.said + bytes,
                phase: if fed.len() < self.current().size {
                    OutletPhase::Data
                } else {
                    OutletPhase::Check
                },
                ..self
            }
        }
    }

    /// The file is still what it was: its digest follows.
    pub open spec fn checked(self) -> OutletView {
        OutletView {
            phase: OutletView::next_phase(self.files, self.given.len() + 1),
            given: self.given.push(self.fed),
            said: self.said + sha256(self.fed),
            fed: Seq::empty(),
            ..self
        }
    }

    /// All files are still what they were.
    pub open spec fn sealed(self) -> OutletView {
        OutletView { phase: OutletPhase::Over, said: self.said + seal(), ..self }
    }

    pub open spec fn wf(self) -> bool {
        &&& self.given.len() <= self.files.len()
        &&& forall|i: int|
            0 <= i < self.given.len() ==> (#[trigger] self.given[i]).len() == self.files[i].size
        &&& match self.phase {
            OutletPhase::Open => {
                &&& self.given.len() < self.files.len()
                &&& self.fed.len() == 0
                &&& self.said == wire(self.given)
            },
            OutletPhase::Data => {
                &&& self.given.len() < self.files.len()
                &&& self.fed.len() < self.current().size
                &&& self.said == wire(self.given) + self.fed
            },
            OutletPhase::Check => {
                &&& self.given.len() < self.files.len()
                &&& self.fed.len() == self.current().size
                &&& self.said == wire(self.given) + self.fed
            },
            OutletPhase::Final => {
                &&& self.given.len() == self.files.len()
                &&& self.fed.len() == 0
                &&& self.said == wire(self.given)
            },
            OutletPhase::Over => {
                &&& self.given.len() == self.files.len()
                &&& self.fed.len() == 0
                &&& self.said == stream(self.given)
            },
            OutletPhase::Failed => self.fed.len() == 0,
        }
    }
}

impl Outlet {
    pub closed spec fn wf(&self) -> bool {
        &&& self@.wf()
        &&& self.at == self.given@.len()
        &&& self.phase is Open ==> taken_in(self.hasher) == Seq::<u8>::empty()
        &&& self.phase is Data ==> self.remaining == self@.current().size - self@.fed.len()
    }

    pub fn new(manifest: &Manifest) -> (r: Self)
        ensures
            r.wf(),
            r@ == OutletView::started(carried(manifest.entries@)),
            r@.wf(),
    {
        let files = carried_files(manifest);
        let phase = if files.len() > 0 {
            OutletPhase::Open
        } else {
            OutletPhase::Final
        };
        let r = Outlet {
            files,
            at: 0,
            phase,
            remaining: 0,
            hasher: Hasher::start(),
            said: Ghost(Seq::empty()),
            given: Ghost(Seq::empty()),
        };
        assert(r@.given =~= Seq::empty());
        assert(r@.said =~= wire(r@.given));
        r
    }

    /// The file that has to be opened.
    pub fn opens(&self) -> (r: Option<EntryId>)
        requires
            self.wf(),
        ensures
            r == if self@.phase is Open {
                Some(self@.current().entry)
            } else {
                None
            },
    {
        if self.phase == OutletPhase::Open {
            Some(self.files[self.at].entry)
        } else {
            None
        }
    }

    pub fn open(&mut self)
        requires
            old(self).wf(),
            old(self)@.phase is Open,
        ensures
            final(self).wf(),
            final(self)@ == old(self)@.opened(),
    {
        let size: u64 = self.files[self.at].size;
        self.remaining = size;
        self.phase = if size == 0 {
            OutletPhase::Check
        } else {
            OutletPhase::Data
        };
        assert(self@.fed =~= old(self)@.fed);
        assert(self@.said =~= wire(self@.given) + self@.fed);
    }

    /// Where to read in the file, and how much.
    pub fn reads(&self) -> (r: Option<(u64, usize)>)
        requires
            self.wf(),
        ensures
            match r {
                Some((offset, wanted)) => self@.phase is Data && offset == self@.fed.len() && wanted
                    == self@.wanted(),
                None => !(self@.phase is Data),
            },
    {
        if self.phase != OutletPhase::Data {
            return None;
        }
        let offset: u64 = self.files[self.at].size - self.remaining;
        let wanted: usize = if self.remaining < FILE_CHUNK {
            self.remaining as usize
        } else {
            FILE_CHUNK as usize
        };
        Some((offset, wanted))
    }

    /// Bytes of the file were read, and are to be written to the stream.
    pub fn read(&mut self, bytes: &Vec<u8>) -> (r: Result<(), StreamFault>)
        requires
            old(self).wf(),
            old(self)@.phase is Data,
            bytes@.len() <= old(self)@.wanted(),
        ensures
            final(self).wf(),
            r == if bytes@.len() == 0 {
                Err(StreamFault::Shrunk)
            } else {
                Ok(())
            },
            final(self)@ == old(self)@.read(bytes@),
    {
        if bytes.len() == 0 {
            self.phase = OutletPhase::Failed;
            return Err(StreamFault::Shrunk);
        }
        self.hasher.take_in(bytes);
        self.remaining = self.remaining - bytes.len() as u64;
        if self.remaining == 0 {
            self.phase = OutletPhase::Check;
        }
        proof {
            self.said@ = self.said@ + bytes@;
            assert(self@.said =~= wire(self@.given) + self@.fed);
        }
        Ok(())
    }

    /// The file is still what it was; gives its digest, which is to be written.
    pub fn checked(&mut self) -> (r: Vec<u8>)
        requires
            old(self).wf(),
            old(self)@.phase is Check,
        ensures
            final(self).wf(),
            r@ == sha256(old(self)@.fed),
            r@.len() == 32,
            final(self)@ == old(self)@.checked(),
    {
        let ghost data = self@.fed;
        let mut hasher = Hasher::start();
        std::mem::swap(&mut hasher, &mut self.hasher);
        let digest = hasher.finish();
        let count: usize = self.files.len();
        self.at = self.at + 1;
        self.phase = if self.at < count {
            OutletPhase::Open
        } else {
            OutletPhase::Final
        };
        proof {
            let before = self.given@;
            self.said@ = self.said@ + digest@;
            self.given@ = before.push(data);
            assert(self@.given.drop_last() =~= before);
            assert(self@.said =~= wire(self@.given));
        }
        digest
    }

    /// The whole selection is still what it was; gives what closes the stream. All that was
    /// written is the stream of files with the announced sizes.
    pub fn seal(&mut self) -> (r: Vec<u8>)
        requires
            old(self).wf(),
            old(self)@.phase is Final,
        ensures
            final(self).wf(),
            r@ == seal(),
            final(self)@ == old(self)@.sealed(),
            final(self)@.said == stream(final(self)@.given),
            as_announced(final(self)@.given, final(self)@.files),
    {
        self.phase = OutletPhase::Over;
        proof {
            self.said@ = self.said@ + seal();
        }
        seal_bytes()
    }
}

} // verus!
