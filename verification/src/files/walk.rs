//! How a selection of files is taken down, and how it is told whether it is still the same.

use super::places::{Place, PlaceView};
use super::records::{EntryId, EntryKind, FileTimestamp, Manifest, ManifestEntry};
use super::selection::{bytes_of, is_name, valid_name};
use crate::outside::{compose, composed, uncapitalize, uncapitalized};
use vstd::prelude::*;
use vstd::utf8::encode_utf8;

verus! {

/// Entries that a selection may have.
pub const MAX_ENTRIES: usize = 4096;

/// How deep directories may lie in each other.
pub const MAX_DEPTH: usize = 32;

/// Bytes that a selection may have.
pub const MAX_TOTAL_BYTES: u64 = 0x100_0000_0000;

/// Directories that may be held open for selections.
pub const MAX_SOURCE_HANDLES: usize = 64;

/// By what a change to a file is noticed.
#[derive(Clone, Copy, Debug, PartialEq, Eq, Structural)]
pub struct Version {
    pub dev: u64,
    pub ino: u64,
    pub len: u64,
    pub modified_seconds: i64,
    pub modified_nanos: i64,
    pub changed_seconds: i64,
    pub changed_nanos: i64,
    pub mode: u32,
}

#[derive(Clone, Copy, Debug, PartialEq, Eq, Structural)]
pub enum FileType {
    File,
    Directory,
    Link,
    Special,
}

/// Why a selection cannot be taken down, or is no longer the same.
#[derive(Clone, Copy, Debug, PartialEq, Eq, Structural)]
pub enum WalkFault {
    Cancelled,
    RootCollision,
    Collision,
    Limits,
    Name,
    Special,
    LinkRoot,
    Overflow,
    TooLarge,
    Time,
    DirectoryChanged,
    TreeChanged,
    RootChanged,
    Handles,
    Relative,
    LinkChosen,
    WriteOnly,
    Unreadable,
    UnknownEntry,
    VersionChanged,
    PathChanged,
    LinkChanged,
}

impl WalkFault {
    pub open spec fn words(self) -> Seq<char> {
        match self {
            WalkFault::Cancelled => "transfer cancelled"@,
            WalkFault::RootCollision => "colliding source names"@,
            WalkFault::Collision => "normalization or case collision"@,
            WalkFault::Limits => "selection exceeds manifest limits"@,
            WalkFault::Name => "unsupported file name"@,
            WalkFault::Special => "special files cannot be offered"@,
            WalkFault::LinkRoot => "symlink roots cannot be offered"@,
            WalkFault::Overflow => "selection size overflow"@,
            WalkFault::TooLarge => "selection size limit exceeded"@,
            WalkFault::Time => "invalid source modification time"@,
            WalkFault::DirectoryChanged => "source directory changed during enumeration"@,
            WalkFault::TreeChanged => "source tree or link changed during enumeration"@,
            WalkFault::RootChanged => "selected root changed during capture"@,
            WalkFault::Handles => "source directory handle budget exceeded"@,
            WalkFault::Relative => "source selection must be absolute"@,
            WalkFault::LinkChosen => "select a symlink's target explicitly"@,
            WalkFault::WriteOnly => "selected descriptor is not readable"@,
            WalkFault::Unreadable => "selected file descriptor has no read access"@,
            WalkFault::UnknownEntry => "unknown source entry"@,
            WalkFault::VersionChanged => "source version changed"@,
            WalkFault::PathChanged => "source path changed"@,
            WalkFault::LinkChanged => "source symlink changed"@,
        }
    }

    pub fn text(self) -> (r: &'static str)
        ensures
            r@ == self.words(),
    {
        match self {
            WalkFault::Cancelled => "transfer cancelled",
            WalkFault::RootCollision => "colliding source names",
            WalkFault::Collision => "normalization or case collision",
            WalkFault::Limits => "selection exceeds manifest limits",
            WalkFault::Name => "unsupported file name",
            WalkFault::Special => "special files cannot be offered",
            WalkFault::LinkRoot => "symlink roots cannot be offered",
            WalkFault::Overflow => "selection size overflow",
            WalkFault::TooLarge => "selection size limit exceeded",
            WalkFault::Time => "invalid source modification time",
            WalkFault::DirectoryChanged => "source directory changed during enumeration",
            WalkFault::TreeChanged => "source tree or link changed during enumeration",
            WalkFault::RootChanged => "selected root changed during capture",
            WalkFault::Handles => "source directory handle budget exceeded",
            WalkFault::Relative => "source selection must be absolute",
            WalkFault::LinkChosen => "select a symlink's target explicitly",
            WalkFault::WriteOnly => "selected descriptor is not readable",
            WalkFault::Unreadable => "selected file descriptor has no read access",
            WalkFault::UnknownEntry => "unknown source entry",
            WalkFault::VersionChanged => "source version changed",
            WalkFault::PathChanged => "source path changed",
            WalkFault::LinkChanged => "source symlink changed",
        }
    }
}

/// What a name is where neither its case nor its composition counts.
pub open spec fn folded(name: Seq<char>) -> Seq<char> {
    uncapitalized(composed(name))
}

pub fn fold(name: &str) -> (r: String)
    ensures
        r@ == folded(name@),
{
    let whole = compose(name);
    uncapitalize(whole.as_str())
}

/// Something that was selected, where it is, and how it was.
#[derive(Debug)]
pub struct SourceEntry {
    /// The open directory that it is reached from.
    pub root: usize,
    pub path: Place,
    pub version: Version,
}

/// A directory whose entries are being taken down.
#[derive(Debug)]
pub struct Level {
    pub id: EntryId,
    pub names: Vec<String>,
}

/// Takes down a selection.
#[derive(Debug)]
pub struct Walk {
    pub entries: Vec<ManifestEntry>,
    pub total: u64,
    pub sources: Vec<SourceEntry>,
    pub levels: Vec<Level>,
    pub names: Vec<String>,
}

pub ghost struct LevelView {
    pub id: EntryId,
    pub names: Seq<Seq<char>>,
}

#[verifier::ext_equal]
pub ghost struct WalkView {
    pub entries: Seq<ManifestEntry>,
    pub total: u64,
    pub sources: Seq<SourceEntry>,
    pub levels: Seq<LevelView>,
    pub names: Seq<Seq<char>>,
}

pub open spec fn level_views(all: Seq<Level>) -> Seq<LevelView> {
    Seq::new(
        all.len(),
        |i: int| LevelView { id: all[i].id, names: super::places::texts(all[i].names@) },
    )
}

impl View for Walk {
    type V = WalkView;

    open spec fn view(&self) -> WalkView {
        WalkView {
            entries: self.entries@,
            total: self.total,
            sources: self.sources@,
            levels: level_views(self.levels@),
            names: super::places::texts(self.names@),
        }
    }
}

/// The folded names of the entries in a directory, or at the top.
pub open spec fn children(entries: Seq<ManifestEntry>, parent: Option<EntryId>) -> Seq<Seq<char>>
    decreases entries.len(),
{
    if entries.len() == 0 {
        Seq::empty()
    } else if entries.last().parent == parent {
        children(entries.drop_last(), parent).push(folded(entries.last().name@))
    } else {
        children(entries.drop_last(), parent)
    }
}

/// Entries that lie side by side have different names, whatever their case.
pub open spec fn siblings_differ(entries: Seq<ManifestEntry>) -> bool {
    forall|i: int, j: int|
        0 <= i < j < entries.len() && (#[trigger] entries[i]).parent == (
        #[trigger] entries[j]).parent ==> folded(entries[i].name@) != folded(entries[j].name@)
}

/// Entries are numbered, and what they lie in comes before them and is a directory.
pub open spec fn rooted(entries: Seq<ManifestEntry>) -> bool {
    forall|i: int|
        0 <= i < entries.len() ==> (#[trigger] entries[i]).id.0 == i && match entries[i].parent {
            Some(parent) => parent.0 < i && entries[parent.0 as int].kind is Directory,
            None => true,
        }
}

/// Every name can stand in a directory.
pub open spec fn well_named(entries: Seq<ManifestEntry>) -> bool {
    forall|i: int| 0 <= i < entries.len() ==> is_name(encode_utf8((#[trigger] entries[i]).name@))
}

/// What is taken down of something.
pub open spec fn kind_for(kind: FileType, version: Version, target: String) -> EntryKind {
    match kind {
        FileType::Directory => EntryKind::Directory,
        FileType::Link => EntryKind::Symlink { target },
        _ => EntryKind::File { size: version.len },
    }
}

pub open spec fn mode_for(kind: FileType, version: Version) -> u32 {
    if kind is Link {
        0o777
    } else {
        version.mode & 0o777
    }
}

impl WalkView {
    /// The directory that is being taken down.
    pub open spec fn parent(self) -> Option<EntryId> {
        if self.levels.len() == 0 {
            None
        } else {
            Some(self.levels.last().id)
        }
    }

    /// The folded names that are already there.
    pub open spec fn taken(self) -> Seq<Seq<char>> {
        if self.levels.len() == 0 {
            self.names
        } else {
            self.levels.last().names
        }
    }

    /// Why something cannot be taken down.
    pub open spec fn refusal(
        self,
        name: Seq<char>,
        kind: FileType,
        version: Version,
        cancelled: bool,
    ) -> Option<WalkFault> {
        if cancelled {
            Some(WalkFault::Cancelled)
        } else if self.taken().contains(folded(name)) {
            Some(
                if self.levels.len() == 0 {
                    WalkFault::RootCollision
                } else {
                    WalkFault::Collision
                },
            )
        } else if self.levels.len() + 1 > MAX_DEPTH || self.entries.len() >= MAX_ENTRIES {
            Some(WalkFault::Limits)
        } else if !is_name(encode_utf8(name)) {
            Some(WalkFault::Name)
        } else if kind is Special {
            Some(WalkFault::Special)
        } else if self.levels.len() == 0 && kind is Link {
            Some(WalkFault::LinkRoot)
        } else if kind is File && self.total + version.len > u64::MAX {
            Some(WalkFault::Overflow)
        } else if kind is File && self.total + version.len > MAX_TOTAL_BYTES {
            Some(WalkFault::TooLarge)
        } else if !(0 <= version.modified_nanos <= u32::MAX) {
            Some(WalkFault::Time)
        } else {
            None
        }
    }

    pub open spec fn entry(
        self,
        name: String,
        kind: FileType,
        version: Version,
        target: String,
    ) -> ManifestEntry {
        ManifestEntry {
            id: EntryId(self.entries.len() as u32),
            parent: self.parent(),
            name,
            kind: kind_for(kind, version, target),
            mode: mode_for(kind, version),
            modified: FileTimestamp {
                seconds: version.modified_seconds,
                nanos: version.modified_nanos as u32,
            },
        }
    }

    /// The levels once a name is taken, and a directory entered.
    pub open spec fn levels_with(self, name: Seq<char>, directory: bool) -> Seq<LevelView> {
        let noted = if self.levels.len() == 0 {
            self.levels
        } else {
            let last = self.levels.last();
            self.levels.drop_last().push(LevelView { names: last.names.push(folded(name)), ..last })
        };
        if directory {
            noted.push(
                LevelView { id: EntryId(self.entries.len() as u32), names: Seq::empty() },
            )
        } else {
            noted
        }
    }

    /// Something was taken down; a directory is entered.
    pub open spec fn entered(
        self,
        name: String,
        kind: FileType,
        source: SourceEntry,
        target: String,
    ) -> WalkView {
        WalkView {
            entries: self.entries.push(self.entry(name, kind, source.version, target)),
            total: if kind is File {
                (self.total + source.version.len) as u64
            } else {
                self.total
            },
            sources: self.sources.push(source),
            levels: self.levels_with(name@, kind is Directory),
            names: if self.levels.len() == 0 {
                self.names.push(folded(name@))
            } else {
                self.names
            },
        }
    }

    /// What was taken down is a manifest that others accept.
    pub open spec fn wf(self) -> bool {
        &&& self.entries.len() == self.sources.len()
        &&& self.entries.len() <= MAX_ENTRIES
        &&& self.levels.len() <= MAX_DEPTH
        &&& self.total == bytes_of(self.entries)
        &&& self.total <= MAX_TOTAL_BYTES
        &&& rooted(self.entries)
        &&& well_named(self.entries)
        &&& siblings_differ(self.entries)
        &&& self.names == children(self.entries, None)
        &&& levels_hold(self.entries, self.levels)
    }
}

proof fn lemma_children_hold(entries: Seq<ManifestEntry>, i: int)
    requires
        0 <= i < entries.len(),
    ensures
        children(entries, entries[i].parent).contains(folded(entries[i].name@)),
    decreases entries.len(),
{
    let parent = entries[i].parent;
    let all = children(entries, parent);
    if i == entries.len() - 1 {
        assert(all.last() == folded(entries[i].name@));
    } else {
        let front = entries.drop_last();
        lemma_children_hold(front, i);
        let before = children(front, parent);
        let k = choose|k: int| 0 <= k < before.len() && before[k] == folded(entries[i].name@);
        assert(all[k] == before[k]);
    }
}

proof fn lemma_no_children(entries: Seq<ManifestEntry>, id: EntryId)
    requires
        forall|i: int| 0 <= i < entries.len() ==> (#[trigger] entries[i]).parent != Some(id),
    ensures
        children(entries, Some(id)) == Seq::<Seq<char>>::empty(),
    decreases entries.len(),
{
    if entries.len() > 0 {
        let front = entries.drop_last();
        assert forall|i: int| 0 <= i < front.len() implies (#[trigger] front[i]).parent != Some(
            id,
        ) by {
            assert(front[i] == entries[i]);
        }
        lemma_no_children(front, id);
        assert(entries[entries.len() - 1].parent != Some(id));
    }
}

proof fn lemma_siblings(walk: WalkView, entry: ManifestEntry)
    requires
        siblings_differ(walk.entries),
        !children(walk.entries, entry.parent).contains(folded(entry.name@)),
    ensures
        siblings_differ(walk.entries.push(entry)),
{
    let after = walk.entries.push(entry);
    let n = walk.entries.len() as int;
    assert forall|i: int, j: int|
        0 <= i < j < after.len() && (#[trigger] after[i]).parent == (
        #[trigger] after[j]).parent implies folded(after[i].name@) != folded(after[j].name@) by {
        assert(after[i] == walk.entries[i]);
        if j < n {
            assert(after[j] == walk.entries[j]);
        } else {
            lemma_children_hold(walk.entries, i);
        }
    }
}

proof fn lemma_rooted(entries: Seq<ManifestEntry>, entry: ManifestEntry)
    requires
        rooted(entries),
        entry.id.0 == entries.len(),
        entry.parent matches Some(parent) ==> parent.0 < entries.len()
            && entries[parent.0 as int].kind is Directory,
    ensures
        rooted(entries.push(entry)),
{
    let after = entries.push(entry);
    assert forall|i: int| 0 <= i < after.len() implies (#[trigger] after[i]).id.0 == i
        && match after[i].parent {
        Some(parent) => parent.0 < i && after[parent.0 as int].kind is Directory,
        None => true,
    } by {
        if i < entries.len() {
            assert(after[i] == entries[i]);
            if let Some(p) = entries[i].parent {
                assert(after[p.0 as int] == entries[p.0 as int]);
            }
        } else if let Some(p) = entry.parent {
            assert(after[p.0 as int] == entries[p.0 as int]);
        }
    }
}

/// The levels belong to directories, in order, and hold the names of what is in them.
pub open spec fn levels_hold(entries: Seq<ManifestEntry>, levels: Seq<LevelView>) -> bool {
    &&& forall|i: int|
        0 <= i < levels.len() ==> (#[trigger] levels[i]).id.0 < entries.len()
            && entries[levels[i].id.0 as int].kind is Directory && levels[i].names == children(
            entries,
            Some(levels[i].id),
        )
    &&& forall|i: int, j: int|
        0 <= i < j < levels.len() ==> (#[trigger] levels[i]).id.0 < (#[trigger] levels[j]).id.0
}

/// Nothing lies in an entry that is not there yet.
pub open spec fn unborn(entries: Seq<ManifestEntry>, id: EntryId) -> bool {
    forall|i: int| 0 <= i < entries.len() ==> (#[trigger] entries[i]).parent != Some(id)
}

proof fn lemma_unborn(entries: Seq<ManifestEntry>, id: EntryId)
    requires
        rooted(entries),
        id.0 >= entries.len(),
    ensures
        unborn(entries, id),
{
}

proof fn lemma_levels(walk: WalkView, entry: ManifestEntry, directory: bool)
    requires
        levels_hold(walk.entries, walk.levels),
        unborn(walk.entries, entry.id),
        walk.entries.len() < MAX_ENTRIES,
        entry.id == EntryId(walk.entries.len() as u32),
        entry.parent == walk.parent(),
        directory ==> entry.kind is Directory,
    ensures
        levels_hold(walk.entries.push(entry), walk.levels_with(entry.name@, directory)),
{
    let entries = walk.entries.push(entry);
    let levels = walk.levels_with(entry.name@, directory);
    let n = walk.entries.len() as int;
    let known = walk.levels.len() as int;
    assert(entries.drop_last() =~= walk.entries);
    assert(entries.last() == entry);
    let fresh = entry.id;
    assert forall|i: int| 0 <= i < entries.len() implies (#[trigger] entries[i]).parent != Some(
        fresh,
    ) by {
        if i < n {
            assert(entries[i] == walk.entries[i]);
        } else if known > 0 {
            assert(walk.levels[known - 1].id.0 < n);
        }
    }
    lemma_no_children(entries, fresh);
    assert forall|i: int| 0 <= i < levels.len() implies (#[trigger] levels[i]).id.0 < entries.len()
        && entries[levels[i].id.0 as int].kind is Directory && levels[i].names == children(
        entries,
        Some(levels[i].id),
    ) by {
        if i < known - 1 {
            assert(levels[i] == walk.levels[i]);
            assert(walk.levels[i].id.0 < walk.levels[known - 1].id.0);
            assert(entries[walk.levels[i].id.0 as int] == walk.entries[walk.levels[i].id.0 as int]);
        } else if i == known - 1 {
            assert(levels[i].id == walk.levels[i].id);
            assert(levels[i].names == walk.levels[i].names.push(folded(entry.name@)));
            assert(entries[walk.levels[i].id.0 as int] == walk.entries[walk.levels[i].id.0 as int]);
        } else {
            assert(levels[i].id == fresh);
            assert(entries[n] == entry);
        }
    }
    assert forall|i: int, j: int| 0 <= i < j < levels.len() implies (#[trigger] levels[i]).id.0 < (
    #[trigger] levels[j]).id.0 by {
        assert(levels[i].id == walk.levels[i].id);
        assert(walk.levels[i].id.0 < n);
        if j < known {
            assert(levels[j].id == walk.levels[j].id);
        }
    }
}

/// Whatever is taken down, the result is a manifest: numbered, each entry behind the directory
/// that it lies in, within its limits, and without names that collide.
pub proof fn a_walk_makes_a_manifest(
    walk: WalkView,
    name: String,
    kind: FileType,
    source: SourceEntry,
    target: String,
    cancelled: bool,
)
    requires
        walk.wf(),
        walk.refusal(name@, kind, source.version, cancelled) is None,
    ensures
        walk.entered(name, kind, source, target).wf(),
{
    let after = walk.entered(name, kind, source, target);
    let entry = walk.entry(name, kind, source.version, target);
    let known = walk.levels.len() as int;
    assert(after.entries.drop_last() =~= walk.entries);
    assert(after.entries.last() == entry);
    if known > 0 {
        assert(walk.levels[known - 1] == walk.levels.last());
        assert(walk.levels[known - 1].id.0 < walk.entries.len());
    }
    assert(walk.taken() == children(walk.entries, walk.parent()));
    lemma_siblings(walk, entry);
    lemma_rooted(walk.entries, entry);
    lemma_unborn(walk.entries, entry.id);
    lemma_levels(walk, entry, kind is Directory);
    assert forall|i: int| 0 <= i < after.entries.len() implies is_name(
        encode_utf8((#[trigger] after.entries[i]).name@),
    ) by {
        if i < walk.entries.len() {
            assert(after.entries[i] == walk.entries[i]);
        }
    }
}

fn has_text(names: &Vec<String>, name: &String) -> (r: bool)
    ensures
        r == super::places::texts(names@).contains(name@),
{
    for i in 0..names.len()
        invariant
            forall|k: int| 0 <= k < i ==> (#[trigger] names@[k])@ != name@,
    {
        if names[i] == *name {
            assert(super::places::texts(names@)[i as int] == name@);
            return true;
        }
    }
    proof {
        let all = super::places::texts(names@);
        if all.contains(name@) {
            let k = choose|k: int| 0 <= k < all.len() && all[k] == name@;
            assert(names@[k]@ == name@);
        }
    }
    false
}

impl Walk {
    pub open spec fn wf(&self) -> bool {
        self@.wf()
    }

    pub fn new() -> (r: Self)
        ensures
            r.wf(),
            r@.entries.len() == 0,
            r@.levels.len() == 0,
            r@.total == 0,
    {
        let r = Walk {
            entries: Vec::new(),
            total: 0,
            sources: Vec::new(),
            levels: Vec::new(),
            names: Vec::new(),
        };
        assert(r@.names =~= children(r@.entries, None));
        r
    }

    /// How many more entries there may be.
    pub fn room(&self) -> (r: usize)
        requires
            self.wf(),
        ensures
            r == MAX_ENTRIES - self@.entries.len(),
    {
        MAX_ENTRIES - self.entries.len()
    }

    fn is_taken(&self, key: &String) -> (r: bool)
        ensures
            r == self@.taken().contains(key@),
    {
        let count: usize = self.levels.len();
        if count == 0 {
            has_text(&self.names, key)
        } else {
            assert(self@.levels.last() == level_views(self.levels@)[count - 1]);
            has_text(&self.levels[count - 1].names, key)
        }
    }

    /// Whether something can be taken down.
    fn admits(
        &self,
        name: &String,
        key: &String,
        kind: FileType,
        version: Version,
        cancelled: bool,
    ) -> (r: Result<(), WalkFault>)
        requires
            self.wf(),
            key@ == folded(name@),
        ensures
            match r {
                Ok(()) => self@.refusal(name@, kind, version, cancelled) is None,
                Err(e) => self@.refusal(name@, kind, version, cancelled) == Some(e),
            },
    {
        if cancelled {
            return Err(WalkFault::Cancelled);
        }
        let depth: usize = self.levels.len();
        if self.is_taken(key) {
            return Err(
                if depth == 0 {
                    WalkFault::RootCollision
                } else {
                    WalkFault::Collision
                },
            );
        }
        if depth >= MAX_DEPTH || self.entries.len() >= MAX_ENTRIES {
            return Err(WalkFault::Limits);
        }
        if !valid_name(name.as_str()) {
            return Err(WalkFault::Name);
        }
        if kind == FileType::Special {
            return Err(WalkFault::Special);
        }
        if depth == 0 && kind == FileType::Link {
            return Err(WalkFault::LinkRoot);
        }
        if kind == FileType::File {
            match self.total.checked_add(version.len) {
                None => {
                    return Err(WalkFault::Overflow);
                },
                Some(sum) => {
                    if sum > MAX_TOTAL_BYTES {
                        return Err(WalkFault::TooLarge);
                    }
                },
            }
        }
        if version.modified_nanos < 0 || version.modified_nanos > u32::MAX as i64 {
            return Err(WalkFault::Time);
        }
        Ok(())
    }

    /// Takes something down, in the directory that was entered last; a directory is entered.
    /// `target` is where a link leads.
    pub fn enter(
        &mut self,
        root: usize,
        path: Place,
        name: String,
        kind: FileType,
        version: Version,
        target: String,
        cancelled: bool,
    ) -> (r: Result<EntryId, WalkFault>)
        requires
            old(self).wf(),
        ensures
            final(self).wf(),
            match r {
                Ok(id) => {
                    &&& old(self)@.refusal(name@, kind, version, cancelled) is None
                    &&& id.0 == old(self)@.entries.len()
                    &&& final(self)@ == old(self)@.entered(
                        name,
                        kind,
                        SourceEntry { root, path, version },
                        target,
                    )
                },
                Err(e) => old(self)@.refusal(name@, kind, version, cancelled) == Some(e)
                    && final(self)@ == old(self)@,
            },
    {
        let ghost before = self@;
        let ghost source = SourceEntry { root, path, version };
        let key = fold(name.as_str());
        if let Err(e) = self.admits(&name, &key, kind, version, cancelled) {
            return Err(e);
        }
        proof {
            a_walk_makes_a_manifest(before, name, kind, source, target, cancelled);
        }
        let id = EntryId(self.entries.len() as u32);
        let depth: usize = self.levels.len();
        let parent: Option<EntryId> = if depth == 0 {
            None
        } else {
            Some(self.levels[depth - 1].id)
        };
        assert(parent == before.parent());
        let entry_kind = match kind {
            FileType::Directory => EntryKind::Directory,
            FileType::Link => EntryKind::Symlink { target },
            _ => EntryKind::File { size: version.len },
        };
        let mode: u32 = if kind == FileType::Link {
            0o777
        } else {
            version.mode & 0o777
        };
        let entry = ManifestEntry {
            id,
            parent,
            name,
            kind: entry_kind,
            mode,
            modified: FileTimestamp {
                seconds: version.modified_seconds,
                nanos: version.modified_nanos as u32,
            },
        };
        assert(entry == before.entry(name, kind, version, target));
        if kind == FileType::File {
            self.total = self.total + version.len;
        }
        self.entries.push(entry);
        self.sources.push(SourceEntry { root, path, version });
        self.note(key, kind == FileType::Directory, id, Ghost(before), Ghost(name@));
        assert(self@ =~= before.entered(name, kind, source, target));
        Ok(id)
    }

    fn note(
        &mut self,
        key: String,
        directory: bool,
        id: EntryId,
        Ghost(before): Ghost<WalkView>,
        Ghost(name): Ghost<Seq<char>>,
    )
        requires
            key@ == folded(name),
            old(self)@.levels == before.levels,
            old(self)@.names == before.names,
            id == EntryId(before.entries.len() as u32),
        ensures
            final(self)@ == (WalkView {
                levels: before.levels_with(name, directory),
                names: if before.levels.len() == 0 {
                    before.names.push(folded(name))
                } else {
                    before.names
                },
                ..old(self)@
            }),
    {
        let depth: usize = self.levels.len();
        let ghost was = self@;
        if depth == 0 {
            let ghost known = self.names@;
            self.names.push(key);
            assert(super::places::texts(self.names@) =~= super::places::texts(known).push(key@));
        } else {
            let ghost known = self.levels@;
            let level = &mut self.levels[depth - 1];
            level.names.push(key);
            proof {
                let last = before.levels.last();
                assert(was.levels[depth - 1] == last);
                assert(super::places::texts(self.levels@[depth - 1].names@) =~= last.names.push(
                    folded(name),
                ));
                assert(level_views(self.levels@) =~= before.levels.drop_last().push(
                    LevelView { names: last.names.push(folded(name)), ..last },
                ));
            }
        }
        let ghost noted = self.levels@;
        if directory {
            let level = Level { id, names: Vec::new() };
            assert(super::places::texts(level.names@) =~= Seq::empty());
            self.levels.push(level);
            assert(level_views(self.levels@) =~= level_views(noted).push(
                LevelView { id, names: Seq::empty() },
            ));
        }
        assert(self@ =~= (WalkView {
            levels: before.levels_with(name, directory),
            names: if before.levels.len() == 0 {
                before.names.push(folded(name))
            } else {
                before.names
            },
            ..was
        }));
    }

    /// The directory that is about to be listed is still the one that was entered.
    pub fn listed(&self, id: EntryId, version: Version) -> (r: Result<(), WalkFault>)
        requires
            self.wf(),
            id.0 < self@.entries.len(),
        ensures
            r == if version == self@.sources[id.0 as int].version {
                Ok(())
            } else {
                Err(WalkFault::DirectoryChanged)
            },
    {
        if version == self.sources[id.0 as usize].version {
            Ok(())
        } else {
            Err(WalkFault::DirectoryChanged)
        }
    }

    /// Something is done with, provided it is still the same; a directory is left.
    pub fn leave(&mut self, id: EntryId, version: Version) -> (r: Result<(), WalkFault>)
        requires
            old(self).wf(),
            id.0 < old(self)@.entries.len(),
        ensures
            final(self).wf(),
            r == if version == old(self)@.sources[id.0 as int].version {
                Ok(())
            } else {
                Err(WalkFault::TreeChanged)
            },
            final(self)@ == if r is Ok && old(self)@.parent() == Some(id) {
                WalkView { levels: old(self)@.levels.drop_last(), ..old(self)@ }
            } else {
                old(self)@
            },
    {
        if version != self.sources[id.0 as usize].version {
            return Err(WalkFault::TreeChanged);
        }
        let ghost before = self@;
        let depth: usize = self.levels.len();
        if depth > 0 && self.levels[depth - 1].id == id {
            let ghost known = self.levels@;
            let _ = self.levels.pop();
            assert(level_views(self.levels@) =~= level_views(known).drop_last());
            assert(self@ =~= (WalkView { levels: before.levels.drop_last(), ..before }));
        }
        Ok(())
    }

    /// A root is still what it was when it was chosen; `first` is its entry.
    pub fn root_settled(&self, first: EntryId, chosen: Version) -> (r: Result<(), WalkFault>)
        requires
            self.wf(),
            first.0 < self@.entries.len(),
        ensures
            r == if chosen == self@.sources[first.0 as int].version {
                Ok(())
            } else {
                Err(WalkFault::RootChanged)
            },
    {
        if chosen == self.sources[first.0 as usize].version {
            Ok(())
        } else {
            Err(WalkFault::RootChanged)
        }
    }

    /// The manifest, once everything is taken down.
    pub fn finish(self, generation: u128) -> (r: (Manifest, Vec<SourceEntry>))
        requires
            self.wf(),
        ensures
            r.0.generation == generation,
            r.0.entries@ == self@.entries,
            r.0.total_bytes == self@.total,
            r.0.total_bytes == bytes_of(r.0.entries@),
            rooted(r.0.entries@),
            siblings_differ(r.0.entries@),
            r.1@ == self.sources@,
            r.1@.len() == r.0.entries@.len(),
    {
        (
            Manifest { generation, entries: self.entries, total_bytes: self.total },
            self.sources,
        )
    }
}

/// Whether an open file that was chosen can be read.
pub fn check_descriptor(write_only: bool, is_file: bool, path_only: bool) -> (r: Result<
    (),
    WalkFault,
>)
    ensures
        r == if write_only {
            Err(WalkFault::WriteOnly)
        } else if is_file && path_only {
            Err(WalkFault::Unreadable)
        } else {
            Ok(())
        },
{
    if write_only {
        Err(WalkFault::WriteOnly)
    } else if is_file && path_only {
        Err(WalkFault::Unreadable)
    } else {
        Ok(())
    }
}

/// Whether a path that was chosen can be taken down.
pub fn check_root(path: &Place, is_link: bool) -> (r: Result<(), WalkFault>)
    ensures
        r == if !path.absolute {
            Err(WalkFault::Relative)
        } else if is_link {
            Err(WalkFault::LinkChosen)
        } else {
            Ok(())
        },
{
    if !path.absolute {
        Err(WalkFault::Relative)
    } else if is_link {
        Err(WalkFault::LinkChosen)
    } else {
        Ok(())
    }
}

/// The directories that selections hold open.
#[derive(Debug)]
pub struct Handles {
    pub used: usize,
}

impl Handles {
    pub open spec fn wf(&self) -> bool {
        self.used <= MAX_SOURCE_HANDLES
    }

    pub fn acquire(&mut self) -> (r: Result<(), WalkFault>)
        requires
            old(self).wf(),
        ensures
            final(self).wf(),
            r == if old(self).used < MAX_SOURCE_HANDLES {
                Ok(())
            } else {
                Err(WalkFault::Handles)
            },
            final(self).used == if r is Ok {
                old(self).used + 1
            } else {
                old(self).used as int
            },
    {
        if self.used < MAX_SOURCE_HANDLES {
            self.used = self.used + 1;
            Ok(())
        } else {
            Err(WalkFault::Handles)
        }
    }

    pub fn release(&mut self)
        requires
            old(self).wf(),
            old(self).used > 0,
        ensures
            final(self).wf(),
            final(self).used == old(self).used - 1,
    {
        self.used = self.used - 1;
    }
}

/// A directory that roots of a selection are reached from.
#[derive(Debug)]
pub struct Anchor {
    pub place: Place,
    pub root: usize,
}

/// The first anchor at a place.
pub open spec fn anchor_at(anchors: Seq<Anchor>, place: PlaceView) -> Option<usize>
    decreases anchors.len(),
{
    if anchors.len() == 0 {
        None
    } else if anchors[0].place@ == place {
        Some(anchors[0].root)
    } else {
        anchor_at(anchors.skip(1), place)
    }
}

/// The directory that is already open at a place.
pub fn find_anchor(anchors: &Vec<Anchor>, place: &Place) -> (r: Option<usize>)
    ensures
        r == anchor_at(anchors@, place@),
{
    let ghost all = anchors@;
    assert(all.skip(0) =~= all);
    for i in 0..anchors.len()
        invariant
            all == anchors@,
            anchor_at(all, place@) == anchor_at(all.skip(i as int), place@),
    {
        assert(all.skip(i as int)[0] == all[i as int]);
        assert(all.skip(i as int).skip(1) =~= all.skip(i + 1));
        if anchors[i].place.same(place) {
            return Some(anchors[i].root);
        }
    }
    None
}

/// What was selected, as it was.
pub open spec fn source_fault(
    sources: Seq<SourceEntry>,
    id: EntryId,
    file: Version,
    path: Version,
) -> Option<WalkFault> {
    if id.0 >= sources.len() {
        Some(WalkFault::UnknownEntry)
    } else if file != sources[id.0 as int].version {
        Some(WalkFault::VersionChanged)
    } else if path != sources[id.0 as int].version {
        Some(WalkFault::PathChanged)
    } else {
        None
    }
}

/// Whether a file is still what was selected: `file` is how it is now, `path` what is now where
/// it was.
pub fn verify(sources: &Vec<SourceEntry>, id: EntryId, file: Version, path: Version) -> (r: Result<
    (),
    WalkFault,
>)
    ensures
        match r {
            Ok(()) => source_fault(sources@, id, file, path) is None,
            Err(e) => source_fault(sources@, id, file, path) == Some(e),
        },
{
    if id.0 as usize >= sources.len() {
        return Err(WalkFault::UnknownEntry);
    }
    let known: Version = sources[id.0 as usize].version;
    if file != known {
        return Err(WalkFault::VersionChanged);
    }
    if path != known {
        return Err(WalkFault::PathChanged);
    }
    Ok(())
}

/// Whether a link is still what was selected: it leads where it led, and was the same before
/// and after that was read.
pub fn verify_link(
    sources: &Vec<SourceEntry>,
    id: EntryId,
    target: &String,
    before: Version,
    now: &String,
    after: Version,
) -> (r: Result<(), WalkFault>)
    ensures
        r == if id.0 >= sources@.len() {
            Err(WalkFault::UnknownEntry)
        } else if before == sources@[id.0 as int].version && now@ == target@ && after
            == sources@[id.0 as int].version {
            Ok(())
        } else {
            Err(WalkFault::LinkChanged)
        },
{
    if id.0 as usize >= sources.len() {
        return Err(WalkFault::UnknownEntry);
    }
    let known: Version = sources[id.0 as usize].version;
    if before == known && *now == *target && after == known {
        Ok(())
    } else {
        Err(WalkFault::LinkChanged)
    }
}

} // verus!
