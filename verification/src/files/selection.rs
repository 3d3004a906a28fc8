//! What is chosen of a manifest, and what can be chosen on this machine.

use super::records::{
    EntryId, EntryKind, FileError, LocalSelection, Manifest, ManifestEntry, SelectedRoot,
};
use crate::text::{decimal, decimal_text};
use std::sync::Arc;
use vstd::prelude::*;
use vstd::utf8::encode_utf8;

verus! {

/// Files and directories that a selection may have at its top.
pub const MAX_ROOTS: usize = 128;

/// Bytes of a name.
pub const MAX_NAME: usize = 255;

/// Bytes of a path.
pub const MAX_PATH: usize = 4096;

/// A name that stands for itself in a directory.
pub open spec fn is_name(bytes: Seq<u8>) -> bool {
    &&& 0 < bytes.len() <= MAX_NAME
    &&& forall|i: int| 0 <= i < bytes.len() ==> (#[trigger] bytes[i]) != 0x2f && bytes[i] != 0
    &&& bytes != seq![0x2eu8]
    &&& bytes != seq![0x2eu8, 0x2e]
}

pub fn valid_name(name: &str) -> (r: bool)
    ensures
        r == is_name(encode_utf8(name@)),
{
    let bytes = name.as_bytes();
    if bytes.len() == 0 || bytes.len() > MAX_NAME {
        return false;
    }
    for i in 0..bytes.len()
        invariant
            bytes@ == encode_utf8(name@),
            forall|k: int| 0 <= k < i ==> (#[trigger] bytes@[k]) != 0x2f && bytes@[k] != 0,
    {
        if bytes[i] == 0x2f || bytes[i] == 0 {
            return false;
        }
    }
    if bytes.len() == 1 && bytes[0] == 0x2e {
        assert(bytes@ =~= seq![0x2eu8]);
        return false;
    }
    if bytes.len() == 2 && bytes[0] == 0x2e && bytes[1] == 0x2e {
        assert(bytes@ =~= seq![0x2eu8, 0x2e]);
        return false;
    }
    proof {
        if bytes@ == seq![0x2eu8] {
            assert(bytes@[0] == 0x2e);
        }
        if bytes@ == seq![0x2eu8, 0x2e] {
            assert(bytes@[0] == 0x2e && bytes@[1] == 0x2e);
        }
    }
    true
}

/// A root that can be read.
pub open spec fn is_root(root: SelectedRoot) -> bool {
    match root {
        SelectedRoot::Path(path) => {
            let bytes = encode_utf8(path@);
            0 < bytes.len() <= MAX_PATH && bytes[0] == 0x2f
        },
        SelectedRoot::Open { name, .. } => is_name(encode_utf8(name@)),
    }
}

/// What is wrong with a root.
pub open spec fn root_fault(root: SelectedRoot) -> Option<FileError> {
    if is_root(root) {
        None
    } else {
        match root {
            SelectedRoot::Path(_) => Some(FileError::SourcePath),
            SelectedRoot::Open { .. } => Some(FileError::DescriptorName),
        }
    }
}

/// What is wrong with the first root that cannot be read.
pub open spec fn first_fault(roots: Seq<SelectedRoot>) -> Option<FileError>
    decreases roots.len(),
{
    if roots.len() == 0 {
        None
    } else {
        match first_fault(roots.drop_last()) {
            Some(e) => Some(e),
            None => root_fault(roots.last()),
        }
    }
}

proof fn lemma_fault_stays(roots: Seq<SelectedRoot>, n: int)
    requires
        0 <= n <= roots.len(),
        first_fault(roots.take(n)) is Some,
    ensures
        first_fault(roots) == first_fault(roots.take(n)),
    decreases roots.len() - n,
{
    if n < roots.len() {
        assert(roots.take(n + 1).drop_last() =~= roots.take(n));
        lemma_fault_stays(roots, n + 1);
    } else {
        assert(roots.take(n) =~= roots);
    }
}

impl LocalSelection {
    pub open spec fn is_valid(&self) -> bool {
        &&& 0 < self.roots@.len() <= MAX_ROOTS
        &&& forall|i: int| 0 <= i < self.roots@.len() ==> is_root(#[trigger] self.roots@[i])
    }

    /// What is wrong with the selection.
    pub open spec fn fault(&self) -> Option<FileError> {
        if self.roots@.len() == 0 || self.roots@.len() > MAX_ROOTS {
            Some(FileError::SelectionRoots)
        } else {
            first_fault(self.roots@)
        }
    }

    pub fn paths(paths: Vec<String>) -> (r: Self)
        ensures
            r.access is None,
            r.roots@.len() == paths@.len(),
            forall|i: int|
                0 <= i < paths@.len() ==> (#[trigger] r.roots@[i]) == SelectedRoot::Path(paths@[i]),
    {
        let mut roots: Vec<SelectedRoot> = Vec::new();
        for i in 0..paths.len()
            invariant
                roots@.len() == i,
                forall|k: int|
                    0 <= k < i ==> (#[trigger] roots@[k]) == SelectedRoot::Path(paths@[k]),
        {
            roots.push(SelectedRoot::Path(paths[i].clone()));
        }
        LocalSelection { roots, access: None }
    }

    pub fn validate(&self) -> (r: Result<(), FileError>)
        ensures
            r.err() == self.fault(),
            r is Ok <==> self.is_valid(),
    {
        if self.roots.len() == 0 || self.roots.len() > MAX_ROOTS {
            return Err(FileError::SelectionRoots);
        }
        let ghost all = self.roots@;
        assert(all.take(0) =~= Seq::empty());
        for i in 0..self.roots.len()
            invariant
                all == self.roots@,
                0 < all.len() <= MAX_ROOTS,
                first_fault(all.take(i as int)) is None,
                forall|k: int| 0 <= k < i ==> is_root(#[trigger] all[k]),
        {
            assert(all.take(i + 1).drop_last() =~= all.take(i as int));
            match &self.roots[i] {
                SelectedRoot::Path(path) => {
                    let bytes = path.as_str().as_bytes();
                    if bytes.len() == 0 || bytes.len() > MAX_PATH || bytes[0] != 0x2f {
                        assert(!is_root(all[i as int]));
                        proof {
                            lemma_fault_stays(all, i + 1);
                        }
                        return Err(FileError::SourcePath);
                    }
                },
                SelectedRoot::Open { name, .. } => {
                    if !valid_name(name.as_str()) {
                        assert(!is_root(all[i as int]));
                        proof {
                            lemma_fault_stays(all, i + 1);
                        }
                        return Err(FileError::DescriptorName);
                    }
                },
            }
        }
        assert(all.take(all.len() as int) =~= all);
        Ok(())
    }
}

/// Something that was dropped on this machine.
#[derive(Debug)]
pub struct Dropped {
    /// Its path, as it is shown.
    pub path: String,
    /// The last name of the path, where it has one.
    pub name: Option<String>,
    pub absolute: bool,
    /// The handle of the file, where it came open.
    pub file: Option<u64>,
    /// Whether it is a file or a directory, or why that is not known.
    pub plain: Result<bool, String>,
}

/// What is wrong with something that was dropped, in words.
pub open spec fn drop_fault(item: Dropped) -> Option<Seq<char>> {
    match item.name {
        None => Some(item.path@ + " has an unsupported name"@),
        Some(name) => if !is_name(encode_utf8(name@)) {
            Some(item.path@ + " has an unsupported name"@)
        } else if item.file is None && !item.absolute {
            Some(item.path@ + " is not an absolute path"@)
        } else {
            match item.plain {
                Err(error) => Some(
                    (if item.file is Some {
                        name@
                    } else {
                        item.path@
                    }) + ": "@ + error@,
                ),
                Ok(plain) => if plain {
                    None
                } else {
                    Some(item.path@ + " is not a regular file or directory"@)
                },
            }
        },
    }
}

/// How something that was dropped is selected: by its open file, if it came with one.
pub open spec fn dropped_root(item: Dropped) -> SelectedRoot {
    match item.file {
        Some(file) => SelectedRoot::Open { name: item.name->0, file },
        None => SelectedRoot::Path(item.path),
    }
}

pub(crate) fn sentence(subject: &str, rest: &str) -> (r: String)
    ensures
        r@ == subject@ + rest@,
{
    let mut out = subject.to_owned();
    out.append(rest);
    out
}

fn admit_drop(item: Dropped) -> (r: Result<SelectedRoot, String>)
    ensures
        match r {
            Ok(root) => drop_fault(item) is None && root == dropped_root(item),
            Err(text) => drop_fault(item) == Some(text@),
        },
{
    let Some(name) = item.name else {
        return Err(sentence(item.path.as_str(), " has an unsupported name"));
    };
    if !valid_name(name.as_str()) {
        return Err(sentence(item.path.as_str(), " has an unsupported name"));
    }
    if item.file.is_none() && !item.absolute {
        return Err(sentence(item.path.as_str(), " is not an absolute path"));
    }
    match item.plain {
        Err(error) => {
            let mut out = if item.file.is_some() {
                sentence(name.as_str(), ": ")
            } else {
                sentence(item.path.as_str(), ": ")
            };
            out.append(error.as_str());
            Err(out)
        },
        Ok(plain) => {
            if !plain {
                return Err(sentence(item.path.as_str(), " is not a regular file or directory"));
            }
            match item.file {
                Some(file) => Ok(SelectedRoot::Open { name, file }),
                None => Ok(SelectedRoot::Path(item.path)),
            }
        },
    }
}

/// How many items a selection may have, in words.
pub open spec fn too_many() -> Seq<char> {
    "the selection has more than "@ + decimal(MAX_ROOTS as nat) + " items"@
}

impl LocalSelection {
    /// A selection of what was dropped. What came with an open file is read through that file,
    /// never by its path.
    pub fn from_descriptors(items: Vec<Dropped>) -> (r: Result<LocalSelection, String>)
        ensures
            match r {
                Ok(selection) => {
                    &&& 0 < items@.len() <= MAX_ROOTS
                    &&& selection.access is None
                    &&& selection.roots@.len() == items@.len()
                    &&& forall|i: int|
                        0 <= i < items@.len() ==> drop_fault(#[trigger] items@[i]) is None
                            && selection.roots@[i] == dropped_root(items@[i])
                },
                Err(text) => {
                    ||| items@.len() == 0 && text@ == "the selection contains no local files"@
                    ||| items@.len() > MAX_ROOTS && text@ == too_many()
                    ||| 0 < items@.len() <= MAX_ROOTS && exists|i: int|
                        0 <= i < items@.len() && drop_fault(#[trigger] items@[i]) == Some(text@)
                            && forall|k: int|
                            0 <= k < i ==> drop_fault(#[trigger] items@[k]) is None
                },
            },
    {
        if items.len() == 0 {
            return Err("the selection contains no local files".to_owned());
        }
        if items.len() > MAX_ROOTS {
            let mut out = sentence("the selection has more than ", "");
            proof {
                reveal_strlit("");
                assert(out@ =~= "the selection has more than "@);
            }
            let number = decimal_text(MAX_ROOTS as u64);
            out.append(number.as_str());
            out.append(" items");
            return Err(out);
        }
        let ghost all = items@;
        let mut roots: Vec<SelectedRoot> = Vec::new();
        let mut left = items;
        let count: usize = left.len();
        let mut i: usize = 0;
        while i < count
            invariant
                0 < all.len() <= MAX_ROOTS,
                all == items@,
                count == all.len(),
                i <= count,
                left@ == all.skip(i as int),
                roots@.len() == i,
                forall|k: int|
                    0 <= k < i ==> drop_fault(#[trigger] all[k]) is None && roots@[k]
                        == dropped_root(all[k]),
            decreases count - i,
        {
            let item = left.remove(0);
            assert(item == all[i as int]);
            assert(left@ =~= all.skip(i + 1));
            match admit_drop(item) {
                Ok(root) => {
                    roots.push(root);
                },
                Err(text) => {
                    assert(drop_fault(all[i as int]) == Some(text@));
                    return Err(text);
                },
            }
            i = i + 1;
        }
        Ok(LocalSelection { roots, access: None })
    }
}

/// What was dropped in good order can be taken down.
pub proof fn what_was_dropped_is_valid(items: Seq<Dropped>, selection: LocalSelection)
    requires
        0 < items.len() <= MAX_ROOTS,
        selection.roots@.len() == items.len(),
        forall|i: int|
            0 <= i < items.len() ==> drop_fault(#[trigger] items[i]) is None
                && selection.roots@[i] == dropped_root(items[i]),
        forall|i: int|
            0 <= i < items.len() && (#[trigger] items[i]).file is None ==> is_root(
                SelectedRoot::Path(items[i].path),
            ),
    ensures
        selection.is_valid(),
{
    assert forall|i: int| 0 <= i < selection.roots@.len() implies is_root(
        #[trigger] selection.roots@[i],
    ) by {
        assert(drop_fault(items[i]) is None);
    }
}

pub open spec fn holds_id(entries: Seq<ManifestEntry>, id: EntryId) -> bool {
    exists|i: int| 0 <= i < entries.len() && (#[trigger] entries[i]).id == id
}

/// The entries at or below the chosen roots, in their order.
pub open spec fn below(entries: Seq<ManifestEntry>, roots: Seq<EntryId>) -> Seq<ManifestEntry>
    decreases entries.len(),
{
    if entries.len() == 0 {
        Seq::empty()
    } else {
        let before = below(entries.drop_last(), roots);
        let last = entries.last();
        let chosen = match last.parent {
            None => roots.contains(last.id),
            Some(parent) => holds_id(before, parent),
        };
        if chosen {
            before.push(last)
        } else {
            before
        }
    }
}

pub open spec fn size_of(entry: ManifestEntry) -> int {
    match entry.kind {
        EntryKind::File { size } => size as int,
        _ => 0,
    }
}

/// Bytes of all files.
pub open spec fn bytes_of(entries: Seq<ManifestEntry>) -> int
    decreases entries.len(),
{
    if entries.len() == 0 {
        0
    } else {
        bytes_of(entries.drop_last()) + size_of(entries.last())
    }
}

/// The identities of the entries at the top.
pub open spec fn top(entries: Seq<ManifestEntry>) -> Seq<EntryId>
    decreases entries.len(),
{
    if entries.len() == 0 {
        Seq::empty()
    } else if entries.last().parent is None {
        top(entries.drop_last()).push(entries.last().id)
    } else {
        top(entries.drop_last())
    }
}

/// What is wrong with the first root that cannot be chosen: only entries at the top can be,
/// each once.
pub open spec fn chosen_fault(entries: Seq<ManifestEntry>, roots: Seq<EntryId>) -> Option<FileError>
    decreases roots.len(),
{
    if roots.len() == 0 {
        None
    } else {
        match chosen_fault(entries, roots.drop_last()) {
            Some(e) => Some(e),
            None => if !top(entries).contains(roots.last()) {
                Some(FileError::RootUnknown)
            } else if roots.drop_last().contains(roots.last()) {
                Some(FileError::RootRepeated)
            } else {
                None
            },
        }
    }
}

/// What is wrong with a choice of roots: one of them, or that its size is no number.
pub open spec fn choice_fault(manifest: Manifest, roots: Seq<EntryId>) -> Option<FileError> {
    if chosen_fault(manifest.entries@, roots) is Some {
        chosen_fault(manifest.entries@, roots)
    } else if roots.len() > 0 && bytes_of(below(manifest.entries@, roots)) > u64::MAX {
        Some(FileError::ChoiceSize)
    } else {
        None
    }
}

proof fn lemma_chosen_fault_stays(entries: Seq<ManifestEntry>, roots: Seq<EntryId>, n: int)
    requires
        0 <= n <= roots.len(),
        chosen_fault(entries, roots.take(n)) is Some,
    ensures
        chosen_fault(entries, roots) == chosen_fault(entries, roots.take(n)),
    decreases roots.len() - n,
{
    if n < roots.len() {
        assert(roots.take(n + 1).drop_last() =~= roots.take(n));
        lemma_chosen_fault_stays(entries, roots, n + 1);
    } else {
        assert(roots.take(n) =~= roots);
    }
}

/// What a choice of roots makes of a manifest; nothing chosen is all of it.
pub open spec fn is_selected(manifest: Manifest, roots: Seq<EntryId>, part: Manifest) -> bool {
    if roots.len() == 0 {
        part == manifest
    } else {
        &&& part.generation == manifest.generation
        &&& part.entries@ == below(manifest.entries@, roots)
        &&& part.total_bytes == bytes_of(below(manifest.entries@, roots))
    }
}

proof fn lemma_bytes_grow(entries: Seq<ManifestEntry>, n: int)
    requires
        0 <= n <= entries.len(),
    ensures
        0 <= bytes_of(entries.take(n)) <= bytes_of(entries),
    decreases entries.len(),
{
    if n == entries.len() {
        assert(entries.take(n) =~= entries);
        if n > 0 {
            lemma_bytes_grow(entries.drop_last(), n - 1);
            assert(entries.drop_last().take(n - 1) =~= entries.drop_last());
        }
    } else {
        lemma_bytes_grow(entries.drop_last(), n);
        assert(entries.drop_last().take(n) =~= entries.take(n));
    }
}

fn contains_id(ids: &Vec<EntryId>, id: EntryId) -> (r: bool)
    ensures
        r == ids@.contains(id),
{
    for i in 0..ids.len()
        invariant
            forall|k: int| 0 <= k < i ==> (#[trigger] ids@[k]) != id,
    {
        if ids[i] == id {
            assert(ids@[i as int] == id);
            return true;
        }
    }
    false
}

fn has_entry(entries: &Vec<ManifestEntry>, id: EntryId) -> (r: bool)
    ensures
        r == holds_id(entries@, id),
{
    for i in 0..entries.len()
        invariant
            forall|k: int| 0 <= k < i ==> (#[trigger] entries@[k]).id != id,
    {
        if entries[i].id == id {
            assert(entries@[i as int].id == id);
            return true;
        }
    }
    false
}

/// Two choices are the same.
pub fn same_ids(a: &Vec<EntryId>, b: &Vec<EntryId>) -> (r: bool)
    ensures
        r == (a@ == b@),
{
    if a.len() != b.len() {
        return false;
    }
    for i in 0..a.len()
        invariant
            a@.len() == b@.len(),
            forall|k: int| 0 <= k < i ==> (#[trigger] a@[k]) == b@[k],
    {
        if a[i] != b[i] {
            assert(a@[i as int] != b@[i as int]);
            return false;
        }
    }
    assert(a@ =~= b@);
    true
}

impl Manifest {
    /// The entries at the top.
    pub fn roots(&self) -> (r: Vec<EntryId>)
        ensures
            r@ == top(self.entries@),
    {
        let mut out: Vec<EntryId> = Vec::new();
        let ghost all = self.entries@;
        assert(all.take(0) =~= Seq::empty());
        for i in 0..self.entries.len()
            invariant
                all == self.entries@,
                out@ == top(all.take(i as int)),
        {
            assert(all.take(i + 1).drop_last() =~= all.take(i as int));
            if self.entries[i].parent.is_none() {
                out.push(self.entries[i].id);
            }
        }
        assert(all.take(all.len() as int) =~= all);
        out
    }

    fn check_choice(&self, roots: &Vec<EntryId>) -> (r: Result<(), FileError>)
        ensures
            r.err() == chosen_fault(self.entries@, roots@),
    {
        let tops = self.roots();
        let ghost all = roots@;
        assert(all.take(0) =~= Seq::empty());
        for i in 0..roots.len()
            invariant
                all == roots@,
                tops@ == top(self.entries@),
                chosen_fault(self.entries@, all.take(i as int)) is None,
        {
            let ghost front = all.take(i as int);
            assert(all.take(i + 1).drop_last() =~= front);
            if !contains_id(&tops, roots[i]) {
                proof {
                    lemma_chosen_fault_stays(self.entries@, all, i + 1);
                }
                return Err(FileError::RootUnknown);
            }
            for j in 0..i
                invariant
                    i < roots@.len(),
                    all == roots@,
                    front == all.take(i as int),
                    tops@ == top(self.entries@),
                    tops@.contains(all[i as int]),
                    all.take(i + 1).drop_last() == front,
                    chosen_fault(self.entries@, front) is None,
                    forall|k: int| 0 <= k < j ==> (#[trigger] front[k]) != all[i as int],
            {
                if roots[j] == roots[i] {
                    assert(front[j as int] == all[i as int]);
                    proof {
                        lemma_chosen_fault_stays(self.entries@, all, i + 1);
                    }
                    return Err(FileError::RootRepeated);
                }
            }
            assert(!front.contains(all[i as int]));
        }
        assert(all.take(all.len() as int) =~= all);
        Ok(())
    }
}

/// The part of a manifest that is chosen.
pub fn select(manifest: &Arc<Manifest>, roots: &Vec<EntryId>) -> (r: Result<
    Arc<Manifest>,
    FileError,
>)
    ensures
        match r {
            Ok(part) => choice_fault(**manifest, roots@) is None && is_selected(
                **manifest,
                roots@,
                *part,
            ),
            Err(e) => choice_fault(**manifest, roots@) == Some(e),
        },
{
    if roots.len() == 0 {
        return Ok(manifest.clone());
    }
    if let Err(e) = manifest.check_choice(roots) {
        return Err(e);
    }
    let mut entries: Vec<ManifestEntry> = Vec::new();
    let mut total: u64 = 0;
    let ghost all = manifest.entries@;
    assert(all.take(0) =~= Seq::empty());
    for i in 0..manifest.entries.len()
        invariant
            all == manifest.entries@,
            roots@.len() > 0,
            chosen_fault(all, roots@) is None,
            entries@ == below(all.take(i as int), roots@),
            total == bytes_of(entries@),
    {
        let entry = &manifest.entries[i];
        proof {
            assert(all.take(i + 1).drop_last() =~= all.take(i as int));
            assert(all.take(i + 1).last() == *entry);
            lemma_below_grows(all, roots@, i + 1);
        }
        let chosen: bool = match entry.parent {
            None => contains_id(roots, entry.id),
            Some(parent) => has_entry(&entries, parent),
        };
        if chosen {
            let size: u64 = match &entry.kind {
                EntryKind::File { size } => *size,
                _ => 0,
            };
            let ghost before = entries@;
            assert(before.push(*entry).drop_last() =~= before);
            match total.checked_add(size) {
                Some(sum) => {
                    total = sum;
                },
                None => {
                    assert(bytes_of(below(all.take(i + 1), roots@)) > u64::MAX);
                    return Err(FileError::ChoiceSize);
                },
            }
            entries.push(entry.clone());
        }
    }
    assert(all.take(all.len() as int) =~= all);
    Ok(Arc::new(Manifest { generation: manifest.generation, entries, total_bytes: total }))
}

proof fn lemma_below_grows(all: Seq<ManifestEntry>, roots: Seq<EntryId>, n: int)
    requires
        0 <= n <= all.len(),
    ensures
        bytes_of(below(all.take(n), roots)) <= bytes_of(below(all, roots)),
    decreases all.len() - n,
{
    if n < all.len() {
        lemma_below_grows(all, roots, n + 1);
        let now = below(all.take(n), roots);
        let next = below(all.take(n + 1), roots);
        assert(all.take(n + 1).drop_last() =~= all.take(n));
        if next != now {
            assert(next.drop_last() =~= now);
        }
    } else {
        assert(all.take(n) =~= all);
    }
}

/// A choice holds nothing that the manifest does not hold, and nothing whose parent it
/// lacks.
pub proof fn a_choice_is_closed_upwards(entries: Seq<ManifestEntry>, roots: Seq<EntryId>)
    ensures
        forall|i: int|
            0 <= i < below(entries, roots).len() ==> entries.contains(
                #[trigger] below(entries, roots)[i],
            ) && match below(entries, roots)[i].parent {
                None => roots.contains(below(entries, roots)[i].id),
                Some(parent) => holds_id(below(entries, roots), parent),
            },
    decreases entries.len(),
{
    if entries.len() > 0 {
        let front = entries.drop_last();
        a_choice_is_closed_upwards(front, roots);
        let before = below(front, roots);
        let after = below(entries, roots);
        assert forall|i: int| 0 <= i < after.len() implies entries.contains(#[trigger] after[i])
            && match after[i].parent {
            None => roots.contains(after[i].id),
            Some(parent) => holds_id(after, parent),
        } by {
            if i < before.len() {
                assert(after[i] == before[i]);
                assert(front.contains(before[i]));
                let k = choose|k: int| 0 <= k < front.len() && front[k] == before[i];
                assert(entries[k] == after[i]);
                if let Some(parent) = after[i].parent {
                    let p = choose|p: int| 0 <= p < before.len() && (#[trigger] before[p]).id == parent;
                    assert(after[p].id == parent);
                }
            } else {
                assert(entries[entries.len() - 1] == after[i]);
                if let Some(parent) = after[i].parent {
                    let p = choose|p: int| 0 <= p < before.len() && (#[trigger] before[p]).id == parent;
                    assert(after[p].id == parent);
                }
            }
        }
    }
}

} // verus!
