//! How received files are put in place, and what is made of a transfer that was interrupted.

use super::claims::{lemma_remaining, remaining, Found};
use super::places::{Place, PlaceView};
use super::receipts::{
    is_root_place, places, root_views, tops, Identity, PublishedRoot, Receipt, ReceiptView,
    RootView,
};
use super::records::{EntryId, EntryKind, Manifest, ManifestEntry, TransferState};
use super::selection::MAX_ROOTS;
use vstd::prelude::*;

verus! {

/// Bytes that have to stay free.
pub const RESERVE: u64 = 0x100_0000;

/// Whether files fit a file system with `blocks` free blocks of `block` bytes.
pub fn has_room(blocks: u64, block: u64, total: u64) -> (r: bool)
    ensures
        r == (blocks * block >= total + RESERVE),
{
    assert(0 <= blocks * block <= 0xffff_ffff_ffff_ffff * 0xffff_ffff_ffff_ffff)
        by (nonlinear_arith)
        requires
            0 <= blocks <= 0xffff_ffff_ffff_ffff,
            0 <= block <= 0xffff_ffff_ffff_ffff,
    ;
    blocks as u128 * block as u128 >= total as u128 + RESERVE as u128
}

/// The last of the first `n` entries with an identity.
pub open spec fn entry_before(entries: Seq<ManifestEntry>, n: nat, id: EntryId) -> Option<int>
    decreases n,
{
    if n == 0 {
        None
    } else if entries[n - 1].id == id {
        Some(n - 1)
    } else {
        entry_before(entries, (n - 1) as nat, id)
    }
}

proof fn lemma_entry_before(entries: Seq<ManifestEntry>, n: nat, id: EntryId)
    ensures
        entry_before(entries, n, id) matches Some(at) ==> 0 <= at < n && entries[at].id == id,
    decreases n,
{
    if n > 0 && entries[n - 1].id != id {
        lemma_entry_before(entries, (n - 1) as nat, id);
    }
}

/// The names on the way to an entry; nothing where a parent is missing.
pub open spec fn way(entries: Seq<ManifestEntry>, i: nat) -> Option<Seq<Seq<char>>>
    decreases i,
{
    match entries[i as int].parent {
        None => Some(seq![entries[i as int].name@]),
        Some(parent) => match entry_before(entries, i, parent) {
            Some(at) => if 0 <= at < i {
                match way(entries, at as nat) {
                    Some(front) => Some(front.push(entries[i as int].name@)),
                    None => None,
                }
            } else {
                None
            },
            None => None,
        },
    }
}

fn find_before(entries: &Vec<ManifestEntry>, n: usize, id: EntryId) -> (r: Option<usize>)
    requires
        n <= entries@.len(),
    ensures
        match r {
            Some(at) => entry_before(entries@, n as nat, id) == Some(at as int) && at < n,
            None => entry_before(entries@, n as nat, id) is None,
        },
{
    let mut at: usize = n;
    while at > 0
        invariant
            at <= n <= entries@.len(),
            entry_before(entries@, n as nat, id) == entry_before(entries@, at as nat, id),
        decreases at,
    {
        at = at - 1;
        if entries[at].id == id {
            return Some(at);
        }
    }
    None
}

/// The ways to all entries, or nothing where a parent is missing.
pub fn ways(manifest: &Manifest) -> (r: Option<Vec<Place>>)
    ensures
        match r {
            Some(all) => {
                &&& all@.len() == manifest.entries@.len()
                &&& forall|i: int|
                    0 <= i < all@.len() ==> !(#[trigger] all@[i]).absolute && way(
                        manifest.entries@,
                        i as nat,
                    ) == Some(all@[i]@.names)
            },
            None => exists|i: nat|
                i < manifest.entries@.len() && (#[trigger] way(manifest.entries@, i)) is None,
        },
{
    let mut out: Vec<Place> = Vec::new();
    for i in 0..manifest.entries.len()
        invariant
            out@.len() == i,
            forall|k: int|
                0 <= k < i ==> !(#[trigger] out@[k]).absolute && way(manifest.entries@, k as nat)
                    == Some(out@[k]@.names),
    {
        let entry = &manifest.entries[i];
        let place = match entry.parent {
            None => {
                let start = Place { absolute: false, names: Vec::new() };
                let place = start.join(entry.name.as_str());
                assert(place@.names =~= seq![entry.name@]);
                place
            },
            Some(parent) => {
                match find_before(&manifest.entries, i, parent) {
                    Some(at) => {
                        assert(way(manifest.entries@, at as nat) == Some(out@[at as int]@.names));
                        out[at].join(entry.name.as_str())
                    },
                    None => {
                        assert(way(manifest.entries@, i as nat) is None);
                        return None;
                    },
                }
            },
        };
        assert(!place@.absolute);
        out.push(place);
    }
    Some(out)
}

/// What an entry keeps until the files are in place: the last bits of a directory at the top
/// are set only there.
pub open spec fn set_late(entry: ManifestEntry) -> bool {
    entry.parent is None && entry.kind is Directory
}

/// The entries among the first `n` whose bits are set before, the last first.
pub open spec fn finishing(entries: Seq<ManifestEntry>, n: nat) -> Seq<int>
    decreases n,
{
    if n == 0 {
        Seq::empty()
    } else if set_late(entries[n - 1]) {
        finishing(entries, (n - 1) as nat)
    } else {
        seq![n - 1] + finishing(entries, (n - 1) as nat)
    }
}

/// The order in which bits and times are set: what is in a directory comes before it.
pub fn finishing_order(manifest: &Manifest) -> (r: Vec<usize>)
    ensures
        r@.map_values(|i: usize| i as int) == finishing(
            manifest.entries@,
            manifest.entries@.len(),
        ),
{
    let mut out: Vec<usize> = Vec::new();
    let ghost all = manifest.entries@;
    let ghost whole = finishing(all, all.len());
    let mut n: usize = manifest.entries.len();
    assert(whole =~= out@.map_values(|i: usize| i as int) + finishing(all, n as nat));
    while n > 0
        invariant
            n <= all.len(),
            all == manifest.entries@,
            whole == out@.map_values(|i: usize| i as int) + finishing(all, n as nat),
        decreases n,
    {
        n = n - 1;
        let entry = &manifest.entries[n];
        let late: bool = entry.parent.is_none() && match entry.kind {
            EntryKind::Directory => true,
            _ => false,
        };
        if !late {
            let ghost before = out@;
            out.push(n);
            assert(out@.map_values(|i: usize| i as int) =~= before.map_values(
                |i: usize| i as int,
            ).push(n as int));
            assert(whole =~= out@.map_values(|i: usize| i as int) + finishing(all, n as nat));
        }
    }
    assert(out@.map_values(|i: usize| i as int) =~= whole);
    out
}

/// The entries come out from the last to the first, so that nothing is changed in a directory
/// whose bits are set.
pub proof fn what_is_inside_is_finished_first(entries: Seq<ManifestEntry>, n: nat)
    ensures
        forall|i: int|
            0 <= i < finishing(entries, n).len() ==> 0 <= #[trigger] finishing(entries, n)[i] < n,
        forall|i: int, j: int|
            0 <= i < j < finishing(entries, n).len() ==> (#[trigger] finishing(entries, n)[i]) > (
            #[trigger] finishing(entries, n)[j]),
    decreases n,
{
    if n > 0 {
        what_is_inside_is_finished_first(entries, (n - 1) as nat);
        let rest = finishing(entries, (n - 1) as nat);
        let all = finishing(entries, n);
        if !set_late(entries[n - 1]) {
            assert forall|i: int| 0 <= i < all.len() implies 0 <= #[trigger] all[i] < n by {
                if i > 0 {
                    assert(all[i] == rest[i - 1]);
                }
            }
            assert forall|i: int, j: int| 0 <= i < j < all.len() implies (#[trigger] all[i]) > (
            #[trigger] all[j]) by {
                assert(all[j] == rest[j - 1]);
                if i > 0 {
                    assert(all[i] == rest[i - 1]);
                }
            }
        }
    }
}

/// What an interrupted transfer calls for.
#[derive(Clone, Copy, Debug, PartialEq, Eq, Structural)]
pub enum RecoverStep {
    /// It was being cleared away: go on with that.
    Clear,
    /// It was not over: look which files are in place.
    Look,
    /// It was over: only what is left over has to go.
    Tidy,
}

/// The roots that a manifest and the identities of its top entries make.
pub open spec fn made_roots(entries: Seq<ManifestEntry>, identities: Seq<Identity>) -> Seq<
    RootView,
>
    decreases entries.len(),
{
    if entries.len() == 0 {
        Seq::empty()
    } else {
        let before = made_roots(entries.drop_last(), identities);
        if entries.last().parent is None {
            before.push(
                RootView { name: entries.last().name@, identity: identities[before.len() as int] },
            )
        } else {
            before
        }
    }
}

/// How many entries stand at the top.
pub open spec fn top_count(entries: Seq<ManifestEntry>) -> nat
    decreases entries.len(),
{
    if entries.len() == 0 {
        0
    } else if entries.last().parent is None {
        top_count(entries.drop_last()) + 1
    } else {
        top_count(entries.drop_last())
    }
}

proof fn lemma_made_roots(entries: Seq<ManifestEntry>, identities: Seq<Identity>)
    ensures
        made_roots(entries, identities).len() == top_count(entries),
    decreases entries.len(),
{
    if entries.len() > 0 {
        lemma_made_roots(entries.drop_last(), identities);
    }
}

/// The known places, and those of the roots that turn out to be there.
pub open spec fn added(
    paths: Seq<PlaceView>,
    directory: PlaceView,
    roots: Seq<RootView>,
    seen: Seq<Found>,
    n: nat,
) -> Seq<PlaceView>
    decreases n,
{
    if n == 0 {
        paths
    } else {
        let before = added(paths, directory, roots, seen, (n - 1) as nat);
        let place = directory.join(roots[n - 1].name);
        if seen[n - 1] is Same && !before.contains(place) {
            before.push(place)
        } else {
            before
        }
    }
}

impl ReceiptView {
    pub open spec fn recover_step(self) -> RecoverStep {
        if self.clearing {
            RecoverStep::Clear
        } else if !self.state.is_terminal() {
            RecoverStep::Look
        } else {
            RecoverStep::Tidy
        }
    }

    /// All files of a transfer that was not over turn out to be in place.
    pub open spec fn turned_out_ready(self, seen: Seq<Found>, unfinished: bool) -> bool {
        self.roots.len() > 0 && remaining(
            self.directory,
            self.roots,
            seen,
            self.roots.len(),
        ).len() == self.roots.len() && !unfinished
    }

    /// What is made of a transfer that was not over: `unfinished` says what could not be
    /// completed of the files that are in place.
    pub open spec fn recovered(self, seen: Seq<Found>, unfinished: Option<Seq<char>>) -> ReceiptView {
        let paths = remaining(self.directory, self.roots, seen, self.roots.len());
        if self.turned_out_ready(seen, unfinished is Some) {
            ReceiptView {
                paths,
                state: TransferState::Ready,
                bytes: self.total_bytes,
                error: None,
                ..self
            }
        } else {
            ReceiptView {
                paths,
                state: TransferState::Failed,
                error: Some(
                    match unfinished {
                        Some(why) =>
                        "service stopped before published directory metadata was recorded: "@ + why
                            + "; explicit Retry required"@,
                        None =>
                        "service stopped before receive completed; explicit Retry required"@,
                    },
                ),
                ..self
            }
        }
    }

    /// The files are about to be put in place.
    pub open spec fn publishing(self, identities: Seq<Identity>) -> ReceiptView {
        ReceiptView {
            state: TransferState::Verifying,
            roots: self.roots + made_roots(self.manifest.entries@, identities),
            ..self
        }
    }

    /// One more is in place.
    pub open spec fn published(self, i: int) -> ReceiptView {
        ReceiptView { paths: self.paths.push(self.directory.join(self.roots[i].name)), ..self }
    }

    pub open spec fn finished(self) -> ReceiptView {
        ReceiptView { state: TransferState::Ready, bytes: self.total_bytes, ..self }
    }

    pub open spec fn failed(
        self,
        error: Seq<char>,
        cancelled: bool,
        bytes: u64,
        seen: Seq<Found>,
    ) -> ReceiptView {
        ReceiptView {
            paths: added(self.paths, self.directory, self.roots, seen, self.roots.len()),
            state: if cancelled {
                TransferState::Cancelled
            } else {
                TransferState::Failed
            },
            error: Some(error),
            bytes,
            ..self
        }
    }
}

impl Receipt {
    pub fn recover_journal(&self) -> (r: RecoverStep)
        ensures
            r == self@.recover_step(),
    {
        if self.clearing {
            RecoverStep::Clear
        } else if !self.state.terminal() {
            RecoverStep::Look
        } else {
            RecoverStep::Tidy
        }
    }

    /// Whether a root was already known to be in place.
    pub fn knows(&self, i: usize) -> (r: bool)
        requires
            i < self@.roots.len(),
        ensures
            r == self@.paths.contains(self@.directory.join(self@.roots[i as int].name)),
    {
        let place = self.directory.join(self.roots[i].name.as_str());
        assert(self@.roots[i as int].name == self.roots@[i as int].name@);
        for k in 0..self.paths.len()
            invariant
                forall|j: int| 0 <= j < k ==> (#[trigger] self.paths@[j])@ != place@,
                place@ == self@.directory.join(self@.roots[i as int].name),
        {
            if self.paths[k].same(&place) {
                assert(self@.paths[k as int] == place@);
                return true;
            }
        }
        proof {
            if self@.paths.contains(place@) {
                let j = choose|j: int| 0 <= j < self@.paths.len() && self@.paths[j] == place@;
                assert(self.paths@[j]@ == place@);
            }
        }
        false
    }

    /// Makes the best of a transfer that was not over.
    pub fn recover(&mut self, seen: &Vec<Found>, unfinished: Option<&str>)
        requires
            seen@.len() == old(self)@.roots.len(),
        ensures
            final(self)@ == old(self)@.recovered(
                seen@,
                match unfinished {
                    Some(why) => Some(why@),
                    None => None,
                },
            ),
    {
        let ghost before = self@;
        self.paths = self.standing(seen);
        if self.roots.len() > 0 && self.paths.len() == self.roots.len() && unfinished.is_none() {
            self.state = TransferState::Ready;
            self.bytes = self.total_bytes;
            self.error = None;
        } else {
            self.state = TransferState::Failed;
            let text: String = match unfinished {
                Some(why) => {
                    let mut text =
                        "service stopped before published directory metadata was recorded: ".to_owned();
                    text.append(why);
                    text.append("; explicit Retry required");
                    text
                },
                None => "service stopped before receive completed; explicit Retry required".to_owned(),
            };
            self.error = Some(text);
        }
        assert(places(self.paths@).len() == self.paths@.len());
        assert(self@.paths =~= remaining(before.directory, before.roots, seen@, before.roots.len()));
    }

    /// Notes what is about to be put in place: `identities` are those of the entries at the
    /// top.
    pub fn begin_publication(&mut self, identities: &Vec<Identity>)
        requires
            identities@.len() == top_count(old(self)@.manifest.entries@),
        ensures
            final(self)@ == old(self)@.publishing(identities@),
    {
        let ghost before = self@;
        let ghost all = self.manifest.entries@;
        let mut roots: Vec<PublishedRoot> = Vec::new();
        assert(all.take(0) =~= Seq::empty());
        assert(root_views(roots@) =~= Seq::empty());
        for i in 0..self.manifest.entries.len()
            invariant
                all == self.manifest.entries@,
                identities@.len() == top_count(all),
                root_views(roots@) == made_roots(all.take(i as int), identities@),
        {
            assert(all.take(i + 1).drop_last() =~= all.take(i as int));
            proof {
                lemma_made_roots(all.take(i as int), identities@);
                lemma_top_count(all, i + 1);
            }
            if self.manifest.entries[i].parent.is_none() {
                let ghost known = roots@;
                let root = PublishedRoot {
                    name: self.manifest.entries[i].name.clone(),
                    identity: identities[roots.len()],
                };
                roots.push(root);
                assert(root_views(roots@) =~= root_views(known).push(root@));
            }
        }
        assert(all.take(all.len() as int) =~= all);
        self.state = TransferState::Verifying;
        let ghost old_roots = self.roots@;
        let ghost new_roots = roots@;
        self.roots.append(&mut roots);
        assert(root_views(self.roots@) =~= root_views(old_roots) + root_views(new_roots));
    }

    /// A root is in place.
    pub fn publish(&mut self, i: usize)
        requires
            i < old(self)@.roots.len(),
        ensures
            final(self)@ == old(self)@.published(i as int),
    {
        let ghost before = self@;
        let place = self.directory.join(self.roots[i].name.as_str());
        assert(before.roots[i as int].name == self.roots@[i as int].name@);
        self.paths.push(place);
        assert(self@.paths =~= before.paths.push(place@));
    }

    /// All are in place.
    pub fn finish(&mut self)
        ensures
            final(self)@ == old(self)@.finished(),
    {
        self.state = TransferState::Ready;
        self.bytes = self.total_bytes;
    }

    /// The transfer did not succeed: `seen` is what is found of the roots.
    pub fn fail(&mut self, error: String, cancelled: bool, bytes: u64, seen: &Vec<Found>)
        requires
            seen@.len() == old(self)@.roots.len(),
        ensures
            final(self)@ == old(self)@.failed(error@, cancelled, bytes, seen@),
    {
        let ghost before = self@;
        let count: usize = self.roots.len();
        for i in 0..count
            invariant
                count == before.roots.len(),
                seen@.len() == before.roots.len(),
                self@ == (ReceiptView {
                    paths: added(
                        before.paths,
                        before.directory,
                        before.roots,
                        seen@,
                        i as nat,
                    ),
                    ..before
                }),
        {
            if seen[i] == Found::Same && !self.knows(i) {
                self.publish(i);
            }
        }
        self.state = if cancelled {
            TransferState::Cancelled
        } else {
            TransferState::Failed
        };
        self.error = Some(error);
        self.bytes = bytes;
    }
}

proof fn lemma_top_count(entries: Seq<ManifestEntry>, n: int)
    requires
        0 <= n <= entries.len(),
    ensures
        top_count(entries.take(n)) <= top_count(entries),
    decreases entries.len() - n,
{
    if n < entries.len() {
        lemma_top_count(entries, n + 1);
        assert(entries.take(n + 1).drop_last() =~= entries.take(n));
    } else {
        assert(entries.take(n) =~= entries);
    }
}

/// The first entry at the top with a name.
pub fn root_entry(manifest: &Manifest, name: &String) -> (r: Option<usize>)
    ensures
        match r {
            Some(at) => {
                &&& at < manifest.entries@.len()
                &&& manifest.entries@[at as int].parent is None
                &&& manifest.entries@[at as int].name@ == name@
                &&& forall|i: int|
                    0 <= i < at ==> !((#[trigger] manifest.entries@[i]).parent is None
                        && manifest.entries@[i].name@ == name@)
            },
            None => !tops(manifest.entries@, name@),
        },
{
    for i in 0..manifest.entries.len()
        invariant
            forall|k: int|
                0 <= k < i ==> !((#[trigger] manifest.entries@[k]).parent is None
                    && manifest.entries@[k].name@ == name@),
    {
        if manifest.entries[i].parent.is_none() && manifest.entries[i].name == *name {
            return Some(i);
        }
    }
    None
}

/// A receipt whose transfer was interrupted is still believed after it was looked into. It
/// counts as ready only if all its files are in place.
pub proof fn recovery_keeps_a_receipt_sound(
    receipt: ReceiptView,
    base: PlaceView,
    seen: Seq<Found>,
    unfinished: Option<Seq<char>>,
)
    requires
        receipt.sound(base),
        seen.len() == receipt.roots.len(),
    ensures
        receipt.recovered(seen, unfinished).sound(base),
        receipt.recovered(seen, unfinished).state.is_terminal(),
        receipt.recovered(seen, unfinished).state is Ready ==> unfinished is None && forall|i: int|
            0 <= i < seen.len() ==> (#[trigger] seen[i]) is Same,
{
    let after = receipt.recovered(seen, unfinished);
    lemma_remaining(receipt.directory, receipt.roots, seen, receipt.roots.len());
    assert forall|i: int| 0 <= i < after.paths.len() implies is_root_place(
        after.directory,
        after.roots,
        #[trigger] after.paths[i],
    ) by {
        let k = choose|k: int|
            0 <= k < receipt.roots.len() && after.paths[i] == receipt.directory.join(
                (#[trigger] receipt.roots[k]).name,
            );
        assert(after.paths[i] == after.directory.join(after.roots[k].name));
    }
    if after.state is Ready {
        lemma_all_there(receipt.directory, receipt.roots, seen, receipt.roots.len());
    }
}

proof fn lemma_all_there(
    directory: PlaceView,
    roots: Seq<RootView>,
    seen: Seq<Found>,
    n: nat,
)
    ensures
        remaining(directory, roots, seen, n).len() <= n,
        remaining(directory, roots, seen, n).len() == n ==> forall|i: int|
            0 <= i < n ==> (#[trigger] seen[i]) is Same,
    decreases n,
{
    if n > 0 {
        lemma_all_there(directory, roots, seen, (n - 1) as nat);
    }
}

/// Entries at the top have names of their own.
pub open spec fn tops_differ(entries: Seq<ManifestEntry>) -> bool {
    forall|i: int, j: int|
        0 <= i < j < entries.len() && (#[trigger] entries[i]).parent is None && (
        #[trigger] entries[j]).parent is None ==> entries[i].name@ != entries[j].name@
}

/// A root is one of the first `n` entries, at the top.
spec fn among(entries: Seq<ManifestEntry>, n: int, name: Seq<char>) -> bool {
    exists|k: int|
        0 <= k < n && (#[trigger] entries[k]).parent is None && entries[k].name@ == name
}

proof fn lemma_made_roots_sound(entries: Seq<ManifestEntry>, identities: Seq<Identity>, n: int)
    requires
        0 <= n <= entries.len(),
        tops_differ(entries),
    ensures
        forall|i: int|
            0 <= i < made_roots(entries.take(n), identities).len() ==> among(
                entries,
                n,
                (#[trigger] made_roots(entries.take(n), identities)[i]).name,
            ),
        forall|i: int, j: int|
            0 <= i < j < made_roots(entries.take(n), identities).len() ==> (
            #[trigger] made_roots(entries.take(n), identities)[i]).name != (
            #[trigger] made_roots(entries.take(n), identities)[j]).name,
    decreases n,
{
    if n > 0 {
        lemma_made_roots_sound(entries, identities, n - 1);
        assert(entries.take(n).drop_last() =~= entries.take(n - 1));
        let before = made_roots(entries.take(n - 1), identities);
        let roots = made_roots(entries.take(n), identities);
        let last = entries[n - 1];
        assert(entries.take(n).last() == last);
        assert forall|i: int| 0 <= i < roots.len() implies among(
            entries,
            n,
            (#[trigger] roots[i]).name,
        ) by {
            if i < before.len() {
                assert(roots[i] == before[i]);
                let k = choose|k: int|
                    0 <= k < n - 1 && (#[trigger] entries[k]).parent is None && entries[k].name@
                        == before[i].name;
                assert(entries[k].name@ == roots[i].name);
            } else {
                assert(entries[n - 1].name@ == roots[i].name);
            }
        }
        assert forall|i: int, j: int| 0 <= i < j < roots.len() implies (#[trigger] roots[i]).name
            != (#[trigger] roots[j]).name by {
            assert(roots[i] == before[i]);
            assert(among(entries, n - 1, before[i].name));
            let k = choose|k: int|
                0 <= k < n - 1 && (#[trigger] entries[k]).parent is None && entries[k].name@
                    == before[i].name;
            if j < before.len() {
                assert(roots[j] == before[j]);
            } else {
                assert(entries[k].name@ != entries[n - 1].name@);
            }
        }
    } else {
        assert(entries.take(0) =~= Seq::empty());
    }
}

/// A receipt stays believable while its files are put in place, one after the other, and when
/// the last one is.
pub proof fn publication_keeps_a_receipt_sound(
    receipt: ReceiptView,
    base: PlaceView,
    identities: Seq<Identity>,
)
    requires
        receipt.sound(base),
        receipt.roots.len() == 0,
        tops_differ(receipt.manifest.entries@),
        top_count(receipt.manifest.entries@) <= MAX_ROOTS,
    ensures
        receipt.publishing(identities).sound(base),
        receipt.publishing(identities).paths.len() == 0,
{
    let entries = receipt.manifest.entries@;
    lemma_made_roots(entries, identities);
    lemma_made_roots_sound(entries, identities, entries.len() as int);
    assert(entries.take(entries.len() as int) =~= entries);
    let after = receipt.publishing(identities);
    assert(after.roots =~= made_roots(entries, identities));
    assert forall|i: int| 0 <= i < after.roots.len() implies tops(
        entries,
        (#[trigger] after.roots[i]).name,
    ) by {
        assert(among(entries, entries.len() as int, after.roots[i].name));
        let k = choose|k: int|
            0 <= k < entries.len() && (#[trigger] entries[k]).parent is None && entries[k].name@
                == after.roots[i].name;
        assert(entries[k].parent is None);
    }
}

/// A receipt stays believable when the next of its files is in place.
pub proof fn each_publication_keeps_a_receipt_sound(receipt: ReceiptView, base: PlaceView)
    requires
        receipt.sound(base),
        receipt.paths.len() < receipt.roots.len(),
        forall|i: int|
            0 <= i < receipt.paths.len() ==> (#[trigger] receipt.paths[i]) == receipt.directory.join(
                receipt.roots[i].name,
            ),
    ensures
        ({
            let n = receipt.paths.len() as int;
            let after = receipt.published(n);
            &&& after.sound(base)
            &&& after.paths.len() == n + 1
            &&& forall|i: int|
                0 <= i < n + 1 ==> (#[trigger] after.paths[i]) == after.directory.join(
                    after.roots[i].name,
                )
        }),
        receipt.finished().sound(base),
{
    let n = receipt.paths.len() as int;
    let after = receipt.published(n);
    assert forall|i: int, j: int| 0 <= i < j < after.paths.len() implies (
    #[trigger] after.paths[i]) != (#[trigger] after.paths[j]) by {
        assert(after.paths[i] == receipt.paths[i]);
        if j < n {
            assert(after.paths[j] == receipt.paths[j]);
        } else {
            assert(after.paths[i].names.last() == receipt.roots[i].name);
            assert(after.paths[j].names.last() == receipt.roots[n].name);
            assert(receipt.roots[i].name != receipt.roots[n].name);
        }
    }
    assert forall|i: int| 0 <= i < after.paths.len() implies is_root_place(
        after.directory,
        after.roots,
        #[trigger] after.paths[i],
    ) by {
        assert(after.paths[i] == after.directory.join(after.roots[i].name));
    }
}

} // verus!
