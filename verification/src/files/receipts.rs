//! What is remembered of files that were received, and how it is brought in order.

use super::places::{
    holder_name, holder_text, is_id, is_id_text, journal_name, journal_text, receipt_path,
    receipt_place, staging_name, staging_text, Place, PlaceView,
};
use super::records::{Manifest, ManifestEntry, TransferDirection, TransferId, TransferState};
use super::selection::MAX_ROOTS;
use std::sync::Arc;
use vstd::prelude::*;

verus! {

/// By what the file system knows a file again.
#[derive(Clone, Copy, Debug, PartialEq, Eq, Structural)]
pub struct Identity {
    pub dev: u64,
    pub ino: u64,
}

/// A file or directory that was put in place.
#[derive(Debug)]
pub struct PublishedRoot {
    pub name: String,
    pub identity: Identity,
}

/// Something that is being removed: it is moved into a holder first, under a name of its own.
#[derive(Debug)]
pub struct Claim {
    pub original: Place,
    pub holder: Place,
    pub name: String,
    pub identity: Identity,
}

/// What is remembered of a transfer to this machine.
#[derive(Debug)]
pub struct Receipt {
    pub id: TransferId,
    pub direction: TransferDirection,
    pub state: TransferState,
    pub bytes: u64,
    pub total_bytes: u64,
    pub paths: Vec<Place>,
    pub error: Option<String>,
    /// The files are kept in the cache.
    pub cached: bool,
    pub manifest: Arc<Manifest>,
    pub directory: Place,
    pub staging: String,
    pub roots: Vec<PublishedRoot>,
    pub stage_identity: Option<Identity>,
    pub clearing: bool,
    pub claim: Option<Claim>,
}

pub ghost struct RootView {
    pub name: Seq<char>,
    pub identity: Identity,
}

pub ghost struct ClaimView {
    pub original: PlaceView,
    pub holder: PlaceView,
    pub name: Seq<char>,
    pub identity: Identity,
}

impl ClaimView {
    /// Where the thing is once it is moved.
    pub open spec fn location(self) -> PlaceView {
        self.holder.join(self.name)
    }
}

#[verifier::ext_equal]
pub ghost struct ReceiptView {
    pub id: TransferId,
    pub direction: TransferDirection,
    pub state: TransferState,
    pub bytes: u64,
    pub total_bytes: u64,
    pub paths: Seq<PlaceView>,
    pub error: Option<Seq<char>>,
    pub cached: bool,
    pub manifest: Arc<Manifest>,
    pub directory: PlaceView,
    pub staging: Seq<char>,
    pub roots: Seq<RootView>,
    pub stage_identity: Option<Identity>,
    pub clearing: bool,
    pub claim: Option<ClaimView>,
}

impl View for PublishedRoot {
    type V = RootView;

    open spec fn view(&self) -> RootView {
        RootView { name: self.name@, identity: self.identity }
    }
}

impl View for Claim {
    type V = ClaimView;

    open spec fn view(&self) -> ClaimView {
        ClaimView {
            original: self.original@,
            holder: self.holder@,
            name: self.name@,
            identity: self.identity,
        }
    }
}

pub open spec fn places(all: Seq<Place>) -> Seq<PlaceView> {
    Seq::new(all.len(), |i: int| all[i]@)
}

pub open spec fn root_views(all: Seq<PublishedRoot>) -> Seq<RootView> {
    Seq::new(all.len(), |i: int| all[i]@)
}

impl View for Receipt {
    type V = ReceiptView;

    open spec fn view(&self) -> ReceiptView {
        ReceiptView {
            id: self.id,
            direction: self.direction,
            state: self.state,
            bytes: self.bytes,
            total_bytes: self.total_bytes,
            paths: places(self.paths@),
            error: match self.error {
                Some(text) => Some(text@),
                None => None,
            },
            cached: self.cached,
            manifest: self.manifest,
            directory: self.directory@,
            staging: self.staging@,
            roots: root_views(self.roots@),
            stage_identity: self.stage_identity,
            clearing: self.clearing,
            claim: match self.claim {
                Some(claim) => Some(claim@),
                None => None,
            },
        }
    }
}

/// Why a receipt is not believed, or not cleared away.
#[derive(Clone, Copy, Debug, PartialEq, Eq, Structural)]
pub enum StorageFault {
    Manifest,
    Identity,
    Location,
    Claim,
    CacheLocation,
    Progress,
    Roots,
    Paths,
    DirectoryMismatch,
    Relocated,
    Published,
    StagingName,
    StagingChanged,
    StagingUnknown,
}

impl StorageFault {
    pub open spec fn words(self) -> Seq<char> {
        match self {
            StorageFault::Manifest => "invalid manifest"@,
            StorageFault::Identity => "file journal identity mismatch"@,
            StorageFault::Location => "invalid receipt storage location"@,
            StorageFault::Claim => "invalid claimed cleanup record"@,
            StorageFault::CacheLocation => "invalid cache receipt location"@,
            StorageFault::Progress => "invalid receive journal progress"@,
            StorageFault::Roots => "invalid published root identity"@,
            StorageFault::Paths => "invalid published receipt path"@,
            StorageFault::DirectoryMismatch => "cache journal directory mismatch"@,
            StorageFault::Relocated => "relocated receipt identity changed; retain ownership for inspection"@,
            StorageFault::Published => "published receipt identity changed; retain ownership for inspection"@,
            StorageFault::StagingName => "invalid staging identity"@,
            StorageFault::StagingChanged => "recovery staging identity changed"@,
            StorageFault::StagingUnknown => "unrecognized incomplete staging directory"@,
        }
    }

    pub fn text(self) -> (r: &'static str)
        ensures
            r@ == self.words(),
    {
        match self {
            StorageFault::Manifest => "invalid manifest",
            StorageFault::Identity => "file journal identity mismatch",
            StorageFault::Location => "invalid receipt storage location",
            StorageFault::Claim => "invalid claimed cleanup record",
            StorageFault::CacheLocation => "invalid cache receipt location",
            StorageFault::Progress => "invalid receive journal progress",
            StorageFault::Roots => "invalid published root identity",
            StorageFault::Paths => "invalid published receipt path",
            StorageFault::DirectoryMismatch => "cache journal directory mismatch",
            StorageFault::Relocated => "relocated receipt identity changed; retain ownership for inspection",
            StorageFault::Published => "published receipt identity changed; retain ownership for inspection",
            StorageFault::StagingName => "invalid staging identity",
            StorageFault::StagingChanged => "recovery staging identity changed",
            StorageFault::StagingUnknown => "unrecognized incomplete staging directory",
        }
    }
}

/// An entry at the top of a manifest has this name.
pub open spec fn tops(entries: Seq<ManifestEntry>, name: Seq<char>) -> bool {
    exists|i: int|
        0 <= i < entries.len() && (#[trigger] entries[i]).parent is None && entries[i].name@ == name
}

/// A place is that of a root.
pub open spec fn is_root_place(directory: PlaceView, roots: Seq<RootView>, place: PlaceView) -> bool {
    exists|i: int| 0 <= i < roots.len() && place == directory.join((#[trigger] roots[i]).name)
}

impl ReceiptView {
    /// The thing that is being removed is named as it has to be.
    pub open spec fn claim_sound(self) -> bool {
        self.claim matches Some(claim) ==> claim.original.absolute && claim.holder.absolute
            && claim.holder.named() && claim.original.named() && claim.holder.parent()
            == claim.original.parent() && claim.holder.name() == holder_text(self.id) && is_id(
            claim.name,
        )
    }

    /// The files of the cache were moved, to be removed.
    pub open spec fn relocated(self, base: PlaceView) -> bool {
        self.claim matches Some(claim) && claim.original == receipt_place(base, self.id)
            && claim.location() == self.directory
    }

    pub open spec fn place_sound(self, base: PlaceView) -> bool {
        self.cached ==> self.directory == receipt_place(base, self.id) || self.relocated(base)
    }

    pub open spec fn progress_sound(self) -> bool {
        self.direction is Receive && self.total_bytes == self.manifest.total_bytes && self.bytes
            <= self.total_bytes
    }

    pub open spec fn roots_sound(self) -> bool {
        &&& self.roots.len() <= MAX_ROOTS
        &&& forall|i: int, j: int|
            0 <= i < j < self.roots.len() ==> (#[trigger] self.roots[i]).name != (
            #[trigger] self.roots[j]).name
        &&& forall|i: int|
            0 <= i < self.roots.len() ==> tops(
                self.manifest.entries@,
                (#[trigger] self.roots[i]).name,
            )
    }

    pub open spec fn paths_sound(self) -> bool {
        &&& self.paths.len() <= self.roots.len()
        &&& forall|i: int, j: int|
            0 <= i < j < self.paths.len() ==> (#[trigger] self.paths[i]) != (
            #[trigger] self.paths[j])
        &&& forall|i: int|
            0 <= i < self.paths.len() ==> is_root_place(
                self.directory,
                self.roots,
                #[trigger] self.paths[i],
            )
    }

    /// What is wrong with a receipt that was read from a file of some name.
    pub open spec fn fault(self, base: PlaceView, file: Seq<char>, manifest_sound: bool) -> Option<
        StorageFault,
    > {
        if !manifest_sound {
            Some(StorageFault::Manifest)
        } else if file != journal_text(self.id) {
            Some(StorageFault::Identity)
        } else if !self.directory.absolute || self.staging != staging_text(self.id) {
            Some(StorageFault::Location)
        } else if !self.claim_sound() {
            Some(StorageFault::Claim)
        } else if !self.place_sound(base) {
            Some(StorageFault::CacheLocation)
        } else if !self.progress_sound() {
            Some(StorageFault::Progress)
        } else if !self.roots_sound() {
            Some(StorageFault::Roots)
        } else if !self.paths_sound() {
            Some(StorageFault::Paths)
        } else {
            None
        }
    }

    /// A receipt that would be believed.
    pub open spec fn sound(self, base: PlaceView) -> bool {
        self.fault(base, journal_text(self.id), true) is None
    }
}

fn has_top(manifest: &Manifest, name: &String) -> (r: bool)
    ensures
        r == tops(manifest.entries@, name@),
{
    for i in 0..manifest.entries.len()
        invariant
            forall|k: int|
                0 <= k < i ==> !((#[trigger] manifest.entries@[k]).parent is None
                    && manifest.entries@[k].name@ == name@),
    {
        if manifest.entries[i].parent.is_none() && manifest.entries[i].name == *name {
            assert(manifest.entries@[i as int].parent is None);
            return true;
        }
    }
    false
}

fn same_str(a: &str, b: &str) -> (r: bool)
    ensures
        r == (a@ == b@),
{
    let x = a.to_owned();
    let y = b.to_owned();
    x == y
}

impl Receipt {
    fn claim_is_sound(&self) -> (r: bool)
        ensures
            r == self@.claim_sound(),
    {
        match &self.claim {
            Some(claim) => {
                let holder = holder_name(self.id);
                claim.original.absolute && claim.holder.absolute && claim.holder.beside(
                    &claim.original,
                ) && claim.holder.is_named(holder.as_str()) && is_id_text(claim.name.as_str())
            },
            None => true,
        }
    }

    fn is_relocated(&self, base: &Place) -> (r: bool)
        ensures
            r == self@.relocated(base@),
    {
        match &self.claim {
            Some(claim) => {
                let expected = receipt_path(base, self.id);
                let location = claim.holder.join(claim.name.as_str());
                claim.original.same(&expected) && location.same(&self.directory)
            },
            None => false,
        }
    }

    fn place_is_sound(&self, base: &Place) -> (r: bool)
        ensures
            r == self@.place_sound(base@),
    {
        let expected = receipt_path(base, self.id);
        !self.cached || self.directory.same(&expected) || self.is_relocated(base)
    }

    fn roots_are_sound(&self) -> (r: bool)
        ensures
            r == self@.roots_sound(),
    {
        if self.roots.len() > MAX_ROOTS {
            return false;
        }
        let ghost views = self@.roots;
        for i in 0..self.roots.len()
            invariant
                views == root_views(self.roots@),
                forall|k: int|
                    0 <= k < i ==> tops(self.manifest.entries@, (#[trigger] views[k]).name),
                forall|j: int, k: int|
                    0 <= j < k < i ==> (#[trigger] views[j]).name != (#[trigger] views[k]).name,
        {
            assert(views[i as int].name == self.roots@[i as int].name@);
            if !has_top(&self.manifest, &self.roots[i].name) {
                assert(!tops(self.manifest.entries@, views[i as int].name));
                return false;
            }
            for j in 0..i
                invariant
                    i < self.roots@.len(),
                    views == root_views(self.roots@),
                    forall|k: int|
                        0 <= k < j ==> (#[trigger] views[k]).name != views[i as int].name,
            {
                if self.roots[j].name == self.roots[i].name {
                    assert(views[j as int].name == views[i as int].name);
                    return false;
                }
                assert(views[j as int].name == self.roots@[j as int].name@);
            }
        }
        true
    }

    fn is_at_root(&self, place: &Place) -> (r: bool)
        ensures
            r == is_root_place(self@.directory, self@.roots, place@),
    {
        let ghost views = self@.roots;
        for i in 0..self.roots.len()
            invariant
                views == root_views(self.roots@),
                forall|k: int|
                    0 <= k < i ==> place@ != self.directory@.join((#[trigger] views[k]).name),
        {
            let there = self.directory.join(self.roots[i].name.as_str());
            assert(views[i as int].name == self.roots@[i as int].name@);
            if there.same(place) {
                return true;
            }
        }
        false
    }

    fn paths_are_sound(&self) -> (r: bool)
        ensures
            r == self@.paths_sound(),
    {
        if self.paths.len() > self.roots.len() {
            return false;
        }
        let ghost views = self@.paths;
        for i in 0..self.paths.len()
            invariant
                views == places(self.paths@),
                forall|k: int|
                    0 <= k < i ==> is_root_place(
                        self@.directory,
                        self@.roots,
                        #[trigger] views[k],
                    ),
                forall|j: int, k: int|
                    0 <= j < k < i ==> (#[trigger] views[j]) != (#[trigger] views[k]),
        {
            assert(views[i as int] == self.paths@[i as int]@);
            if !self.is_at_root(&self.paths[i]) {
                assert(!is_root_place(self@.directory, self@.roots, views[i as int]));
                return false;
            }
            for j in 0..i
                invariant
                    i < self.paths@.len(),
                    views == places(self.paths@),
                    forall|k: int| 0 <= k < j ==> (#[trigger] views[k]) != views[i as int],
            {
                assert(views[j as int] == self.paths@[j as int]@);
                assert(views[i as int] == self.paths@[i as int]@);
                if self.paths[j].same(&self.paths[i]) {
                    return false;
                }
            }
        }
        true
    }

    /// Whether a receipt that was read from a file is believed; `manifest_sound` says whether
    /// its manifest is.
    pub fn check(&self, base: &Place, file: &str, manifest_sound: bool) -> (r: Result<
        (),
        StorageFault,
    >)
        ensures
            match r {
                Ok(()) => self@.fault(base@, file@, manifest_sound) is None,
                Err(e) => self@.fault(base@, file@, manifest_sound) == Some(e),
            },
    {
        if !manifest_sound {
            return Err(StorageFault::Manifest);
        }
        let name = journal_name(self.id);
        if !same_str(file, name.as_str()) {
            return Err(StorageFault::Identity);
        }
        let staging = staging_name(self.id);
        if !self.directory.absolute || self.staging != staging {
            return Err(StorageFault::Location);
        }
        if !self.claim_is_sound() {
            return Err(StorageFault::Claim);
        }
        if !self.place_is_sound(base) {
            return Err(StorageFault::CacheLocation);
        }
        if self.direction != TransferDirection::Receive || self.total_bytes
            != self.manifest.total_bytes || self.bytes > self.total_bytes {
            return Err(StorageFault::Progress);
        }
        if !self.roots_are_sound() {
            return Err(StorageFault::Roots);
        }
        if !self.paths_are_sound() {
            return Err(StorageFault::Paths);
        }
        Ok(())
    }
}

} // verus!
