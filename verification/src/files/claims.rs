//! How things that were received are removed: what has to go is moved aside first, so that
//! nothing that took its place meanwhile is lost.

use super::faults::{is_beginning, MAX_SAID};
use super::places::{
    hex_is_read_back, holder_name, holder_text, id_text, is_id, receipt_path, receipt_place,
    staging_name, staging_text, text_of, Place, PlaceView,
};
use super::receipts::{
    is_root_place, places, root_views, Claim, ClaimView, Identity, Receipt, ReceiptView, RootView,
    StorageFault,
};
use crate::text::shortened;
use vstd::prelude::*;

verus! {

/// What is found where a root was put.
#[derive(Clone, Copy, Debug, PartialEq, Eq, Structural)]
pub enum Found {
    Missing,
    /// Something else is there now.
    Other,
    Same,
}

pub open spec fn found(expected: Identity, seen: Option<Identity>) -> Found {
    match seen {
        None => Found::Missing,
        Some(identity) => if identity == expected {
            Found::Same
        } else {
            Found::Other
        },
    }
}

/// What it is that was found.
pub fn compare(expected: Identity, seen: Option<Identity>) -> (r: Found)
    ensures
        r == found(expected, seen),
{
    match seen {
        None => Found::Missing,
        Some(identity) => if identity == expected {
            Found::Same
        } else {
            Found::Other
        },
    }
}

/// The places of those of the first `n` roots that are still there.
pub open spec fn remaining(
    directory: PlaceView,
    roots: Seq<RootView>,
    seen: Seq<Found>,
    n: nat,
) -> Seq<PlaceView>
    decreases n,
{
    if n == 0 {
        Seq::empty()
    } else {
        let before = remaining(directory, roots, seen, (n - 1) as nat);
        if seen[n - 1] is Same {
            before.push(directory.join(roots[n - 1].name))
        } else {
            before
        }
    }
}

/// Such places are those of roots, each once.
pub proof fn lemma_remaining(
    directory: PlaceView,
    roots: Seq<RootView>,
    seen: Seq<Found>,
    n: nat,
)
    requires
        n <= roots.len(),
        forall|i: int, j: int|
            0 <= i < j < roots.len() ==> (#[trigger] roots[i]).name != (#[trigger] roots[j]).name,
    ensures
        ({
            let all = remaining(directory, roots, seen, n);
            &&& all.len() <= n
            &&& forall|i: int|
                0 <= i < all.len() ==> exists|k: int|
                    0 <= k < n && (#[trigger] all[i]) == directory.join((#[trigger] roots[k]).name)
            &&& forall|i: int, j: int|
                0 <= i < j < all.len() ==> (#[trigger] all[i]) != (#[trigger] all[j])
        }),
    decreases n,
{
    if n > 0 {
        let before = remaining(directory, roots, seen, (n - 1) as nat);
        lemma_remaining(directory, roots, seen, (n - 1) as nat);
        let all = remaining(directory, roots, seen, n);
        let last = directory.join(roots[n - 1].name);
        assert forall|i: int| 0 <= i < all.len() implies exists|k: int|
            0 <= k < n && (#[trigger] all[i]) == directory.join((#[trigger] roots[k]).name) by {
            if i < before.len() {
                assert(all[i] == before[i]);
            } else {
                assert(all[i] == directory.join(roots[n - 1].name));
            }
        }
        assert forall|i: int, j: int| 0 <= i < j < all.len() implies (#[trigger] all[i]) != (
        #[trigger] all[j]) by {
            assert(all[i] == before[i]);
            if j < before.len() {
                assert(all[j] == before[j]);
            } else {
                let k = choose|k: int|
                    0 <= k < n - 1 && before[i] == directory.join((#[trigger] roots[k]).name);
                assert(before[i].names.last() == roots[k].name);
                assert(last.names.last() == roots[n - 1].name);
                assert(roots[k].name != roots[n - 1].name);
            }
        }
    }
}

/// What a claim calls for.
#[derive(Clone, Copy, Debug, PartialEq, Eq, Structural)]
pub enum ClaimStep {
    /// The thing is in its holder: remove it there.
    Remove,
    /// The thing is still where it was: move it, into a new holder where there is none.
    Move { make_holder: bool },
    /// The thing is gone: remove the holder, if there is one, and forget the claim.
    Forget { remove_holder: bool },
}

/// Why nothing is done about a claim.
#[derive(Clone, Copy, Debug, PartialEq, Eq, Structural)]
pub enum ClaimFault {
    /// What is in the holder is something else.
    Replaced,
    /// The holder is empty, and something else lies where the thing was.
    Missing,
}

impl ClaimView {
    /// What is said about a claim that nothing is done about.
    pub open spec fn complaint(self, fault: ClaimFault) -> Seq<char> {
        match fault {
            ClaimFault::Replaced => "claimed entry "@ + self.location().text()
                + " was replaced; preserved for inspection"@,
            ClaimFault::Missing => "claimed entry "@ + self.location().text() + " is missing and "@
                + self.original.text() + " was replaced; preserved for inspection"@,
        }
    }
}

impl Claim {
    /// Where the thing is once it is moved.
    pub fn location(&self) -> (r: Place)
        ensures
            r@ == self@.location(),
    {
        self.holder.join(self.name.as_str())
    }

    /// What is said about a claim that nothing is done about.
    pub fn complaint(&self, fault: ClaimFault) -> (r: String)
        ensures
            r@ == self@.complaint(fault),
    {
        let mut out: String = "claimed entry ".to_owned();
        out.append(self.location().text().as_str());
        if fault == ClaimFault::Missing {
            out.append(" is missing and ");
            out.append(self.original.text().as_str());
        }
        out.append(" was replaced; preserved for inspection");
        out
    }
}

/// What to do about a claim: `holder` says whether its holder exists, `held` what is in it
/// under the claim's name, and `original` what is where the thing was.
pub open spec fn claim_step(
    claim: ClaimView,
    holder: bool,
    held: Option<Identity>,
    original: Option<Identity>,
) -> Result<ClaimStep, ClaimFault> {
    if holder && held is Some {
        if held == Some(claim.identity) {
            Ok(ClaimStep::Remove)
        } else {
            Err(ClaimFault::Replaced)
        }
    } else {
        match original {
            Some(identity) => if identity == claim.identity {
                Ok(ClaimStep::Move { make_holder: !holder })
            } else {
                Err(ClaimFault::Missing)
            },
            None => Ok(ClaimStep::Forget { remove_holder: holder }),
        }
    }
}

/// What the place for files that come in looks like.
#[derive(Clone, Copy, Debug, PartialEq, Eq, Structural)]
pub struct StageSeen {
    pub directory: bool,
    pub identity: Identity,
    pub owned: bool,
    /// Nobody else can look into it.
    pub private: bool,
}

/// What becomes of it.
#[derive(Clone, Copy, Debug, PartialEq, Eq, Structural)]
pub enum StageStep {
    Nothing,
    /// It was already moved aside, or is about to be.
    Resume,
    /// It is moved aside and removed.
    Remove,
    /// It is removed if it is empty.
    RemoveEmpty,
}

impl ReceiptView {
    pub open spec fn stage_place(self) -> PlaceView {
        self.directory.join(self.staging)
    }

    /// A claim is on what lies at a place.
    pub open spec fn claims(self, place: PlaceView) -> bool {
        self.claim matches Some(claim) && claim.original == place
    }

    pub open spec fn stage_step(self, seen: Option<StageSeen>) -> Result<StageStep, StorageFault> {
        if self.staging != staging_text(self.id) {
            Err(StorageFault::StagingName)
        } else if self.claims(self.stage_place()) {
            Ok(StageStep::Resume)
        } else {
            match (self.stage_identity, seen) {
                (_, None) => Ok(StageStep::Nothing),
                (Some(identity), Some(stage)) => if stage.directory && stage.identity == identity {
                    Ok(StageStep::Remove)
                } else {
                    Err(StorageFault::StagingChanged)
                },
                (None, Some(stage)) => if stage.directory && stage.owned && stage.private {
                    Ok(StageStep::RemoveEmpty)
                } else {
                    Err(StorageFault::StagingUnknown)
                },
            }
        }
    }

    /// Something is about to be moved aside.
    pub open spec fn claimed(
        self,
        parent: PlaceView,
        name: Seq<char>,
        number: u128,
        identity: Identity,
    ) -> ReceiptView {
        ReceiptView {
            claim: Some(
                ClaimView {
                    original: parent.join(name),
                    holder: parent.join(holder_text(self.id)),
                    name: id_text(number),
                    identity,
                },
            ),
            ..self
        }
    }

    /// What was claimed is gone.
    pub open spec fn released(self) -> ReceiptView {
        match self.claim {
            Some(claim) => if self.directory == claim.location() {
                ReceiptView {
                    directory: claim.original,
                    paths: Seq::empty(),
                    claim: None,
                    ..self
                }
            } else {
                ReceiptView { claim: None, ..self }
            },
            None => self,
        }
    }

    /// Files of the cache could not be removed where they were moved: they are there now.
    pub open spec fn moved(self, base: PlaceView, seen: Seq<Found>) -> ReceiptView {
        match self.claim {
            Some(claim) => if self.cached && claim.original == receipt_place(base, self.id) {
                ReceiptView {
                    directory: claim.location(),
                    paths: remaining(claim.location(), self.roots, seen, self.roots.len()),
                    ..self
                }
            } else {
                self
            },
            None => self,
        }
    }

    /// Why files of the cache are not removed: `identity` is that of their directory, where
    /// it exists, and `seen` is what is found of the roots there.
    pub open spec fn clear_fault(
        self,
        base: PlaceView,
        identity: Option<Identity>,
        seen: Seq<Found>,
    ) -> Option<StorageFault> {
        if !self.cached {
            None
        } else if !self.place_sound(base) {
            Some(StorageFault::DirectoryMismatch)
        } else if identity is None {
            None
        } else if self.relocated(base) && identity != Some(self.claim->0.identity) {
            Some(StorageFault::Relocated)
        } else if exists|i: int| 0 <= i < self.roots.len() && (#[trigger] seen[i]) is Other {
            Some(StorageFault::Published)
        } else {
            None
        }
    }

    /// The removal failed.
    pub open spec fn uncleared(self, after: ReceiptView, why: Seq<char>) -> bool {
        &&& after.error matches Some(text)
        &&& is_beginning(text, "clear failed: "@ + why, MAX_SAID as nat)
        &&& after == (ReceiptView { clearing: false, error: after.error, ..self })
    }
}

/// What to do about a claim.
pub fn resume_claim(
    claim: &Claim,
    holder: bool,
    held: Option<Identity>,
    original: Option<Identity>,
) -> (r: Result<ClaimStep, ClaimFault>)
    ensures
        r == claim_step(claim@, holder, held, original),
{
    if holder {
        if let Some(identity) = held {
            return if identity == claim.identity {
                Ok(ClaimStep::Remove)
            } else {
                Err(ClaimFault::Replaced)
            };
        }
    }
    match original {
        Some(identity) => if identity == claim.identity {
            Ok(ClaimStep::Move { make_holder: !holder })
        } else {
            Err(ClaimFault::Missing)
        },
        None => Ok(ClaimStep::Forget { remove_holder: holder }),
    }
}

impl Receipt {
    /// Whether a claim is on what lies at a place.
    pub fn has_claim_on(&self, place: &Place) -> (r: bool)
        ensures
            r == self@.claims(place@),
    {
        match &self.claim {
            Some(claim) => claim.original.same(place),
            None => false,
        }
    }

    /// What becomes of the place for files that come in.
    pub fn cleanup_staging(&self, seen: Option<StageSeen>) -> (r: Result<StageStep, StorageFault>)
        ensures
            r == self@.stage_step(seen),
    {
        let name = staging_name(self.id);
        if self.staging != name {
            return Err(StorageFault::StagingName);
        }
        let stage = self.directory.join(self.staging.as_str());
        if self.has_claim_on(&stage) {
            return Ok(StageStep::Resume);
        }
        match (self.stage_identity, seen) {
            (_, None) => Ok(StageStep::Nothing),
            (Some(identity), Some(stage)) => if stage.directory && stage.identity == identity {
                Ok(StageStep::Remove)
            } else {
                Err(StorageFault::StagingChanged)
            },
            (None, Some(stage)) => if stage.directory && stage.owned && stage.private {
                Ok(StageStep::RemoveEmpty)
            } else {
                Err(StorageFault::StagingUnknown)
            },
        }
    }

    /// Notes that something is about to be moved aside, under a name made of a number.
    pub fn claim_entry(&mut self, parent: &Place, name: &str, number: u128, identity: Identity)
        ensures
            final(self)@ == old(self)@.claimed(parent@, name@, number, identity),
    {
        let holder = holder_name(self.id);
        self.claim = Some(
            Claim {
                original: parent.join(name),
                holder: parent.join(holder.as_str()),
                name: text_of(number),
                identity,
            },
        );
    }

    /// Something took the place of what was to be moved, and was put back.
    pub fn drop_claim(&mut self)
        ensures
            final(self)@ == (ReceiptView { claim: None, ..old(self)@ }),
    {
        self.claim = None;
    }

    /// What was claimed is gone.
    pub fn complete_claim(&mut self)
        ensures
            final(self)@ == old(self)@.released(),
    {
        let ghost before = self@;
        let held: bool = match &self.claim {
            Some(claim) => {
                let location = claim.holder.join(claim.name.as_str());
                self.directory.same(&location)
            },
            None => false,
        };
        let mut claim: Option<Claim> = None;
        std::mem::swap(&mut claim, &mut self.claim);
        if held {
            if let Some(claim) = claim {
                self.directory = claim.original;
                self.paths = Vec::new();
            }
        }
        assert(self@ =~= before.released());
    }

    /// What was moved aside could not be removed: notes where it is. `seen` is what is found
    /// of the roots there.
    pub fn retain_claim(&mut self, base: &Place, seen: &Vec<Found>)
        requires
            seen@.len() == old(self)@.roots.len(),
        ensures
            final(self)@ == old(self)@.moved(base@, seen@),
    {
        let ghost before = self@;
        let place: Option<Place> = match &self.claim {
            Some(claim) => {
                let expected = receipt_path(base, self.id);
                if self.cached && claim.original.same(&expected) {
                    Some(claim.holder.join(claim.name.as_str()))
                } else {
                    None
                }
            },
            None => None,
        };
        if let Some(place) = place {
            self.directory = place;
            self.paths = self.standing(seen);
        }
        assert(self@ =~= before.moved(base@, seen@));
    }

    /// The places of the roots that are still there.
    pub(crate) fn standing(&self, seen: &Vec<Found>) -> (r: Vec<Place>)
        requires
            seen@.len() == self@.roots.len(),
        ensures
            places(r@) == remaining(self@.directory, self@.roots, seen@, self@.roots.len()),
    {
        let mut out: Vec<Place> = Vec::new();
        let ghost views = self@.roots;
        assert(places(out@) =~= Seq::empty());
        for i in 0..self.roots.len()
            invariant
                views == root_views(self.roots@),
                seen@.len() == views.len(),
                places(out@) == remaining(self@.directory, views, seen@, i as nat),
        {
            if seen[i] == Found::Same {
                let ghost before = out@;
                let place = self.directory.join(self.roots[i].name.as_str());
                out.push(place);
                assert(views[i as int].name == self.roots@[i as int].name@);
                assert(places(out@) =~= places(before).push(
                    self@.directory.join(views[i as int].name),
                ));
            }
        }
        out
    }

    /// Whether the files may be removed.
    pub fn clear_journal(&self, base: &Place, identity: Option<Identity>, seen: &Vec<Found>) -> (r:
        Result<(), StorageFault>)
        requires
            seen@.len() == self@.roots.len(),
        ensures
            match r {
                Ok(()) => self@.clear_fault(base@, identity, seen@) is None,
                Err(e) => self@.clear_fault(base@, identity, seen@) == Some(e),
            },
    {
        if !self.cached {
            return Ok(());
        }
        let expected = receipt_path(base, self.id);
        let moved: bool = match &self.claim {
            Some(claim) => {
                let location = claim.holder.join(claim.name.as_str());
                claim.original.same(&expected) && location.same(&self.directory)
            },
            None => false,
        };
        if !self.directory.same(&expected) && !moved {
            return Err(StorageFault::DirectoryMismatch);
        }
        let Some(present) = identity else {
            return Ok(());
        };
        if moved {
            if let Some(claim) = &self.claim {
                if claim.identity != present {
                    return Err(StorageFault::Relocated);
                }
            }
        }
        for i in 0..seen.len()
            invariant
                seen@.len() == self@.roots.len(),
                self@.cached,
                self@.place_sound(base@),
                identity == Some(present),
                !(self@.relocated(base@) && present != self@.claim->0.identity),
                forall|k: int| 0 <= k < i ==> !((#[trigger] seen@[k]) is Other),
        {
            if seen[i] == Found::Other {
                assert(seen@[i as int] is Other);
                return Err(StorageFault::Published);
            }
        }
        Ok(())
    }

    /// The removal begins.
    pub fn begin_clear(&mut self)
        ensures
            final(self)@ == (ReceiptView { clearing: true, ..old(self)@ }),
    {
        self.clearing = true;
    }

    /// The removal failed.
    pub fn clear_failed(&mut self, why: &str)
        ensures
            old(self)@.uncleared(final(self)@, why@),
    {
        let mut text = "clear failed: ".to_owned();
        text.append(why);
        self.clearing = false;
        self.error = Some(shortened(text.as_str(), MAX_SAID));
    }
}

proof fn lemma_receipts_have_no_holder_name(base: PlaceView, id: crate::files::records::TransferId)
    ensures
        receipt_place(base, id).parent().name() != holder_text(id),
{
    reveal_strlit("received");
    reveal_strlit(".splice-");
    assert(receipt_place(base, id).names.drop_last() =~= base.names.push("received"@));
    assert(holder_text(id)[0] == '.');
    assert("received"@[0] == 'r');
}

/// A receipt is still believed once something is claimed, provided it is not already where an
/// earlier claim moved it.
pub proof fn a_claim_keeps_a_receipt_sound(
    receipt: ReceiptView,
    base: PlaceView,
    parent: PlaceView,
    name: Seq<char>,
    number: u128,
    identity: Identity,
)
    requires
        receipt.sound(base),
        parent.absolute,
        receipt.cached ==> receipt.directory == receipt_place(base, receipt.id),
    ensures
        receipt.claimed(parent, name, number, identity).sound(base),
{
    let after = receipt.claimed(parent, name, number, identity);
    let claim = after.claim->0;
    assert(claim.original.names.drop_last() =~= parent.names);
    assert(claim.holder.names.drop_last() =~= parent.names);
    lemma_ids(number);
}

proof fn lemma_ids(number: u128)
    ensures
        is_id(id_text(number)),
{
    assert(crate::files::places::hex_range(32) == 0x1_0000_0000_0000_0000_0000_0000_0000_0000) by {
        reveal_with_fuel(crate::files::places::hex_range, 33);
    }
    hex_is_read_back(number as nat, 32);
}

/// A receipt whose files were moved aside and could not be removed is still believed, and
/// names exactly those that are left.
pub proof fn a_moved_receipt_stays_sound(receipt: ReceiptView, base: PlaceView, seen: Seq<Found>)
    requires
        receipt.sound(base),
    ensures
        receipt.moved(base, seen).sound(base),
{
    let after = receipt.moved(base, seen);
    lemma_remaining(after.directory, receipt.roots, seen, receipt.roots.len());
    if after.directory != receipt.directory || after.paths != receipt.paths {
        assert forall|i: int| 0 <= i < after.paths.len() implies is_root_place(
            after.directory,
            after.roots,
            #[trigger] after.paths[i],
        ) by {
            let k = choose|k: int|
                0 <= k < receipt.roots.len() && after.paths[i] == after.directory.join(
                    (#[trigger] receipt.roots[k]).name,
                );
            assert(after.paths[i] == after.directory.join(after.roots[k].name));
        }
    }
}

/// A receipt is still believed once what was claimed is gone, and then it claims nothing.
pub proof fn a_released_receipt_stays_sound(receipt: ReceiptView, base: PlaceView)
    requires
        receipt.sound(base),
    ensures
        receipt.released().sound(base),
        receipt.released().claim is None,
{
    let after = receipt.released();
    if let Some(claim) = receipt.claim {
        if receipt.directory == claim.location() {
            assert(claim.location().names.drop_last() =~= claim.holder.names);
            assert(receipt.directory.parent() == claim.holder);
            lemma_receipts_have_no_holder_name(base, receipt.id);
        } else {
            assert(after.paths == receipt.paths);
        }
    }
}

/// What was moved aside and then removed leaves a receipt as if it had been removed in place.
pub proof fn a_retained_claim_is_released(receipt: ReceiptView, base: PlaceView, seen: Seq<Found>)
    requires
        receipt.cached,
        receipt.claims(receipt_place(base, receipt.id)),
    ensures
        receipt.moved(base, seen).released().directory == receipt_place(base, receipt.id),
        receipt.moved(base, seen).released().paths.len() == 0,
        receipt.moved(base, seen).released().claim is None,
{
}

/// Nothing that took the place of something else is ever removed: what is removed, or moved
/// to be removed, has the identity that was claimed.
pub proof fn only_what_was_claimed_is_removed(
    claim: ClaimView,
    holder: bool,
    held: Option<Identity>,
    original: Option<Identity>,
)
    ensures
        claim_step(claim, holder, held, original) == Ok::<ClaimStep, ClaimFault>(
            ClaimStep::Remove,
        ) ==> held == Some(claim.identity),
        claim_step(claim, holder, held, original) matches Ok(ClaimStep::Move { .. }) ==> original
            == Some(claim.identity) && !(holder && held is Some),
        claim_step(claim, holder, held, original) matches Ok(ClaimStep::Forget { .. }) ==> original
            is None && !(holder && held is Some),
{
}

} // verus!
