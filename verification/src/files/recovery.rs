//! What is found on the disk when the service starts.

use super::desk::{CACHE_QUOTA, MAX_RECORDS};
use super::faults::MAX_SAID;
use super::places::{hex_value, is_id, kind_of, receipt_id, record_kind, stem, Place, PlaceView, RecordKind};
use super::receipts::{Receipt, ReceiptView};
use super::records::{RecoveryIssue, TransferId, TransferState};
use crate::text::{shortened, start_of};
use vstd::prelude::*;

verus! {

/// Issues that are told in full.
pub const MAX_ISSUES: usize = 32;

/// Receipts beyond which those without files are cleared away.
pub const MANY_RECORDS: usize = 128;

/// Entries of a directory that are looked at.
pub const MAX_SCANNED: usize = 1024;

/// How many of the entries of a directory are looked at, and whether there are more; at most
/// one entry beyond the limit is counted.
pub fn bounded_entries(count: usize) -> (r: (usize, bool))
    ensures
        r.0 == if count > MAX_SCANNED {
            MAX_SCANNED
        } else {
            count
        },
        r.1 == (count > MAX_SCANNED),
{
    if count > MAX_SCANNED {
        (MAX_SCANNED, true)
    } else {
        (count, false)
    }
}

/// What became of a receipt that was read.
#[derive(Debug)]
pub enum Outcome {
    /// It was cleared away.
    Gone,
    Kept,
}

/// What is found.
#[derive(Debug)]
pub enum Sighting {
    /// A record could not be listed.
    RecordUnlisted { error: String },
    Record { name: String },
    /// A journal could not be read; it was given another name, or that failed as well.
    Unloadable { name: String, error: String, quarantined: Result<String, String> },
    Loaded { receipt: Receipt, outcome: Outcome },
    /// A receipt could not be brought in order.
    Failed { transfer: TransferId, why: String },
    /// A receipt that could not be brought in order was written down so, or could not be.
    Noted { receipt: Receipt, unsaved: Option<String> },
    RecordsOver { truncated: bool },
    /// Something in the cache could not be listed.
    CacheUnlisted { error: String },
    Cached { place: Place },
    /// The size of something in the cache that belongs to no receipt.
    Inventory { name: String, bytes: u64, empty: bool },
    Uncounted { name: String, error: String },
    CacheOver { truncated: bool },
}

/// What is to be done next.
#[derive(Clone, Copy, Debug, PartialEq, Eq, Structural)]
pub enum ScanStep {
    Nothing,
    /// Read the journal.
    Load,
    /// Write the receipt down as it is now.
    Save,
    /// Look at what is in the cache.
    Inspect,
}

#[derive(Debug)]
pub struct Recovery {
    pub receipts: Vec<Receipt>,
    pub errors: Vec<RecoveryIssue>,
    pub error_count: usize,
    pub untracked_cache_bytes: u64,
    pub cleanup_failures: Vec<TransferId>,
}

pub ghost struct IssueView {
    pub transfer: Option<TransferId>,
    pub message: Seq<char>,
}

#[verifier::ext_equal]
pub ghost struct RecoveryView {
    pub receipts: Seq<ReceiptView>,
    pub errors: Seq<IssueView>,
    pub error_count: int,
    pub untracked_cache_bytes: u64,
    pub cleanup_failures: Seq<TransferId>,
}

pub open spec fn receipt_views(all: Seq<Receipt>) -> Seq<ReceiptView> {
    Seq::new(all.len(), |i: int| all[i]@)
}

pub open spec fn issue_views(all: Seq<RecoveryIssue>) -> Seq<IssueView> {
    Seq::new(
        all.len(),
        |i: int| IssueView { transfer: all[i].transfer, message: all[i].message@ },
    )
}

impl View for Recovery {
    type V = RecoveryView;

    open spec fn view(&self) -> RecoveryView {
        RecoveryView {
            receipts: receipt_views(self.receipts@),
            errors: issue_views(self.errors@),
            error_count: self.error_count as int,
            untracked_cache_bytes: self.untracked_cache_bytes,
            cleanup_failures: self.cleanup_failures@,
        }
    }
}

/// The transfer that a name stands for.
pub open spec fn named_transfer(name: Seq<char>) -> Option<TransferId> {
    if is_id(stem(name)) {
        Some(TransferId(hex_value(stem(name)) as u128))
    } else {
        None
    }
}

/// What is said of a receipt that could not be brought in order.
pub open spec fn trouble(why: Seq<char>) -> Seq<char> {
    start_of("receipt recovery: "@ + why, MAX_SAID as nat)
}

impl ReceiptView {
    /// A receipt that could not be brought in order.
    pub open spec fn troubled(self, why: Seq<char>) -> ReceiptView {
        ReceiptView {
            clearing: false,
            state: if self.state.is_terminal() {
                self.state
            } else {
                TransferState::Failed
            },
            error: Some(trouble(why)),
            ..self
        }
    }

    /// A place in the cache belongs to this receipt.
    pub open spec fn occupies(self, place: PlaceView) -> bool {
        self.cached && (self.directory == place || (self.claim matches Some(claim) && claim.holder
            == place))
    }
}

impl RecoveryView {
    pub open spec fn reported(self, transfer: Option<TransferId>, message: Seq<char>) -> RecoveryView {
        RecoveryView {
            error_count: self.error_count + 1,
            errors: if self.errors.len() < MAX_ISSUES {
                self.errors.push(
                    IssueView { transfer, message: start_of(message, MAX_SAID as nat) },
                )
            } else {
                self.errors
            },
            ..self
        }
    }

    /// A receipt is kept in view, unless there are too many.
    pub open spec fn kept(self, receipt: ReceiptView) -> RecoveryView {
        if self.receipts.len() >= MAX_RECORDS {
            self.reported(
                Some(receipt.id),
                "retained receipt view limit reached; journal and received data remain on disk"@,
            )
        } else {
            RecoveryView { receipts: self.receipts.push(receipt), ..self }
        }
    }

    /// A receipt could not be brought in order.
    pub open spec fn upset(self, transfer: TransferId, why: Seq<char>) -> RecoveryView {
        RecoveryView {
            cleanup_failures: if self.cleanup_failures.contains(transfer) {
                self.cleanup_failures
            } else {
                self.cleanup_failures.push(transfer)
            },
            ..self
        }.reported(Some(transfer), trouble(why))
    }

    pub open spec fn full(self) -> RecoveryView {
        RecoveryView { untracked_cache_bytes: CACHE_QUOTA, ..self }
    }

    /// A place in the cache belongs to a receipt in view.
    pub open spec fn accounted(self, place: PlaceView) -> bool {
        exists|i: int| 0 <= i < self.receipts.len() && (#[trigger] self.receipts[i]).occupies(place)
    }

    /// What is known after something was found.
    pub open spec fn after(self, sighting: Sighting) -> RecoveryView {
        match sighting {
            Sighting::RecordUnlisted { error } => self.reported(
                None,
                "read receipt directory: "@ + error@,
            ),
            Sighting::Record { name } => if kind_of(name@) is Quarantined {
                self.reported(
                    named_transfer(name@),
                    "Quarantined receipt journal "@ + name@ + "; data retained"@,
                )
            } else {
                self
            },
            Sighting::Unloadable { name, error, quarantined } => self.reported(
                named_transfer(name@),
                match quarantined {
                    Ok(moved) => "Quarantined receipt "@ + moved@ + ": "@ + error@
                        + "; data retained"@,
                    Err(rename) => "Cannot quarantine receipt "@ + name@ + ": "@ + error@ + "; "@
                        + rename@ + "; data retained"@,
                },
            ),
            Sighting::Loaded { receipt, outcome } => match outcome {
                Outcome::Gone => self,
                Outcome::Kept => self.kept(receipt@),
            },
            Sighting::Failed { transfer, why } => self.upset(transfer, why@),
            Sighting::Noted { receipt, unsaved } => match unsaved {
                Some(error) => self.reported(
                    Some(receipt@.id),
                    "cannot persist receipt diagnostic: "@ + error@,
                ),
                None => self,
            }.kept(receipt@),
            Sighting::RecordsOver { truncated } => if truncated {
                self.reported(
                    None,
                    "receipt scan limit reached; remaining journals retained on disk"@,
                )
            } else {
                self
            },
            Sighting::CacheUnlisted { error } => self.full().reported(
                None,
                "inspect cache directory: "@ + error@,
            ),
            Sighting::Cached { .. } => self,
            Sighting::Inventory { name, bytes, empty } => {
                let told = if empty {
                    self
                } else {
                    self.reported(
                        named_transfer(name@),
                        "untracked cache data retained; storage reserved until manual recovery"@,
                    )
                };
                let sum = self.untracked_cache_bytes + bytes;
                RecoveryView {
                    untracked_cache_bytes: if sum > u64::MAX {
                        u64::MAX
                    } else {
                        sum as u64
                    },
                    ..told
                }
            },
            Sighting::Uncounted { name, error } => self.full().reported(
                named_transfer(name@),
                "cannot inventory retained cache data: "@ + error@ + "; Save remains available"@,
            ),
            Sighting::CacheOver { truncated } => if truncated {
                self.full().reported(
                    None,
                    "cache inventory limit exceeded; Save remains available, cache receives require cleanup"@,
                )
            } else {
                self
            },
        }
    }

    /// What is to be done next.
    pub open spec fn step(self, sighting: Sighting) -> ScanStep {
        match sighting {
            Sighting::Record { name } => if kind_of(name@) is Journal {
                ScanStep::Load
            } else {
                ScanStep::Nothing
            },
            Sighting::Failed { .. } => ScanStep::Save,
            Sighting::Cached { place } => if self.accounted(place@) {
                ScanStep::Nothing
            } else {
                ScanStep::Inspect
            },
            _ => ScanStep::Nothing,
        }
    }

    /// Nothing is told without bound.
    pub open spec fn wf(self) -> bool {
        &&& self.errors.len() <= MAX_ISSUES
        &&& self.errors.len() <= self.error_count
        &&& self.receipts.len() <= MAX_RECORDS
        &&& forall|i: int, j: int|
            0 <= i < j < self.cleanup_failures.len() ==> (#[trigger] self.cleanup_failures[i]) != (
            #[trigger] self.cleanup_failures[j])
    }
}

fn transfer_of(name: &str) -> (r: Option<TransferId>)
    ensures
        r == named_transfer(name@),
{
    receipt_id(name)
}

fn two(a: &str, b: &str) -> (r: String)
    ensures
        r@ == a@ + b@,
{
    let mut out = a.to_owned();
    out.append(b);
    out
}

fn three(a: &str, b: &str, c: &str) -> (r: String)
    ensures
        r@ == a@ + b@ + c@,
{
    let mut out = two(a, b);
    out.append(c);
    out
}

fn told(why: &str) -> (r: String)
    ensures
        r@ == trouble(why@),
{
    let whole = two("receipt recovery: ", why);
    shortened(whole.as_str(), MAX_SAID)
}

impl Receipt {
    /// Notes that the receipt could not be brought in order.
    pub fn trouble(&mut self, why: &str)
        ensures
            final(self)@ == old(self)@.troubled(why@),
    {
        self.clearing = false;
        if !self.state.terminal() {
            self.state = TransferState::Failed;
        }
        self.error = Some(told(why));
        assert(self@ =~= old(self)@.troubled(why@));
    }
}

impl Recovery {
    pub open spec fn wf(&self) -> bool {
        self@.wf()
    }

    pub fn new() -> (r: Self)
        ensures
            r.wf(),
            r@ == (RecoveryView {
                receipts: Seq::empty(),
                errors: Seq::empty(),
                error_count: 0,
                untracked_cache_bytes: 0,
                cleanup_failures: Seq::empty(),
            }),
    {
        let r = Recovery {
            receipts: Vec::new(),
            errors: Vec::new(),
            error_count: 0,
            untracked_cache_bytes: 0,
            cleanup_failures: Vec::new(),
        };
        assert(r@.receipts =~= Seq::empty());
        assert(r@.errors =~= Seq::empty());
        r
    }

    /// Counts an issue, and tells it as long as there are not too many.
    pub fn report(&mut self, transfer: Option<TransferId>, message: &str)
        requires
            old(self).wf(),
            old(self)@.error_count < usize::MAX,
        ensures
            final(self).wf(),
            final(self)@ == old(self)@.reported(transfer, message@),
    {
        let ghost before = self@;
        self.error_count = self.error_count + 1;
        if self.errors.len() < MAX_ISSUES {
            let ghost known = self.errors@;
            let issue = RecoveryIssue { transfer, message: shortened(message, MAX_SAID) };
            self.errors.push(issue);
            assert(issue_views(self.errors@) =~= issue_views(known).push(
                IssueView { transfer, message: start_of(message@, MAX_SAID as nat) },
            ));
        }
        assert(self@ =~= before.reported(transfer, message@));
    }

    /// Whether a receipt without files is cleared away because there are many.
    pub fn overflows(&self, receipt: &Receipt) -> (r: bool)
        ensures
            r == (self@.receipts.len() >= MANY_RECORDS && receipt@.paths.len() == 0),
    {
        self.receipts.len() >= MANY_RECORDS && receipt.paths.len() == 0
    }

    fn keep(&mut self, receipt: Receipt)
        requires
            old(self).wf(),
            old(self)@.error_count < usize::MAX,
        ensures
            final(self).wf(),
            final(self)@ == old(self)@.kept(receipt@),
    {
        if self.receipts.len() >= MAX_RECORDS {
            self.report(
                Some(receipt.id),
                "retained receipt view limit reached; journal and received data remain on disk",
            );
            return ;
        }
        let ghost before = self@;
        let ghost known = self.receipts@;
        self.receipts.push(receipt);
        assert(receipt_views(self.receipts@) =~= receipt_views(known).push(receipt@));
        assert(self@ =~= before.kept(receipt@));
    }

    fn note_failure(&mut self, id: TransferId)
        requires
            old(self).wf(),
        ensures
            final(self).wf(),
            final(self)@ == (RecoveryView {
                cleanup_failures: if old(self)@.cleanup_failures.contains(id) {
                    old(self)@.cleanup_failures
                } else {
                    old(self)@.cleanup_failures.push(id)
                },
                ..old(self)@
            }),
    {
        for i in 0..self.cleanup_failures.len()
            invariant
                forall|k: int| 0 <= k < i ==> (#[trigger] self.cleanup_failures@[k]) != id,
                self@ == old(self)@,
                self.wf(),
        {
            if self.cleanup_failures[i] == id {
                assert(self@.cleanup_failures[i as int] == id);
                return ;
            }
        }
        self.cleanup_failures.push(id);
    }

    fn upset(&mut self, transfer: TransferId, why: &str)
        requires
            old(self).wf(),
            old(self)@.error_count < usize::MAX,
        ensures
            final(self).wf(),
            final(self)@ == old(self)@.upset(transfer, why@),
    {
        let message = told(why);
        self.note_failure(transfer);
        self.report(Some(transfer), message.as_str());
    }

    fn tracks(&self, place: &Place) -> (r: bool)
        ensures
            r == self@.accounted(place@),
    {
        for i in 0..self.receipts.len()
            invariant
                forall|k: int| 0 <= k < i ==> !(#[trigger] self.receipts@[k])@.occupies(place@),
        {
            let receipt = &self.receipts[i];
            let held: bool = match &receipt.claim {
                Some(claim) => claim.holder.same(place),
                None => false,
            };
            if receipt.cached && (receipt.directory.same(place) || held) {
                assert(self@.receipts[i as int].occupies(place@));
                return true;
            }
        }
        proof {
            if self@.accounted(place@) {
                let k = choose|k: int|
                    0 <= k < self@.receipts.len() && (#[trigger] self@.receipts[k]).occupies(place@);
                assert(self.receipts@[k]@.occupies(place@));
            }
        }
        false
    }

    fn fill(&mut self)
        requires
            old(self).wf(),
        ensures
            final(self).wf(),
            final(self)@ == old(self)@.full(),
    {
        self.untracked_cache_bytes = CACHE_QUOTA;
        assert(self@ =~= old(self)@.full());
    }

    fn count(&mut self, name: &str, bytes: u64, empty: bool)
        requires
            old(self).wf(),
            old(self)@.error_count < usize::MAX,
        ensures
            final(self).wf(),
            final(self)@ == ({
                let told = if empty {
                    old(self)@
                } else {
                    old(self)@.reported(
                        named_transfer(name@),
                        "untracked cache data retained; storage reserved until manual recovery"@,
                    )
                };
                let sum = old(self)@.untracked_cache_bytes + bytes;
                RecoveryView {
                    untracked_cache_bytes: if sum > u64::MAX {
                        u64::MAX
                    } else {
                        sum as u64
                    },
                    ..told
                }
            }),
    {
        if !empty {
            let id = transfer_of(name);
            self.report(
                id,
                "untracked cache data retained; storage reserved until manual recovery",
            );
        }
        let ghost told = self@;
        assert(told.wf());
        self.untracked_cache_bytes = if bytes > u64::MAX - self.untracked_cache_bytes {
            u64::MAX
        } else {
            self.untracked_cache_bytes + bytes
        };
        assert(self@.receipts =~= told.receipts);
        assert(self@.errors =~= told.errors);
        assert(self@.cleanup_failures == told.cleanup_failures);
        assert(told.wf());
    }

    fn unloadable(&mut self, name: &str, error: &str, quarantined: Result<String, String>)
        requires
            old(self).wf(),
            old(self)@.error_count < usize::MAX,
        ensures
            final(self).wf(),
            final(self)@ == old(self)@.reported(
                named_transfer(name@),
                match quarantined {
                    Ok(moved) => "Quarantined receipt "@ + moved@ + ": "@ + error@
                        + "; data retained"@,
                    Err(rename) => "Cannot quarantine receipt "@ + name@ + ": "@ + error@ + "; "@
                        + rename@ + "; data retained"@,
                },
            ),
    {
        let id = transfer_of(name);
        match quarantined {
            Ok(moved) => {
                let mut text = three("Quarantined receipt ", moved.as_str(), ": ");
                text.append(error);
                text.append("; data retained");
                self.report(id, text.as_str());
            },
            Err(rename) => {
                let mut text = three("Cannot quarantine receipt ", name, ": ");
                text.append(error);
                text.append("; ");
                text.append(rename.as_str());
                text.append("; data retained");
                self.report(id, text.as_str());
            },
        }
    }

    /// Takes note of what is found, and says what is to be done about it.
    pub fn observe(&mut self, sighting: Sighting) -> (r: ScanStep)
        requires
            old(self).wf(),
            old(self)@.error_count < usize::MAX - 1,
        ensures
            final(self).wf(),
            final(self)@ == old(self)@.after(sighting),
            r == old(self)@.step(sighting),
    {
        match sighting {
            Sighting::RecordUnlisted { error } => {
                let text = two("read receipt directory: ", error.as_str());
                self.report(None, text.as_str());
                ScanStep::Nothing
            },
            Sighting::Record { name } => match record_kind(name.as_str()) {
                RecordKind::Quarantined => {
                    let id = transfer_of(name.as_str());
                    let text = three(
                        "Quarantined receipt journal ",
                        name.as_str(),
                        "; data retained",
                    );
                    self.report(id, text.as_str());
                    ScanStep::Nothing
                },
                RecordKind::Journal => ScanStep::Load,
                RecordKind::Other => ScanStep::Nothing,
            },
            Sighting::Unloadable { name, error, quarantined } => {
                self.unloadable(name.as_str(), error.as_str(), quarantined);
                ScanStep::Nothing
            },
            Sighting::Loaded { receipt, outcome } => match outcome {
                Outcome::Gone => ScanStep::Nothing,
                Outcome::Kept => {
                    self.keep(receipt);
                    ScanStep::Nothing
                },
            },
            Sighting::Failed { transfer, why } => {
                self.upset(transfer, why.as_str());
                ScanStep::Save
            },
            Sighting::Noted { receipt, unsaved } => {
                if let Some(error) = unsaved {
                    let text = two("cannot persist receipt diagnostic: ", error.as_str());
                    self.report(Some(receipt.id), text.as_str());
                }
                self.keep(receipt);
                ScanStep::Nothing
            },
            Sighting::RecordsOver { truncated } => {
                if truncated {
                    self.report(
                        None,
                        "receipt scan limit reached; remaining journals retained on disk",
                    );
                }
                ScanStep::Nothing
            },
            Sighting::CacheUnlisted { error } => {
                self.fill();
                let text = two("inspect cache directory: ", error.as_str());
                self.report(None, text.as_str());
                ScanStep::Nothing
            },
            Sighting::Cached { place } => if self.tracks(&place) {
                ScanStep::Nothing
            } else {
                ScanStep::Inspect
            },
            Sighting::Inventory { name, bytes, empty } => {
                self.count(name.as_str(), bytes, empty);
                ScanStep::Nothing
            },
            Sighting::Uncounted { name, error } => {
                self.fill();
                let id = transfer_of(name.as_str());
                let text = three(
                    "cannot inventory retained cache data: ",
                    error.as_str(),
                    "; Save remains available",
                );
                self.report(id, text.as_str());
                ScanStep::Nothing
            },
            Sighting::CacheOver { truncated } => {
                if truncated {
                    self.fill();
                    self.report(
                        None,
                        "cache inventory limit exceeded; Save remains available, cache receives require cleanup",
                    );
                }
                ScanStep::Nothing
            },
        }
    }
}

/// Receipts that are in view stay in view, in their order, whatever else is found.
pub proof fn receipts_stay_in_view(recovery: RecoveryView, sighting: Sighting, i: int)
    requires
        recovery.wf(),
        0 <= i < recovery.receipts.len(),
    ensures
        recovery.after(sighting).receipts[i] == recovery.receipts[i],
        recovery.after(sighting).receipts.len() <= MAX_RECORDS,
{
}

/// Space that nobody accounts for is never forgotten: once something could not be counted,
/// the cache counts as full.
pub proof fn uncounted_space_is_reserved(recovery: RecoveryView, sighting: Sighting)
    requires
        recovery.untracked_cache_bytes >= CACHE_QUOTA,
    ensures
        recovery.after(sighting).untracked_cache_bytes >= CACHE_QUOTA,
{
}

/// What could not be listed, read or counted is always counted among the issues.
pub proof fn nothing_goes_wrong_in_silence(recovery: RecoveryView, sighting: Sighting)
    ensures
        sighting is RecordUnlisted || sighting is Unloadable || sighting is Failed
            || sighting is CacheUnlisted || sighting is Uncounted ==> recovery.after(
            sighting,
        ).error_count == recovery.error_count + 1,
        sighting matches Sighting::Noted { unsaved, .. } ==> unsaved is Some ==> recovery.after(
            sighting,
        ).error_count > recovery.error_count,
        sighting is CacheUnlisted || sighting is Uncounted ==> recovery.after(
            sighting,
        ).untracked_cache_bytes == CACHE_QUOTA,
        recovery.after(sighting).error_count >= recovery.error_count,
{
}

} // verus!
