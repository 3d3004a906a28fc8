//! What belongs to this machine on its disk, and how much of it is looked at.

use super::places::Place;
use super::selection::MAX_ROOTS;
use super::walk::{MAX_DEPTH, MAX_ENTRIES};
use crate::outside::{all_blank, flag_bytes, read_flag, says, write_flag};
use vstd::prelude::*;

verus! {

/// Bytes that the choice may take on the disk.
pub const MAX_CHOICE: usize = 16;

/// Bytes that a journal may take on the disk.
pub const MAX_JOURNAL: u64 = 0x20_0000;

/// Bytes that a link may lead through.
pub const MAX_LINK: usize = 4096;

/// Why something on the disk is not used.
#[derive(Clone, Copy, Debug, PartialEq, Eq, Structural)]
pub enum KeepingFault {
    Choice,
    Journal,
    CleanupDepth,
    CleanupEntries,
    InventoryDepth,
    InventoryEntries,
    ReceiptEntries,
    Overflow,
    NotOwned,
    Changed,
    Link,
    Leaves,
}

impl KeepingFault {
    pub open spec fn words(self) -> Seq<char> {
        match self {
            KeepingFault::Choice => "invalid file sharing settings"@,
            KeepingFault::Journal => "invalid or oversized file recovery journal"@,
            KeepingFault::CleanupDepth => "cleanup depth limit reached"@,
            KeepingFault::CleanupEntries => "cleanup entry limit reached"@,
            KeepingFault::InventoryDepth => "cache inventory depth limit reached"@,
            KeepingFault::InventoryEntries => "cache inventory entry limit reached"@,
            KeepingFault::ReceiptEntries => "receipt cleanup entry limit reached"@,
            KeepingFault::Overflow => "cache inventory size overflow"@,
            KeepingFault::NotOwned => "not an owned directory"@,
            KeepingFault::Changed => "owned directory identity changed"@,
            KeepingFault::Link => "unsupported symlink target length or changed link"@,
            KeepingFault::Leaves => "path leaves selected directory"@,
        }
    }

    pub fn text(self) -> (r: &'static str)
        ensures
            r@ == self.words(),
    {
        match self {
            KeepingFault::Choice => "invalid file sharing settings",
            KeepingFault::Journal => "invalid or oversized file recovery journal",
            KeepingFault::CleanupDepth => "cleanup depth limit reached",
            KeepingFault::CleanupEntries => "cleanup entry limit reached",
            KeepingFault::InventoryDepth => "cache inventory depth limit reached",
            KeepingFault::InventoryEntries => "cache inventory entry limit reached",
            KeepingFault::ReceiptEntries => "receipt cleanup entry limit reached",
            KeepingFault::Overflow => "cache inventory size overflow",
            KeepingFault::NotOwned => "not an owned directory",
            KeepingFault::Changed => "owned directory identity changed",
            KeepingFault::Link => "unsupported symlink target length or changed link",
            KeepingFault::Leaves => "path leaves selected directory",
        }
    }
}

/// Whether files are shared, by what is on the disk; nothing there means that they are.
pub fn load_enabled(contents: &Option<Vec<u8>>) -> (r: Result<bool, KeepingFault>)
    ensures
        match *contents {
            None => r == Ok::<bool, KeepingFault>(true),
            Some(bytes) => match r {
                Ok(enabled) => bytes@.len() <= MAX_CHOICE && says(bytes@, enabled),
                Err(e) => e == KeepingFault::Choice && (bytes@.len() > MAX_CHOICE || (!says(
                    bytes@,
                    true,
                ) && !says(bytes@, false))),
            },
        },
{
    match contents {
        None => Ok(true),
        Some(bytes) => {
            if bytes.len() > MAX_CHOICE {
                return Err(KeepingFault::Choice);
            }
            match read_flag(bytes) {
                Some(enabled) => Ok(enabled),
                None => Err(KeepingFault::Choice),
            }
        },
    }
}

/// What is written to the disk for a choice.
pub fn save_enabled(enabled: bool) -> (r: Option<Vec<u8>>)
    ensures
        r is Some,
        r->0@ == flag_bytes(enabled),
{
    write_flag(enabled)
}

/// A choice that is written to the disk is read back.
pub proof fn a_choice_is_kept(enabled: bool)
    ensures
        flag_bytes(enabled).len() <= MAX_CHOICE,
        says(flag_bytes(enabled), enabled),
        !says(flag_bytes(enabled), !enabled),
{
    let bytes = flag_bytes(enabled);
    let n = bytes.len() as int;
    assert(bytes.subrange(0, n) =~= bytes);
    assert(all_blank(bytes.subrange(0, 0)));
    assert(all_blank(bytes.subrange(n, n)));
    if says(bytes, !enabled) {
        let (i, j) = choose|i: int, j: int|
            0 <= i <= j <= bytes.len() && all_blank(#[trigger] bytes.subrange(0, i))
                && bytes.subrange(i, j) == flag_bytes(!enabled) && all_blank(
                #[trigger] bytes.subrange(j, bytes.len() as int),
            );
        if i > 0 {
            assert(bytes.subrange(0, i)[0] == bytes[0]);
        }
        assert(i == 0);
        assert(bytes.subrange(i, j)[0] == bytes[0]);
        assert(false);
    }
}

/// Whether a file can be a journal.
pub fn check_journal(is_file: bool, bytes: u64) -> (r: Result<(), KeepingFault>)
    ensures
        r == if is_file && bytes <= MAX_JOURNAL {
            Ok(())
        } else {
            Err(KeepingFault::Journal)
        },
{
    if is_file && bytes <= MAX_JOURNAL {
        Ok(())
    } else {
        Err(KeepingFault::Journal)
    }
}

/// Whether a link can be taken along, by the bytes of what it leads to.
pub fn check_link(bytes: usize) -> (r: Result<(), KeepingFault>)
    ensures
        r == if 0 < bytes <= MAX_LINK {
            Ok(())
        } else {
            Err(KeepingFault::Link)
        },
{
    if bytes > 0 && bytes <= MAX_LINK {
        Ok(())
    } else {
        Err(KeepingFault::Link)
    }
}

/// A way that stays below where it starts.
pub open spec fn is_confined(absolute: bool, names: Seq<Seq<char>>) -> bool {
    !absolute && forall|i: int| 0 <= i < names.len() ==> (#[trigger] names[i]) != ".."@
}

/// Whether a way stays below where it starts.
pub fn confined(way: &Place) -> (r: Result<(), KeepingFault>)
    ensures
        r == if is_confined(way@.absolute, way@.names) {
            Ok(())
        } else {
            Err(KeepingFault::Leaves)
        },
{
    if way.absolute {
        return Err(KeepingFault::Leaves);
    }
    let up = "..".to_owned();
    for i in 0..way.names.len()
        invariant
            up@ == ".."@,
            !way@.absolute,
            forall|k: int| 0 <= k < i ==> (#[trigger] way@.names[k]) != ".."@,
    {
        assert(way@.names[i as int] == way.names@[i as int]@);
        if way.names[i] == up {
            return Err(KeepingFault::Leaves);
        }
    }
    Ok(())
}

/// Whether a directory is this machine's, and the one that is expected.
pub fn verify_owned(directory: bool, owned: bool, expected: bool) -> (r: Result<(), KeepingFault>)
    ensures
        r == if !(directory && owned) {
            Err(KeepingFault::NotOwned)
        } else if !expected {
            Err(KeepingFault::Changed)
        } else {
            Ok(())
        },
{
    if !(directory && owned) {
        Err(KeepingFault::NotOwned)
    } else if !expected {
        Err(KeepingFault::Changed)
    } else {
        Ok(())
    }
}

/// The bits that give the owner of a directory access to it again, where they are missing.
pub fn restore_access(mode: u32) -> (r: Option<u32>)
    ensures
        r == if mode & 0o700 == 0o700 {
            None
        } else {
            Some((mode & 0o777) | 0o700)
        },
        r matches Some(bits) ==> bits & 0o700 == 0o700 && bits & 0o77 == mode & 0o77,
{
    if mode & 0o700 == 0o700 {
        None
    } else {
        assert(((mode & 0o777) | 0o700) & 0o700 == 0o700) by (bit_vector);
        assert(((mode & 0o777) | 0o700) & 0o77 == mode & 0o77) by (bit_vector);
        Some((mode & 0o777) | 0o700)
    }
}

/// What lies in a directory.
#[derive(Clone, Copy, Debug, PartialEq, Eq, Structural)]
pub enum Thing {
    Directory,
    File { bytes: u64 },
    Other,
}

/// Why a tree is looked at.
#[derive(Clone, Copy, Debug, PartialEq, Eq, Structural)]
pub enum Errand {
    /// To remove it.
    Cleanup,
    /// To learn what it takes of the cache.
    Inventory,
    /// To see whether it could be removed.
    Preflight,
}

/// Counts what is looked at in a tree.
#[derive(Clone, Copy, Debug, PartialEq, Eq, Structural)]
pub struct Tally {
    pub errand: Errand,
    /// Entries that may still be looked at.
    pub remaining: usize,
    pub bytes: u64,
}

impl Tally {
    /// What a thing adds: only an inventory weighs files.
    pub open spec fn size(self, thing: Thing) -> u64 {
        match (self.errand, thing) {
            (Errand::Inventory, Thing::File { bytes }) => bytes,
            _ => 0,
        }
    }

    /// That no more entries may be looked at.
    pub open spec fn full(self) -> KeepingFault {
        match self.errand {
            Errand::Cleanup => KeepingFault::CleanupEntries,
            Errand::Inventory => KeepingFault::InventoryEntries,
            Errand::Preflight => KeepingFault::ReceiptEntries,
        }
    }

    pub open spec fn fault(self, thing: Thing) -> Option<KeepingFault> {
        if self.remaining == 0 {
            Some(self.full())
        } else if self.bytes + self.size(thing) > u64::MAX {
            Some(KeepingFault::Overflow)
        } else {
            None
        }
    }

    /// For what has to be removed of a transfer.
    pub fn for_cleanup() -> (r: Tally)
        ensures
            r == (Tally {
                errand: Errand::Cleanup,
                remaining: (MAX_ENTRIES + MAX_ROOTS + 1) as usize,
                bytes: 0,
            }),
    {
        Tally { errand: Errand::Cleanup, remaining: MAX_ENTRIES + MAX_ROOTS + 1, bytes: 0 }
    }

    /// For what would have to be removed of a transfer.
    pub fn for_preflight() -> (r: Tally)
        ensures
            r == (Tally {
                errand: Errand::Preflight,
                remaining: (MAX_ENTRIES + MAX_ROOTS + 1) as usize,
                bytes: 0,
            }),
    {
        Tally { errand: Errand::Preflight, remaining: MAX_ENTRIES + MAX_ROOTS + 1, bytes: 0 }
    }

    /// Whether a directory at some depth is looked into.
    pub fn descend(&self, depth: usize) -> (r: Result<(), KeepingFault>)
        ensures
            r == if depth <= MAX_DEPTH + 2 {
                Ok(())
            } else {
                match self.errand {
                    Errand::Cleanup => Err(KeepingFault::CleanupDepth),
                    Errand::Inventory => Err(KeepingFault::InventoryDepth),
                    Errand::Preflight => Ok(()),
                }
            },
    {
        if depth <= MAX_DEPTH + 2 {
            return Ok(());
        }
        match self.errand {
            Errand::Cleanup => Err(KeepingFault::CleanupDepth),
            Errand::Inventory => Err(KeepingFault::InventoryDepth),
            Errand::Preflight => Ok(()),
        }
    }

    /// Looks at something.
    pub fn count(&mut self, thing: Thing) -> (r: Result<(), KeepingFault>)
        ensures
            match r {
                Ok(()) => {
                    &&& old(self).fault(thing) is None
                    &&& final(self).remaining == old(self).remaining - 1
                    &&& final(self).bytes == old(self).bytes + old(self).size(thing)
                    &&& final(self).errand == old(self).errand
                },
                Err(e) => old(self).fault(thing) == Some(e) && *final(self) == *old(self),
            },
    {
        if self.remaining == 0 {
            return Err(
                match self.errand {
                    Errand::Cleanup => KeepingFault::CleanupEntries,
                    Errand::Inventory => KeepingFault::InventoryEntries,
                    Errand::Preflight => KeepingFault::ReceiptEntries,
                },
            );
        }
        let size: u64 = match (self.errand, thing) {
            (Errand::Inventory, Thing::File { bytes }) => bytes,
            _ => 0,
        };
        match self.bytes.checked_add(size) {
            None => Err(KeepingFault::Overflow),
            Some(sum) => {
                self.remaining = self.remaining - 1;
                self.bytes = sum;
                Ok(())
            },
        }
    }
}

/// All that some things add.
pub open spec fn total(tally: Tally, things: Seq<Thing>) -> int
    decreases things.len(),
{
    if things.len() == 0 {
        0
    } else {
        total(tally, things.drop_last()) + tally.size(things.last())
    }
}

/// The tally once some things were looked at, one after the other, up to the first that
/// cannot be, and what is wrong with that.
pub open spec fn counted(tally: Tally, things: Seq<Thing>) -> (Tally, Option<KeepingFault>)
    decreases things.len(),
{
    if things.len() == 0 {
        (tally, None)
    } else {
        let before = counted(tally, things.drop_last());
        let last = things.last();
        if before.1 is Some {
            before
        } else if before.0.fault(last) is Some {
            (before.0, before.0.fault(last))
        } else {
            (
                Tally {
                    remaining: (before.0.remaining - 1) as usize,
                    bytes: (before.0.bytes + before.0.size(last)) as u64,
                    ..before.0
                },
                None,
            )
        }
    }
}

/// Looks at some things, one after the other.
pub fn count_all(tally: &mut Tally, things: &Vec<Thing>) -> (r: Result<(), KeepingFault>)
    ensures
        *final(tally) == counted(*old(tally), things@).0,
        match r {
            Ok(()) => {
                &&& counted(*old(tally), things@).1 is None
                &&& final(tally).bytes == old(tally).bytes + total(*old(tally), things@)
                &&& final(tally).remaining == old(tally).remaining - things@.len()
            },
            Err(e) => {
                &&& counted(*old(tally), things@).1 == Some(e)
                &&& things@.len() > old(tally).remaining || old(tally).bytes + total(
                    *old(tally),
                    things@,
                ) > u64::MAX
            },
        },
{
    let ghost all = things@;
    let ghost start = *tally;
    assert(all.take(0) =~= Seq::empty());
    for i in 0..things.len()
        invariant
            all == things@,
            start == *old(tally),
            counted(start, all.take(i as int)) == (*tally, None::<KeepingFault>),
            tally.errand == start.errand,
            tally.bytes == start.bytes + total(start, all.take(i as int)),
            tally.remaining == start.remaining - i,
    {
        assert(all.take(i + 1).drop_last() =~= all.take(i as int));
        proof {
            lemma_total_grows(start, all, i + 1);
        }
        if let Err(e) = tally.count(things[i]) {
            proof {
                lemma_counted_stops(start, all, i + 1);
            }
            return Err(e);
        }
    }
    assert(all.take(all.len() as int) =~= all);
    Ok(())
}

/// Behind the first thing that cannot be looked at, nothing changes any more.
proof fn lemma_counted_stops(tally: Tally, things: Seq<Thing>, n: int)
    requires
        0 <= n <= things.len(),
        counted(tally, things.take(n)).1 is Some,
    ensures
        counted(tally, things) == counted(tally, things.take(n)),
    decreases things.len() - n,
{
    if n < things.len() {
        assert(things.take(n + 1).drop_last() =~= things.take(n));
        lemma_counted_stops(tally, things, n + 1);
    } else {
        assert(things.take(n) =~= things);
    }
}

proof fn lemma_total_grows(tally: Tally, things: Seq<Thing>, n: int)
    requires
        0 <= n <= things.len(),
    ensures
        total(tally, things.take(n)) <= total(tally, things),
    decreases things.len() - n,
{
    if n < things.len() {
        lemma_total_grows(tally, things, n + 1);
        assert(things.take(n + 1).drop_last() =~= things.take(n));
    } else {
        assert(things.take(n) =~= things);
    }
}

} // verus!
