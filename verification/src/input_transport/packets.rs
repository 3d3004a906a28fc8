//! Which edges go out, and in how many datagrams.

use super::sender::{Sender, Sending};
use super::state::{Transition, Update};
use crate::outside::{encode_count, varint};
use vstd::prelude::*;

verus! {

/// The largest datagram that is sent or taken.
pub const MAX_DATAGRAM: usize = 1200;

/// Magic and token at the head of a datagram.
pub const HEADER: usize = 20;

/// Microseconds that input may take until it is delivered.
pub const INPUT_TIMEOUT_US: u64 = 750_000;

/// Edges at the head of the journal that every update repeats.
pub const REPEATED: usize = 4;

/// Why an update cannot be sent.
#[derive(Clone, Copy, Debug, PartialEq, Eq, Structural)]
pub enum SendError {
    /// The oldest edge waited too long for its acknowledgement.
    Overdue,
    /// An edge alone exceeds a datagram.
    TooLarge,
}

/// Bytes of a list's length.
pub open spec fn count_len(count: nat) -> nat {
    varint(count).len()
}

pub open spec fn total(sizes: Seq<usize>) -> int
    decreases sizes.len(),
{
    if sizes.len() == 0 {
        0
    } else {
        total(sizes.drop_last()) + sizes.last()
    }
}

/// Bytes of a datagram that holds the edges from `from` on, below `to`; `base` is what an
/// update without edges takes, its list's length not counted.
pub open spec fn datagram_len(base: int, sizes: Seq<usize>, from: int, to: int) -> int {
    base + total(sizes.subrange(from, to)) + count_len((to - from) as nat)
}

/// Edges are packed in order, each into the open datagram as long as it fits there.
pub open spec fn packed(base: int, sizes: Seq<usize>) -> Seq<(int, int)>
    decreases sizes.len(),
{
    if sizes.len() == 0 {
        seq![(0int, 0int)]
    } else {
        let before = packed(base, sizes.drop_last());
        let n = sizes.len() as int;
        let from = before.last().0;
        if datagram_len(base, sizes, from, n) > MAX_DATAGRAM {
            before.push((n - 1, n))
        } else {
            before.drop_last().push((from, n))
        }
    }
}

/// Some edge exceeds a datagram on its own.
pub open spec fn too_large(base: int, sizes: Seq<usize>) -> bool {
    exists|i: int| 0 <= i < sizes.len() && base + (#[trigger] sizes[i]) + 1 > MAX_DATAGRAM
}

/// Every edge goes out once and in order: the datagrams follow on each other from the first
/// edge to the last, and where no edge exceeds a datagram on its own, each fits.
pub proof fn datagrams_carry_every_edge_once(base: int, sizes: Seq<usize>)
    requires
        0 <= base < MAX_DATAGRAM,
        !too_large(base, sizes),
    ensures
        ({
            let packs = packed(base, sizes);
            &&& packs.len() > 0
            &&& packs[0].0 == 0
            &&& packs.last().1 == sizes.len()
            &&& forall|i: int, j: int|
                0 <= i < j < packs.len() && j == i + 1 ==> (#[trigger] packs[j]).0 == (
                #[trigger] packs[i]).1
            &&& forall|i: int|
                0 <= i < packs.len() ==> 0 <= (#[trigger] packs[i]).0 <= packs[i].1 <= sizes.len()
            &&& forall|i: int|
                0 <= i < packs.len() ==> datagram_len(
                    base,
                    sizes,
                    (#[trigger] packs[i]).0,
                    packs[i].1,
                ) <= MAX_DATAGRAM
        }),
    decreases sizes.len(),
{
    let packs = packed(base, sizes);
    assert(varint(0).len() == 1);
    if sizes.len() == 0 {
        assert(sizes.subrange(0, 0) =~= Seq::<usize>::empty());
    } else {
        let n = sizes.len() as int;
        let front = sizes.drop_last();
        let before = packed(base, front);
        assert(!too_large(base, front)) by {
            assert forall|i: int| 0 <= i < front.len() implies base + (#[trigger] front[i]) + 1
                <= MAX_DATAGRAM by {
                assert(front[i] == sizes[i]);
            }
        }
        datagrams_carry_every_edge_once(base, front);
        assert forall|i: int| 0 <= i < packs.len() implies datagram_len(
            base,
            sizes,
            (#[trigger] packs[i]).0,
            packs[i].1,
        ) <= MAX_DATAGRAM by {
            if packs[i].1 < n {
                assert(packs[i] == before[i]);
                assert(sizes.subrange(packs[i].0, packs[i].1) =~= front.subrange(
                    packs[i].0,
                    packs[i].1,
                ));
            } else if packs[i].0 == n - 1 {
                let one = sizes.subrange(n - 1, n);
                assert(one.drop_last() =~= Seq::<usize>::empty());
                assert(total(one) == sizes[n - 1]) by {
                    reveal_with_fuel(total, 2);
                }
                assert(varint(1).len() == 1);
            } else {
                assert(packs[i] == (before.last().0, n));
            }
        }
    }
}

/// The ranges of edges that share a datagram; `base` is the size of an update without
/// edges, `sizes` those of the edges.
pub fn chunks(base: usize, sizes: &Vec<usize>) -> (r: Result<Vec<(usize, usize)>, SendError>)
    requires
        1 <= base < MAX_DATAGRAM,
    ensures
        match r {
            Ok(packs) => {
                &&& !too_large(base + HEADER - 1, sizes@)
                &&& packs@.len() == packed(base + HEADER - 1, sizes@).len()
                &&& forall|i: int|
                    0 <= i < packs@.len() ==> (#[trigger] packs@[i]).0 == packed(
                        base + HEADER - 1,
                        sizes@,
                    )[i].0 && packs@[i].1 == packed(base + HEADER - 1, sizes@)[i].1
            },
            Err(e) => e == SendError::TooLarge && too_large(base + HEADER - 1, sizes@),
        },
{
    let fixed: usize = base + HEADER - 1;
    let ghost all = sizes@;
    let mut packs: Vec<(usize, usize)> = Vec::new();
    let mut from: usize = 0;
    let mut entries: usize = 0;
    assert(all.take(0) =~= Seq::empty());
    assert(all.subrange(0, 0) =~= Seq::<usize>::empty());
    for i in 0..sizes.len()
        invariant
            all == sizes@,
            base < MAX_DATAGRAM,
            fixed == base + HEADER - 1,
            from <= i,
            entries == total(all.subrange(from as int, i as int)),
            entries <= MAX_DATAGRAM,
            packed(fixed as int, all.take(i as int)).len() == packs@.len() + 1,
            packed(fixed as int, all.take(i as int)).last() == (from as int, i as int),
            forall|k: int|
                0 <= k < packs@.len() ==> (#[trigger] packs@[k]).0 == packed(
                    fixed as int,
                    all.take(i as int),
                )[k].0 && packs@[k].1 == packed(fixed as int, all.take(i as int))[k].1,
            forall|k: int| 0 <= k < i ==> fixed + (#[trigger] all[k]) + 1 <= MAX_DATAGRAM,
    {
        let entry: usize = sizes[i];
        let ghost front = all.take(i as int);
        let ghost now = all.take(i + 1);
        assert(now.drop_last() =~= front);
        assert(now.subrange(from as int, i + 1) =~= all.subrange(from as int, i + 1));
        assert(all.subrange(from as int, i + 1).drop_last() =~= all.subrange(
            from as int,
            i as int,
        ));
        assert(total(all.subrange(from as int, i + 1)) == entries + entry);
        if entry > MAX_DATAGRAM || fixed + entry + 1 > MAX_DATAGRAM {
            assert(fixed + all[i as int] + 1 > MAX_DATAGRAM);
            return Err(SendError::TooLarge);
        }
        let Some(count) = encode_count(i - from + 1) else {
            return Err(SendError::TooLarge);
        };
        let length: usize = count.len();
        if length > MAX_DATAGRAM || fixed + entries + entry + length > MAX_DATAGRAM {
            packs.push((from, i));
            from = i;
            entries = 0;
            assert(all.subrange(i as int, i + 1).drop_last() =~= Seq::<usize>::empty());
            assert(total(all.subrange(i as int, i + 1)) == entry) by {
                reveal_with_fuel(total, 2);
            }
        }
        entries = entries + entry;
    }
    assert(all.take(all.len() as int) =~= all);
    packs.push((from, sizes.len()));
    Ok(packs)
}

/// Edges that go out: the head of the journal, what was not sent yet, or all of it.
pub open spec fn outgoing(pending: Seq<Transition>, sent: u64, repair: bool) -> Seq<Transition>
    decreases pending.len(),
{
    if pending.len() == 0 {
        Seq::empty()
    } else {
        let before = outgoing(pending.drop_last(), sent, repair);
        if repair || pending.len() <= REPEATED || pending.last().id >= sent {
            before.push(pending.last())
        } else {
            before
        }
    }
}

/// Time from one stamp to another, nothing where it would be negative.
pub open spec fn since(now: u64, then: u64) -> int {
    if now >= then {
        now - then
    } else {
        0
    }
}

/// The oldest edge has waited too long.
pub open spec fn overdue(state: Sending, now: u64) -> bool {
    state.pending.len() > 0 && since(now, state.pending[0].position.captured_us)
        >= INPUT_TIMEOUT_US
}

/// The update to send now, if there is a position yet.
pub fn transmit(sender: &Sender, now: u64, sent_transition: u64, repair: bool) -> (r: Result<
    Option<Update>,
    SendError,
>)
    ensures
        match r {
            Ok(None) => sender@.position is None,
            Ok(Some(update)) => {
                &&& sender@.position == Some(update.position)
                &&& !overdue(sender@, now)
                &&& update.transitions@ == outgoing(sender@.pending, sent_transition, repair)
            },
            Err(e) => e == SendError::Overdue && sender@.position is Some && overdue(sender@, now),
        },
{
    let Some(position) = sender.position() else {
        return Ok(None);
    };
    let pending = sender.pending();
    if pending.len() > 0 {
        let captured: u64 = pending[0].position.captured_us;
        if now >= captured && now - captured >= INPUT_TIMEOUT_US {
            return Err(SendError::Overdue);
        }
    }
    let mut transitions: Vec<Transition> = Vec::new();
    let ghost all = pending@;
    for i in 0..pending.len()
        invariant
            all == pending@,
            transitions@ == outgoing(all.take(i as int), sent_transition, repair),
    {
        assert(all.take(i + 1).drop_last() =~= all.take(i as int));
        let edge = pending[i];
        if repair || i < REPEATED || edge.id >= sent_transition {
            transitions.push(edge);
        }
    }
    assert(all.take(all.len() as int) =~= all);
    Ok(Some(Update { position: *position, transitions }))
}

proof fn lemma_outgoing(pending: Seq<Transition>, sent: u64, repair: bool, i: int)
    requires
        0 <= i < pending.len(),
        repair || i < REPEATED || pending[i].id >= sent,
    ensures
        outgoing(pending, sent, repair).contains(pending[i]),
    decreases pending.len(),
{
    let all = outgoing(pending, sent, repair);
    if i == pending.len() - 1 {
        assert(all.last() == pending[i]);
    } else {
        let front = pending.drop_last();
        lemma_outgoing(front, sent, repair, i);
        let before = outgoing(front, sent, repair);
        let k = choose|k: int| 0 <= k < before.len() && before[k] == pending[i];
        assert(all[k] == pending[i]);
    }
}

/// An edge that was not sent yet always goes out, and a repair sends the whole journal.
pub proof fn nothing_new_stays_behind(pending: Seq<Transition>, sent: u64, repair: bool)
    ensures
        forall|i: int|
            0 <= i < pending.len() && (#[trigger] pending[i]).id >= sent ==> outgoing(
                pending,
                sent,
                repair,
            ).contains(pending[i]),
        outgoing(pending, sent, true) == pending,
    decreases pending.len(),
{
    assert forall|i: int| 0 <= i < pending.len() && (
    #[trigger] pending[i]).id >= sent implies outgoing(pending, sent, repair).contains(
        pending[i],
    ) by {
        lemma_outgoing(pending, sent, repair, i);
    }
    if pending.len() > 0 {
        nothing_new_stays_behind(pending.drop_last(), sent, repair);
        assert(pending =~= pending.drop_last().push(pending.last()));
    }
}

} // verus!
