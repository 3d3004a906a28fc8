//! Clipboard contents fetched from other machines, piece by piece.

use crate::machine::MachineId;
use std::sync::Arc;
use vstd::prelude::*;

verus! {

/// Fetches that may be under way.
pub const MAX_PENDING: usize = 64;

/// Bytes that all fetches together may hold.
pub const MAX_BUFFERED: usize = 0x400_0000;

/// Bytes of one clipboard format.
pub const CLIP_MAX_TOTAL: usize = 0x100_0000;

/// A fetch under way.
#[derive(Debug)]
pub struct PendingFetch {
    pub origin: MachineId,
    pub request: u64,
    pub bytes: Vec<u8>,
}

pub ghost struct Fetch {
    pub origin: Seq<char>,
    pub request: u64,
    pub bytes: Seq<u8>,
}

impl View for PendingFetch {
    type V = Fetch;

    open spec fn view(&self) -> Fetch {
        Fetch { origin: self.origin@, request: self.request, bytes: self.bytes@ }
    }
}

/// A machine that offered, and the connection it did so on.
#[derive(Debug)]
pub struct Origin {
    pub machine: MachineId,
    pub connection: u64,
}

pub ghost struct OriginView {
    pub machine: Seq<char>,
    pub connection: u64,
}

impl View for Origin {
    type V = OriginView;

    open spec fn view(&self) -> OriginView {
        OriginView { machine: self.machine@, connection: self.connection }
    }
}

/// What a machine offered: formats that can be fetched while its connection and the
/// clipboard last.
#[derive(Debug)]
pub struct RemoteFetch {
    pub origin: MachineId,
    pub id: u64,
    pub mimes: Arc<Vec<String>>,
    pub generation: u64,
    pub connection: u64,
}

/// What became of a piece.
#[derive(Debug, PartialEq, Eq)]
pub enum Chunk {
    /// Nobody waits for it.
    Unknown,
    /// It exceeds a limit, and the fetch ends without a result.
    TooLarge,
    Buffered,
    /// The fetch is complete.
    Complete(Vec<u8>),
}

#[derive(Debug)]
pub struct Transfers {
    next_request: u64,
    next_connection: u64,
    generation: u64,
    origins: Vec<Origin>,
    pending: Vec<PendingFetch>,
}

pub ghost struct TransfersView {
    pub next_request: u64,
    pub next_connection: u64,
    pub generation: u64,
    pub origins: Seq<OriginView>,
    pub pending: Seq<Fetch>,
}

pub open spec fn fetches(pending: Seq<PendingFetch>) -> Seq<Fetch> {
    Seq::new(pending.len(), |i: int| pending[i]@)
}

pub open spec fn origin_views(origins: Seq<Origin>) -> Seq<OriginView> {
    Seq::new(origins.len(), |i: int| origins[i]@)
}

impl View for Transfers {
    type V = TransfersView;

    closed spec fn view(&self) -> TransfersView {
        TransfersView {
            next_request: self.next_request,
            next_connection: self.next_connection,
            generation: self.generation,
            origins: origin_views(self.origins@),
            pending: fetches(self.pending@),
        }
    }
}

/// Where a fetch stands, or the number of fetches where it is unknown.
pub open spec fn place(pending: Seq<Fetch>, origin: Seq<char>, request: u64) -> int
    decreases pending.len(),
{
    if pending.len() == 0 {
        0
    } else if pending[0].origin == origin && pending[0].request == request {
        0
    } else {
        1 + place(pending.skip(1), origin, request)
    }
}

/// Where a machine stands among the origins, or their number where it is unknown.
pub open spec fn origin_place(origins: Seq<OriginView>, machine: Seq<char>) -> int
    decreases origins.len(),
{
    if origins.len() == 0 {
        0
    } else if origins[0].machine == machine {
        0
    } else {
        1 + origin_place(origins.skip(1), machine)
    }
}

/// Bytes that all fetches hold.
pub open spec fn buffered(pending: Seq<Fetch>) -> int
    decreases pending.len(),
{
    if pending.len() == 0 {
        0
    } else {
        buffered(pending.drop_last()) + pending.last().bytes.len()
    }
}

/// The fetches from other machines.
pub open spec fn others(pending: Seq<Fetch>, origin: Seq<char>) -> Seq<Fetch>
    decreases pending.len(),
{
    if pending.len() == 0 {
        Seq::empty()
    } else if pending.last().origin == origin {
        others(pending.drop_last(), origin)
    } else {
        others(pending.drop_last(), origin).push(pending.last())
    }
}

/// A piece exceeds what a fetch, or all fetches, may hold.
pub open spec fn exceeds(pending: Seq<Fetch>, at: int, data: Seq<u8>) -> bool {
    ||| pending[at].bytes.len() + data.len() > CLIP_MAX_TOTAL
    ||| buffered(pending) + data.len() > MAX_BUFFERED
}

proof fn lemma_place(pending: Seq<Fetch>, origin: Seq<char>, request: u64)
    ensures
        0 <= place(pending, origin, request) <= pending.len(),
        place(pending, origin, request) < pending.len() ==> pending[place(
            pending,
            origin,
            request,
        )].origin == origin && pending[place(pending, origin, request)].request == request,
        forall|i: int|
            0 <= i < place(pending, origin, request) ==> !((#[trigger] pending[i]).origin == origin
                && pending[i].request == request),
    decreases pending.len(),
{
    if pending.len() > 0 && !(pending[0].origin == origin && pending[0].request == request) {
        let rest = pending.skip(1);
        lemma_place(rest, origin, request);
        assert forall|i: int| 0 <= i < place(pending, origin, request) implies !((
        #[trigger] pending[i]).origin == origin && pending[i].request == request) by {
            if i > 0 {
                assert(rest[i - 1] == pending[i]);
            }
        }
    }
}

proof fn lemma_origin_place(origins: Seq<OriginView>, machine: Seq<char>)
    ensures
        0 <= origin_place(origins, machine) <= origins.len(),
        origin_place(origins, machine) < origins.len() ==> origins[origin_place(
            origins,
            machine,
        )].machine == machine,
        forall|i: int|
            0 <= i < origin_place(origins, machine) ==> (#[trigger] origins[i]).machine != machine,
    decreases origins.len(),
{
    if origins.len() > 0 && origins[0].machine != machine {
        let rest = origins.skip(1);
        lemma_origin_place(rest, machine);
        assert forall|i: int| 0 <= i < origin_place(origins, machine) implies (
        #[trigger] origins[i]).machine != machine by {
            if i > 0 {
                assert(rest[i - 1] == origins[i]);
            }
        }
    }
}

impl TransfersView {
    pub open spec fn wf(self) -> bool {
        &&& self.pending.len() <= MAX_PENDING
        &&& buffered(self.pending) <= MAX_BUFFERED
    }

    /// The origin with its connection, a new one where it had none.
    pub open spec fn offering(self, machine: Seq<char>) -> TransfersView {
        if origin_place(self.origins, machine) < self.origins.len() {
            self
        } else {
            TransfersView {
                origins: self.origins.push(
                    OriginView { machine, connection: self.next_connection },
                ),
                next_connection: vstd::wrapping::u64_specs::wrapping_add(self.next_connection, 1),
                ..self
            }
        }
    }

    /// What can be fetched of an offer.
    pub open spec fn fetch_of(self, origin: MachineId, id: u64, mimes: Arc<Vec<String>>) -> RemoteFetch {
        RemoteFetch {
            origin,
            id,
            mimes,
            generation: self.generation,
            connection: self.origins[origin_place(self.origins, origin@)].connection,
        }
    }

    /// An offer's connection and clipboard still last.
    pub open spec fn lasts(self, machine: Seq<char>, connection: u64, generation: u64) -> bool {
        let at = origin_place(self.origins, machine);
        &&& at < self.origins.len()
        &&& self.origins[at].connection == connection
        &&& self.generation == generation
    }
}

impl Default for Transfers {
    fn default() -> (r: Self)
        ensures
            r@ == (TransfersView {
                next_request: 0,
                next_connection: 0,
                generation: 0,
                origins: Seq::empty(),
                pending: Seq::empty(),
            }),
            r@.wf(),
    {
        let r = Transfers {
            next_request: 0,
            next_connection: 0,
            generation: 0,
            origins: Vec::new(),
            pending: Vec::new(),
        };
        assert(r@.origins =~= Seq::empty());
        assert(r@.pending =~= Seq::empty());
        r
    }
}

impl Transfers {
    fn find(&self, origin: &MachineId, request: u64) -> (r: usize)
        ensures
            r == place(self@.pending, origin@, request),
            r <= self@.pending.len(),
            self@.pending.len() == self.pending@.len(),
    {
        let mut at: usize = 0;
        let ghost all = self@.pending;
        proof {
            lemma_place(all, origin@, request);
        }
        while at < self.pending.len() && !(self.pending[at].request == request
            && self.pending[at].origin.same(origin))
            invariant
                all == self@.pending,
                at <= self.pending@.len(),
                forall|i: int|
                    0 <= i < at ==> !((#[trigger] all[i]).origin == origin@ && all[i].request
                        == request),
            ensures
                at <= self.pending@.len(),
                forall|i: int|
                    0 <= i < at ==> !((#[trigger] all[i]).origin == origin@ && all[i].request
                        == request),
                at < self.pending@.len() ==> all[at as int].origin == origin@ && all[at as int].request
                    == request,
            decreases self.pending@.len() - at,
        {
            at = at + 1;
        }
        proof {
            let p = place(all, origin@, request);
            if at < p {
                assert(all[at as int].origin == origin@);
            }
            if p < at {
                assert(all[p].origin == origin@);
            }
        }
        at
    }

    fn find_origin(&self, machine: &MachineId) -> (r: usize)
        ensures
            r == origin_place(self@.origins, machine@),
            r <= self@.origins.len(),
            self@.origins.len() == self.origins@.len(),
    {
        let mut at: usize = 0;
        let ghost all = self@.origins;
        proof {
            lemma_origin_place(all, machine@);
        }
        while at < self.origins.len() && !self.origins[at].machine.same(machine)
            invariant
                all == self@.origins,
                at <= self.origins@.len(),
                forall|i: int| 0 <= i < at ==> (#[trigger] all[i]).machine != machine@,
            ensures
                at <= self.origins@.len(),
                forall|i: int| 0 <= i < at ==> (#[trigger] all[i]).machine != machine@,
                at < self.origins@.len() ==> all[at as int].machine == machine@,
            decreases self.origins@.len() - at,
        {
            at = at + 1;
        }
        proof {
            let p = origin_place(all, machine@);
            if at < p {
                assert(all[at as int].machine == machine@);
            }
            if p < at {
                assert(all[p].machine == machine@);
            }
        }
        at
    }

    fn total(&self) -> (r: usize)
        requires
            self@.wf(),
        ensures
            r == buffered(self@.pending),
    {
        let mut sum: usize = 0;
        let ghost all = self@.pending;
        assert(all.take(0) =~= Seq::empty());
        for i in 0..self.pending.len()
            invariant
                self@.wf(),
                all == self@.pending,
                sum == buffered(all.take(i as int)),
        {
            proof {
                assert(all.take(i + 1).drop_last() =~= all.take(i as int));
                lemma_buffered_grows(all, i + 1);
            }
            sum = sum + self.pending[i].bytes.len();
        }
        assert(all.take(all.len() as int) =~= all);
        sum
    }

    /// A machine offered formats.
    pub fn offer(&mut self, origin: MachineId, id: u64, mimes: Arc<Vec<String>>) -> (r: RemoteFetch)
        requires
            old(self)@.wf(),
        ensures
            final(self)@ == old(self)@.offering(origin@),
            final(self)@.wf(),
            r == final(self)@.fetch_of(origin, id, mimes),
            final(self)@.lasts(r.origin@, r.connection, r.generation),
    {
        let at: usize = self.find_origin(&origin);
        let ghost before = self@;
        if at == self.origins.len() {
            let machine = origin.clone();
            let connection: u64 = self.next_connection;
            self.next_connection = self.next_connection.wrapping_add(1);
            self.origins.push(Origin { machine, connection });
            proof {
                assert(self@.origins =~= before.origins.push(
                    OriginView { machine: origin@, connection },
                ));
                lemma_origin_place(before.origins, origin@);
                lemma_origin_place(self@.origins, origin@);
                let p = origin_place(self@.origins, origin@);
                if p < before.origins.len() {
                    assert(before.origins[p].machine != origin@);
                } else {
                    assert(self@.origins[before.origins.len() as int].machine == origin@);
                }
            }
        }
        assert(origin_place(self@.origins, origin@) == at);
        assert(self.origins@[at as int]@ == self@.origins[at as int]);
        let connection: u64 = self.origins[at].connection;
        RemoteFetch { origin, id, mimes, generation: self.generation, connection }
    }

    /// Begins to fetch a format; the request to send, where the offer still stands.
    pub fn begin(&mut self, offer: &RemoteFetch, mime: &String) -> (r: Option<u64>)
        requires
            old(self)@.wf(),
        ensures
            final(self)@.wf(),
            ({
                let before = old(self)@;
                let request = before.next_request;
                let counted = TransfersView {
                    next_request: vstd::wrapping::u64_specs::wrapping_add(request, 1),
                    ..before
                };
                if !offers(offer.mimes@, mime@) {
                    r is None && final(self)@ == before
                } else if !before.lasts(offer.origin@, offer.connection, offer.generation)
                    || before.pending.len() >= MAX_PENDING {
                    r is None && final(self)@ == counted
                } else {
                    r == Some(request) && final(self)@ == (TransfersView {
                        pending: before.pending.push(
                            Fetch { origin: offer.origin@, request, bytes: Seq::empty() },
                        ),
                        ..counted
                    })
                }
            }),
    {
        if !has_mime(&offer.mimes, mime) {
            return None;
        }
        let ghost before = self@;
        let request: u64 = self.next_request;
        self.next_request = self.next_request.wrapping_add(1);
        let at: usize = self.find_origin(&offer.origin);
        if at == self.origins.len() {
            return None;
        }
        assert(self.origins@[at as int]@ == self@.origins[at as int]);
        if self.origins[at].connection != offer.connection || self.generation != offer.generation {
            return None;
        }
        if self.pending.len() >= MAX_PENDING {
            return None;
        }
        self.pending.push(
            PendingFetch { origin: offer.origin.clone(), request, bytes: Vec::new() },
        );
        proof {
            let fetch = Fetch { origin: offer.origin@, request, bytes: Seq::empty() };
            assert(self.pending@.last()@ == fetch);
            assert(self@.pending =~= before.pending.push(fetch));
            assert(self@.pending.drop_last() =~= before.pending);
        }
        Some(request)
    }

    /// A piece of a format came in.
    pub fn chunk(&mut self, origin: &MachineId, request: u64, data: &Vec<u8>, last: bool) -> (r:
        Chunk)
        requires
            old(self)@.wf(),
        ensures
            final(self)@.wf(),
            ({
                let before = old(self)@;
                let at = place(before.pending, origin@, request);
                let bytes = before.pending[at].bytes + data@;
                if at == before.pending.len() {
                    r is Unknown && final(self)@ == before
                } else if exceeds(before.pending, at, data@) {
                    r is TooLarge && final(self)@ == (TransfersView {
                        pending: before.pending.remove(at),
                        ..before
                    })
                } else if last {
                    &&& r matches Chunk::Complete(result) && result@ == bytes
                    &&& final(self)@ == (TransfersView {
                        pending: before.pending.remove(at),
                        ..before
                    })
                } else {
                    r is Buffered && final(self)@ == (TransfersView {
                        pending: before.pending.remove(at).push(
                            Fetch { bytes, ..before.pending[at] },
                        ),
                        ..before
                    })
                }
            }),
    {
        let at: usize = self.find(origin, request);
        if at == self.pending.len() {
            return Chunk::Unknown;
        }
        let ghost before = self@;
        proof {
            lemma_place(before.pending, origin@, request);
            lemma_buffered_remove(before.pending, at as int);
        }
        let held: usize = self.total();
        let fetch = self.pending.remove(at);
        assert(self@.pending =~= before.pending.remove(at as int));
        assert(fetch@ == before.pending[at as int]);
        let size: usize = data.len();
        let own: usize = fetch.bytes.len();
        if own > CLIP_MAX_TOTAL || size > CLIP_MAX_TOTAL - own || size > MAX_BUFFERED - held {
            return Chunk::TooLarge;
        }
        let PendingFetch { origin: from, request: number, bytes: mut joined } = fetch;
        let ghost start = joined@;
        for i in 0..data.len()
            invariant
                joined@ =~= start + data@.take(i as int),
        {
            joined.push(data[i]);
        }
        assert(data@.take(data@.len() as int) =~= data@);
        if last {
            Chunk::Complete(joined)
        } else {
            let ghost kept = self@.pending;
            self.pending.push(PendingFetch { origin: from, request: number, bytes: joined });
            proof {
                let grown = self.pending@.last()@;
                assert(grown == (Fetch {
                    bytes: start + data@,
                    ..before.pending[at as int]
                }));
                assert(self@.pending =~= kept.push(grown));
                assert(self@.pending.drop_last() =~= kept);
            }
            Chunk::Buffered
        }
    }

    /// A fetch ends without a result.
    pub fn abort(&mut self, origin: &MachineId, request: u64)
        requires
            old(self)@.wf(),
        ensures
            final(self)@.wf(),
            ({
                let before = old(self)@;
                let at = place(before.pending, origin@, request);
                final(self)@ == if at == before.pending.len() {
                    before
                } else {
                    TransfersView { pending: before.pending.remove(at), ..before }
                }
            }),
    {
        let at: usize = self.find(origin, request);
        if at == self.pending.len() {
            return ;
        }
        let ghost before = self@;
        proof {
            lemma_place(before.pending, origin@, request);
            lemma_buffered_remove(before.pending, at as int);
        }
        self.pending.remove(at);
        assert(self@.pending =~= before.pending.remove(at as int));
    }

    /// A machine's connection ended: its fetches end, and what it offered no longer stands.
    pub fn disconnect(&mut self, origin: &MachineId)
        requires
            old(self)@.wf(),
        ensures
            final(self)@.wf(),
            ({
                let before = old(self)@;
                let at = origin_place(before.origins, origin@);
                final(self)@ == (TransfersView {
                    origins: if at == before.origins.len() {
                        before.origins
                    } else {
                        before.origins.remove(at)
                    },
                    pending: others(before.pending, origin@),
                    ..before
                })
            }),
    {
        let ghost before = self@;
        let at: usize = self.find_origin(origin);
        if at < self.origins.len() {
            self.origins.remove(at);
            assert(self@.origins =~= before.origins.remove(at as int));
        }
        let mut kept: Vec<PendingFetch> = Vec::new();
        let ghost all = before.pending;
        let count: usize = self.pending.len();
        assert(all.skip(0) =~= all);
        assert(all.take(0) =~= Seq::empty());
        assert(fetches(kept@) =~= Seq::empty());
        let ghost origins = self@.origins;
        for i in 0..count
            invariant
                count == all.len(),
                before.wf(),
                before.pending == all,
                self@ == (TransfersView { origins, pending: all.skip(i as int), ..before }),
                fetches(kept@) == others(all.take(i as int), origin@),
                buffered(fetches(kept@)) <= buffered(all.take(i as int)),
                fetches(kept@).len() <= i,
        {
            assert(all.take(i + 1).drop_last() =~= all.take(i as int));
            assert(self@.pending.len() == self.pending@.len());
            let ghost rest = self@.pending;
            assert(self.pending@[0]@ == rest[0]);
            let fetch = self.pending.remove(0);
            assert(self@.pending =~= rest.skip(1));
            assert(self@.pending =~= all.skip(i + 1));
            if !fetch.origin.same(origin) {
                let ghost earlier = fetches(kept@);
                let ghost one = fetch@;
                kept.push(fetch);
                assert(fetches(kept@) =~= earlier.push(one));
                assert(fetches(kept@).drop_last() =~= earlier);
            }
        }
        assert(all.take(all.len() as int) =~= all);
        self.pending = kept;
    }

    /// The clipboard changed: every fetch ends, and no offer before stands.
    pub fn clear(&mut self)
        ensures
            final(self)@ == (TransfersView {
                generation: vstd::wrapping::u64_specs::wrapping_add(old(self)@.generation, 1),
                pending: Seq::empty(),
                ..old(self)@
            }),
            final(self)@.wf(),
    {
        self.generation = self.generation.wrapping_add(1);
        self.pending = Vec::new();
        assert(self@.pending =~= Seq::empty());
    }
}

/// The format is among those offered.
pub open spec fn offers(mimes: Seq<String>, mime: Seq<char>) -> bool {
    exists|i: int| 0 <= i < mimes.len() && (#[trigger] mimes[i])@ == mime
}

pub fn has_mime(mimes: &Vec<String>, mime: &String) -> (r: bool)
    ensures
        r == offers(mimes@, mime@),
{
    for i in 0..mimes.len()
        invariant
            forall|k: int| 0 <= k < i ==> (#[trigger] mimes@[k])@ != mime@,
    {
        if mimes[i] == *mime {
            assert(mimes@[i as int]@ == mime@);
            return true;
        }
    }
    false
}

proof fn lemma_buffered_grows(pending: Seq<Fetch>, n: int)
    requires
        0 <= n <= pending.len(),
    ensures
        0 <= buffered(pending.take(n)) <= buffered(pending),
    decreases pending.len(),
{
    if pending.len() == 0 {
        assert(pending.take(n) =~= pending);
    } else if n < pending.len() {
        lemma_buffered_grows(pending.drop_last(), n);
        assert(pending.drop_last().take(n) =~= pending.take(n));
    } else {
        assert(pending.take(n) =~= pending);
        lemma_buffered_grows(pending.drop_last(), n - 1);
    }
}

proof fn lemma_buffered_remove(pending: Seq<Fetch>, i: int)
    requires
        0 <= i < pending.len(),
    ensures
        buffered(pending.remove(i)) == buffered(pending) - pending[i].bytes.len(),
    decreases pending.len(),
{
    if i == pending.len() - 1 {
        assert(pending.remove(i) =~= pending.drop_last());
    } else {
        lemma_buffered_remove(pending.drop_last(), i);
        assert(pending.remove(i).drop_last() =~= pending.drop_last().remove(i));
        assert(pending.remove(i).last() == pending.last());
    }
}

/// Only the machine that was asked can answer: what another sends under the same number
/// reaches no fetch.
pub proof fn another_machine_answers_nothing(pending: Seq<Fetch>, origin: Seq<char>, request: u64)
    requires
        forall|i: int|
            0 <= i < pending.len() && (#[trigger] pending[i]).request == request
                ==> pending[i].origin != origin,
    ensures
        place(pending, origin, request) == pending.len(),
{
    lemma_place(pending, origin, request);
}

/// After a disconnection nothing waits for that machine, and all else waits on.
pub proof fn a_disconnection_ends_only_its_own_fetches(pending: Seq<Fetch>, origin: Seq<char>)
    ensures
        forall|i: int|
            0 <= i < others(pending, origin).len() ==> (#[trigger] others(
                pending,
                origin,
            )[i]).origin != origin,
        forall|i: int|
            0 <= i < pending.len() && (#[trigger] pending[i]).origin != origin ==> others(
                pending,
                origin,
            ).contains(pending[i]),
    decreases pending.len(),
{
    if pending.len() > 0 {
        let front = pending.drop_last();
        a_disconnection_ends_only_its_own_fetches(front, origin);
        let before = others(front, origin);
        let after = others(pending, origin);
        assert forall|i: int| 0 <= i < pending.len() && (
        #[trigger] pending[i]).origin != origin implies after.contains(pending[i]) by {
            if i < front.len() {
                assert(front[i] == pending[i]);
                let k = choose|k: int| 0 <= k < before.len() && before[k] == pending[i];
                assert(after[k] == pending[i]);
            } else {
                assert(after[after.len() - 1] == pending[i]);
            }
        }
    }
}

} // verus!
