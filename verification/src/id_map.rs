//! Values under numeric identities, in ascending order.

use vstd::prelude::*;

verus! {

/// Identities in strictly ascending order.
pub open spec fn ascending(ids: Seq<u128>) -> bool {
    forall|i: int, j: int| 0 <= i < j < ids.len() ==> (#[trigger] ids[i]) < (#[trigger] ids[j])
}

/// Lists the identities of a map.
pub open spec fn lists<V>(ids: Seq<u128>, map: Map<u128, V>) -> bool {
    ascending(ids) && forall|id: u128| #[trigger] ids.contains(id) == map.contains_key(id)
}

/// The identities of a map in ascending order.
pub open spec fn ids_of<V>(map: Map<u128, V>) -> Seq<u128> {
    choose|ids: Seq<u128>| lists(ids, map)
}

/// The identities whose values satisfy `keep`.
pub open spec fn picked<V>(ids: Seq<u128>, map: Map<u128, V>, keep: spec_fn(V) -> bool) -> Seq<u128>
    decreases ids.len(),
{
    if ids.len() == 0 {
        Seq::empty()
    } else if keep(map[ids.last()]) {
        picked(ids.drop_last(), map, keep).push(ids.last())
    } else {
        picked(ids.drop_last(), map, keep)
    }
}

/// How many values satisfy `keep`.
pub open spec fn count_of<V>(map: Map<u128, V>, keep: spec_fn(V) -> bool) -> nat {
    picked(ids_of(map), map, keep).len()
}

/// The values that satisfy `keep`, under their identities.
pub open spec fn kept<V>(map: Map<u128, V>, keep: spec_fn(V) -> bool) -> Map<u128, V> {
    map.restrict(map.dom().filter(|id: u128| keep(map[id])))
}

/// Without those of the listed values that are dropped.
pub open spec fn pruned<V>(map: Map<u128, V>, ids: Seq<u128>, drop: spec_fn(V) -> bool) -> Map<
    u128,
    V,
>
    decreases ids.len(),
{
    if ids.len() == 0 {
        map
    } else if drop(map[ids.last()]) {
        pruned(map, ids.drop_last(), drop).remove(ids.last())
    } else {
        pruned(map, ids.drop_last(), drop)
    }
}

/// The listed values changed.
pub open spec fn changed<V>(map: Map<u128, V>, ids: Seq<u128>, change: spec_fn(V) -> V) -> Map<
    u128,
    V,
>
    decreases ids.len(),
{
    if ids.len() == 0 {
        map
    } else {
        changed(map, ids.drop_last(), change).insert(ids.last(), change(map[ids.last()]))
    }
}

/// Every value changed alike.
pub open spec fn mapped<V>(map: Map<u128, V>, change: spec_fn(V) -> V) -> Map<u128, V> {
    map.map_values(change)
}

pub proof fn lemma_picked<V>(ids: Seq<u128>, map: Map<u128, V>, keep: spec_fn(V) -> bool)
    ensures
        picked(ids, map, keep).len() <= ids.len(),
        forall|id: u128| #[trigger]
            picked(ids, map, keep).contains(id) <==> ids.contains(id) && keep(map[id]),
        ascending(ids) ==> ascending(picked(ids, map, keep)),
    decreases ids.len(),
{
    if ids.len() > 0 {
        let front = ids.drop_last();
        lemma_picked(front, map, keep);
        let before = picked(front, map, keep);
        let after = picked(ids, map, keep);
        assert forall|id: u128| #[trigger] after.contains(id) <==> ids.contains(id) && keep(
            map[id],
        ) by {
            if ids.contains(id) {
                let i = choose|i: int| 0 <= i < ids.len() && ids[i] == id;
                if i < front.len() {
                    assert(front[i] == id);
                }
            }
            if front.contains(id) {
                let i = choose|i: int| 0 <= i < front.len() && front[i] == id;
                assert(ids[i] == id);
            }
            assert(ids[ids.len() - 1] == ids.last());
            if before.contains(id) {
                let i = choose|i: int| 0 <= i < before.len() && before[i] == id;
                assert(after[i] == id);
            }
            if keep(map[ids.last()]) {
                assert(after[after.len() - 1] == ids.last());
            }
            if after.contains(id) {
                let i = choose|i: int| 0 <= i < after.len() && after[i] == id;
                if i < before.len() {
                    assert(before[i] == id);
                }
            }
        }
        if ascending(ids) {
            assert(ascending(front)) by {
                assert forall|i: int, j: int| 0 <= i < j < front.len() implies (
                #[trigger] front[i]) < (#[trigger] front[j]) by {
                    assert(ids[i] < ids[j]);
                }
            }
            assert forall|i: int, j: int| 0 <= i < j < after.len() implies (#[trigger] after[i]) < (
            #[trigger] after[j]) by {
                if j < before.len() {
                    assert(before[i] < before[j]);
                } else {
                    assert(before.contains(before[i]));
                    let k = choose|k: int| 0 <= k < front.len() && front[k] == before[i];
                    assert(ids[k] < ids[ids.len() - 1]);
                }
            }
        }
    }
}

/// A map lists its identities in one way only.
pub proof fn lemma_one_listing(a: Seq<u128>, b: Seq<u128>)
    requires
        ascending(a),
        ascending(b),
        forall|id: u128| #[trigger] a.contains(id) == b.contains(id),
    ensures
        a == b,
    decreases a.len(),
{
    if a.len() == 0 {
        if b.len() > 0 {
            assert(b.contains(b[0]));
            assert(a.contains(b[0]));
        }
        assert(a =~= b);
    } else {
        assert(a.contains(a.last()));
        assert(b.contains(a.last()));
        let last = a.last();
        let j = choose|j: int| 0 <= j < b.len() && b[j] == last;
        assert(b.contains(b.last()));
        assert(a.contains(b.last()));
        let i = choose|i: int| 0 <= i < a.len() && a[i] == b.last();
        if i < a.len() - 1 {
            assert(a[i] < a[a.len() - 1]);
        }
        if j < b.len() - 1 {
            assert(b[j] < b[b.len() - 1]);
        }
        assert(b.last() == last);
        let af = a.drop_last();
        let bf = b.drop_last();
        assert(ascending(af)) by {
            assert forall|p: int, q: int| 0 <= p < q < af.len() implies (#[trigger] af[p]) < (
            #[trigger] af[q]) by {
                assert(a[p] < a[q]);
            }
        }
        assert(ascending(bf)) by {
            assert forall|p: int, q: int| 0 <= p < q < bf.len() implies (#[trigger] bf[p]) < (
            #[trigger] bf[q]) by {
                assert(b[p] < b[q]);
            }
        }
        assert forall|id: u128| #[trigger] af.contains(id) == bf.contains(id) by {
            if af.contains(id) {
                let p = choose|p: int| 0 <= p < af.len() && af[p] == id;
                assert(a[p] == id);
                assert(a[p] < a[a.len() - 1]);
                assert(a.contains(id));
                assert(b.contains(id));
                let q = choose|q: int| 0 <= q < b.len() && b[q] == id;
                assert(bf[q] == id);
            }
            if bf.contains(id) {
                let p = choose|p: int| 0 <= p < bf.len() && bf[p] == id;
                assert(b[p] == id);
                assert(b[p] < b[b.len() - 1]);
                assert(b.contains(id));
                assert(a.contains(id));
                let q = choose|q: int| 0 <= q < a.len() && a[q] == id;
                assert(af[q] == id);
            }
        }
        lemma_one_listing(af, bf);
        assert(a =~= af.push(last));
        assert(b =~= bf.push(last));
    }
}

proof fn lemma_not_before(ids: Seq<u128>, n: int)
    requires
        ascending(ids),
        0 <= n < ids.len(),
    ensures
        !ids.take(n).contains(ids[n]),
        ids.take(n + 1).drop_last() == ids.take(n),
        ids.take(n + 1).last() == ids[n],
{
    assert(ids.take(n + 1).drop_last() =~= ids.take(n));
    if ids.take(n).contains(ids[n]) {
        let k = choose|k: int| 0 <= k < n && ids.take(n)[k] == ids[n];
        assert(ids[k] < ids[n]);
    }
}

proof fn lemma_pruned<V>(map: Map<u128, V>, ids: Seq<u128>, drop: spec_fn(V) -> bool)
    ensures
        forall|id: u128| #[trigger]
            pruned(map, ids, drop).contains_key(id) <==> map.contains_key(id) && !(ids.contains(id)
                && drop(map[id])),
        forall|id: u128| #[trigger]
            pruned(map, ids, drop).contains_key(id) ==> pruned(map, ids, drop)[id] == map[id],
    decreases ids.len(),
{
    if ids.len() > 0 {
        let front = ids.drop_last();
        lemma_pruned(map, front, drop);
        let before = pruned(map, front, drop);
        let after = pruned(map, ids, drop);
        assert forall|id: u128| #[trigger] after.contains_key(id) implies after[id] == map[id] by {
            assert(before.contains_key(id));
        }
        assert forall|id: u128| #[trigger] after.contains_key(id) <==> map.contains_key(id) && !(
        ids.contains(id) && drop(map[id])) by {
            assert(before.contains_key(id) <==> map.contains_key(id) && !(front.contains(id)
                && drop(map[id])));
            if front.contains(id) {
                let i = choose|i: int| 0 <= i < front.len() && front[i] == id;
                assert(ids[i] == id);
            }
            if ids.contains(id) {
                let i = choose|i: int| 0 <= i < ids.len() && ids[i] == id;
                if i < front.len() {
                    assert(front[i] == id);
                }
            }
            assert(ids[ids.len() - 1] == ids.last());
        }
    }
}

/// One step of pruning.
pub proof fn lemma_prune_step<V>(
    map: Map<u128, V>,
    ids: Seq<u128>,
    n: int,
    drop: spec_fn(V) -> bool,
)
    requires
        lists(ids, map),
        0 <= n < ids.len(),
    ensures
        pruned(map, ids.take(n), drop).contains_key(ids[n]),
        pruned(map, ids.take(n), drop)[ids[n]] == map[ids[n]],
        pruned(map, ids.take(n + 1), drop) == if drop(map[ids[n]]) {
            pruned(map, ids.take(n), drop).remove(ids[n])
        } else {
            pruned(map, ids.take(n), drop)
        },
{
    lemma_not_before(ids, n);
    lemma_pruned(map, ids.take(n), drop);
    assert(ids.contains(ids[n]));
}

/// Pruning all leaves what is kept.
pub proof fn lemma_prune_all<V>(map: Map<u128, V>, ids: Seq<u128>, keep: spec_fn(V) -> bool)
    requires
        lists(ids, map),
    ensures
        pruned(map, ids.take(ids.len() as int), |v: V| !keep(v)) == kept(map, keep),
{
    assert(ids.take(ids.len() as int) =~= ids);
    lemma_pruned(map, ids, |v: V| !keep(v));
    let a = pruned(map, ids, |v: V| !keep(v));
    let b = kept(map, keep);
    assert forall|id: u128| #[trigger] a.contains_key(id) == b.contains_key(id) by {
        assert(ids.contains(id) == map.contains_key(id));
    }
    assert(a =~= b);
}

proof fn lemma_changed<V>(map: Map<u128, V>, ids: Seq<u128>, change: spec_fn(V) -> V)
    requires
        forall|i: int| 0 <= i < ids.len() ==> map.contains_key(#[trigger] ids[i]),
    ensures
        forall|id: u128| #[trigger]
            changed(map, ids, change).contains_key(id) <==> map.contains_key(id),
        forall|id: u128| #[trigger]
            map.contains_key(id) ==> changed(map, ids, change)[id] == if ids.contains(id) {
                change(map[id])
            } else {
                map[id]
            },
    decreases ids.len(),
{
    if ids.len() > 0 {
        let front = ids.drop_last();
        assert forall|i: int| 0 <= i < front.len() implies map.contains_key(
            #[trigger] front[i],
        ) by {
            assert(map.contains_key(ids[i]));
        }
        lemma_changed(map, front, change);
        assert(map.contains_key(ids[ids.len() - 1]));
        let after = changed(map, ids, change);
        assert forall|id: u128| #[trigger] map.contains_key(id) implies after[id]
            == if ids.contains(id) {
            change(map[id])
        } else {
            map[id]
        } by {
            if front.contains(id) {
                let i = choose|i: int| 0 <= i < front.len() && front[i] == id;
                assert(ids[i] == id);
            }
            if ids.contains(id) {
                let i = choose|i: int| 0 <= i < ids.len() && ids[i] == id;
                if i < front.len() {
                    assert(front[i] == id);
                }
            }
            assert(ids[ids.len() - 1] == ids.last());
        }
    }
}

/// One step of changing.
pub proof fn lemma_change_step<V>(
    map: Map<u128, V>,
    ids: Seq<u128>,
    n: int,
    change: spec_fn(V) -> V,
)
    requires
        lists(ids, map),
        0 <= n < ids.len(),
    ensures
        changed(map, ids.take(n), change).contains_key(ids[n]),
        changed(map, ids.take(n), change)[ids[n]] == map[ids[n]],
        changed(map, ids.take(n + 1), change) == changed(map, ids.take(n), change).insert(
            ids[n],
            change(map[ids[n]]),
        ),
{
    lemma_not_before(ids, n);
    assert(ids.contains(ids[n]));
    assert forall|i: int| 0 <= i < n implies map.contains_key(#[trigger] ids.take(n)[i]) by {
        assert(ids.contains(ids[i]));
    }
    lemma_changed(map, ids.take(n), change);
}

/// Changing all is changing every value alike.
pub proof fn lemma_change_all<V>(map: Map<u128, V>, ids: Seq<u128>, change: spec_fn(V) -> V)
    requires
        lists(ids, map),
    ensures
        changed(map, ids.take(ids.len() as int), change) == mapped(map, change),
{
    assert(ids.take(ids.len() as int) =~= ids);
    assert forall|i: int| 0 <= i < ids.len() implies map.contains_key(#[trigger] ids[i]) by {
        assert(ids.contains(ids[i]));
    }
    lemma_changed(map, ids, change);
    let a = changed(map, ids, change);
    let b = mapped(map, change);
    assert forall|id: u128| #[trigger] a.contains_key(id) implies a[id] == b[id] by {
        assert(ids.contains(id) == map.contains_key(id));
    }
    assert(a =~= b);
}

/// One step of picking.
pub proof fn lemma_pick_step<V>(
    map: Map<u128, V>,
    ids: Seq<u128>,
    n: int,
    keep: spec_fn(V) -> bool,
)
    requires
        0 <= n < ids.len(),
    ensures
        picked(ids.take(n + 1), map, keep) == if keep(map[ids[n]]) {
            picked(ids.take(n), map, keep).push(ids[n])
        } else {
            picked(ids.take(n), map, keep)
        },
{
    assert(ids.take(n + 1).drop_last() =~= ids.take(n));
}

#[derive(Debug)]
pub struct IdMap<V> {
    ids: Vec<u128>,
    values: Vec<V>,
}

/// Values under identities.
pub open spec fn table<V>(ids: Seq<u128>, values: Seq<V>) -> Map<u128, V>
    decreases ids.len(),
{
    if ids.len() == 0 || values.len() == 0 {
        Map::empty()
    } else {
        table(ids.drop_last(), values.drop_last()).insert(ids.last(), values.last())
    }
}

proof fn lemma_table<V>(ids: Seq<u128>, values: Seq<V>)
    requires
        ids.len() == values.len(),
        ascending(ids),
    ensures
        table(ids, values).dom().finite(),
        table(ids, values).dom().len() == ids.len(),
        forall|i: int|
            0 <= i < ids.len() ==> table(ids, values).contains_key(#[trigger] ids[i]) && table(
                ids,
                values,
            )[ids[i]] == values[i],
        forall|id: u128| #[trigger] table(ids, values).contains_key(id) == ids.contains(id),
    decreases ids.len(),
{
    if ids.len() > 0 {
        let front = ids.drop_last();
        assert(ascending(front)) by {
            assert forall|i: int, j: int| 0 <= i < j < front.len() implies (#[trigger] front[i]) < (
            #[trigger] front[j]) by {
                assert(ids[i] < ids[j]);
            }
        }
        lemma_table(front, values.drop_last());
        let before = table(front, values.drop_last());
        let after = table(ids, values);
        assert(!before.contains_key(ids.last())) by {
            if front.contains(ids.last()) {
                let i = choose|i: int| 0 <= i < front.len() && front[i] == ids.last();
                assert(ids[i] < ids[ids.len() - 1]);
            }
        }
        assert forall|i: int| 0 <= i < ids.len() implies after.contains_key(#[trigger] ids[i])
            && after[ids[i]] == values[i] by {
            if i < front.len() {
                assert(front[i] == ids[i]);
                assert(ids[i] < ids[ids.len() - 1]);
                assert(values.drop_last()[i] == values[i]);
            }
        }
        assert forall|id: u128| #[trigger] after.contains_key(id) == ids.contains(id) by {
            if ids.contains(id) {
                let i = choose|i: int| 0 <= i < ids.len() && ids[i] == id;
                assert(after.contains_key(ids[i]));
            }
            if before.contains_key(id) {
                let i = choose|i: int| 0 <= i < front.len() && front[i] == id;
                assert(ids[i] == id);
            }
            assert(ids[ids.len() - 1] == ids.last());
        }
    }
}

proof fn lemma_inserted<V>(ids: Seq<u128>, values: Seq<V>, at: int, id: u128, value: V)
    requires
        ids.len() == values.len(),
        ascending(ids),
        0 <= at <= ids.len(),
        forall|i: int| 0 <= i < at ==> (#[trigger] ids[i]) < id,
        forall|i: int| at <= i < ids.len() ==> (#[trigger] ids[i]) > id,
    ensures
        ascending(ids.insert(at, id)),
        table(ids.insert(at, id), values.insert(at, value)) == table(ids, values).insert(id, value),
{
    let after = ids.insert(at, id);
    let moved = values.insert(at, value);
    assert forall|i: int, j: int| 0 <= i < j < after.len() implies (#[trigger] after[i]) < (
    #[trigger] after[j]) by {
        let p = if i < at {
            i
        } else {
            i - 1
        };
        let q = if j < at {
            j
        } else {
            j - 1
        };
        if i != at && j != at {
            assert(ids[p] < ids[q]);
        } else if i == at {
            assert(ids[q] > id);
        } else {
            assert(ids[p] < id);
        }
    }
    lemma_table(ids, values);
    lemma_table(after, moved);
    let goal = table(ids, values).insert(id, value);
    assert forall|k: u128| #[trigger] table(after, moved).contains_key(k) == goal.contains_key(
        k,
    ) by {
        if after.contains(k) && k != id {
            let i = choose|i: int| 0 <= i < after.len() && after[i] == k;
            let p = if i < at {
                i
            } else {
                i - 1
            };
            assert(ids[p] == k);
        }
        if ids.contains(k) {
            let i = choose|i: int| 0 <= i < ids.len() && ids[i] == k;
            let p = if i < at {
                i
            } else {
                i + 1
            };
            assert(after[p] == k);
        }
        assert(after[at] == id);
    }
    assert forall|k: u128| #[trigger] table(after, moved).contains_key(k) implies table(
        after,
        moved,
    )[k] == goal[k] by {
        let i = choose|i: int| 0 <= i < after.len() && after[i] == k;
        let p = if i < at {
            i
        } else {
            i - 1
        };
        if i != at {
            assert(ids[p] == k);
            assert(values[p] == moved[i]);
        }
    }
    assert(table(after, moved) =~= goal);
}

proof fn lemma_removed<V>(ids: Seq<u128>, values: Seq<V>, at: int)
    requires
        ids.len() == values.len(),
        ascending(ids),
        0 <= at < ids.len(),
    ensures
        ascending(ids.remove(at)),
        table(ids.remove(at), values.remove(at)) == table(ids, values).remove(ids[at]),
{
    let after = ids.remove(at);
    let moved = values.remove(at);
    assert forall|i: int, j: int| 0 <= i < j < after.len() implies (#[trigger] after[i]) < (
    #[trigger] after[j]) by {
        let p = if i < at {
            i
        } else {
            i + 1
        };
        let q = if j < at {
            j
        } else {
            j + 1
        };
        assert(ids[p] < ids[q]);
    }
    lemma_table(ids, values);
    lemma_table(after, moved);
    let goal = table(ids, values).remove(ids[at]);
    assert forall|k: u128| #[trigger] table(after, moved).contains_key(k) == goal.contains_key(
        k,
    ) by {
        if after.contains(k) {
            let i = choose|i: int| 0 <= i < after.len() && after[i] == k;
            let p = if i < at {
                i
            } else {
                i + 1
            };
            assert(ids[p] == k);
            if p < at {
                assert(ids[p] < ids[at]);
            } else {
                assert(ids[at] < ids[p]);
            }
        }
        if ids.contains(k) && k != ids[at] {
            let i = choose|i: int| 0 <= i < ids.len() && ids[i] == k;
            let p = if i < at {
                i
            } else {
                i - 1
            };
            assert(after[p] == k);
        }
    }
    assert forall|k: u128| #[trigger] table(after, moved).contains_key(k) implies table(
        after,
        moved,
    )[k] == goal[k] by {
        let i = choose|i: int| 0 <= i < after.len() && after[i] == k;
        let p = if i < at {
            i
        } else {
            i + 1
        };
        assert(ids[p] == k);
        assert(values[p] == moved[i]);
    }
    assert(table(after, moved) =~= goal);
}

proof fn lemma_updated<V>(ids: Seq<u128>, values: Seq<V>, at: int, value: V)
    requires
        ids.len() == values.len(),
        ascending(ids),
        0 <= at < ids.len(),
    ensures
        table(ids, values.update(at, value)) == table(ids, values).insert(ids[at], value),
{
    let moved = values.update(at, value);
    let goal = table(ids, values).insert(ids[at], value);
    lemma_table(ids, values);
    lemma_table(ids, moved);
    assert(ids.contains(ids[at]));
    assert forall|k: u128| #[trigger] table(ids, moved).contains_key(k) implies table(
        ids,
        moved,
    )[k] == goal[k] by {
        let i = choose|i: int| 0 <= i < ids.len() && ids[i] == k;
        if i < at {
            assert(ids[i] < ids[at]);
        } else if i > at {
            assert(ids[at] < ids[i]);
        }
    }
    assert(table(ids, moved) =~= goal);
}

impl<V> View for IdMap<V> {
    type V = Map<u128, V>;

    closed spec fn view(&self) -> Map<u128, V> {
        table(self.ids@, self.values@)
    }
}

impl<V> IdMap<V> {
    pub closed spec fn wf(&self) -> bool {
        &&& self.ids@.len() == self.values@.len()
        &&& ascending(self.ids@)
    }

    /// The identities in ascending order.
    pub closed spec fn listing(&self) -> Seq<u128> {
        self.ids@
    }

    pub proof fn lemma_listing(&self)
        requires
            self.wf(),
        ensures
            self.listing() == ids_of(self@),
            lists(self.listing(), self@),
            self@.dom().finite(),
            self@.len() == self.listing().len(),
            forall|i: int|
                0 <= i < self.listing().len() ==> self@.contains_key(
                    #[trigger] self.listing()[i],
                ),
            forall|i: int, j: int|
                0 <= i < j < self.listing().len() ==> (#[trigger] self.listing()[i]) < (
                #[trigger] self.listing()[j]),
    {
        lemma_table(self.ids@, self.values@);
        assert(lists(self.ids@, self@));
        let other = ids_of(self@);
        assert forall|id: u128| #[trigger] self.ids@.contains(id) == other.contains(id) by {
            assert(self.ids@.contains(id) == self@.contains_key(id));
        }
        lemma_one_listing(self.ids@, other);
    }

    pub fn new() -> (r: Self)
        ensures
            r.wf(),
            r@ == Map::<u128, V>::empty(),
    {
        IdMap { ids: Vec::new(), values: Vec::new() }
    }

    pub fn len(&self) -> (r: usize)
        requires
            self.wf(),
        ensures
            r == self@.len(),
            r == self.listing().len(),
    {
        proof {
            self.lemma_listing();
        }
        self.ids.len()
    }

    /// The identities in ascending order.
    pub fn all_ids(&self) -> (r: Vec<u128>)
        requires
            self.wf(),
        ensures
            r@ == ids_of(self@),
            lists(r@, self@),
    {
        let mut out: Vec<u128> = Vec::new();
        proof {
            self.lemma_listing();
        }
        for i in 0..self.ids.len()
            invariant
                out@ =~= self.ids@.take(i as int),
        {
            out.push(self.ids[i]);
        }
        assert(self.ids@.take(self.ids@.len() as int) =~= self.ids@);
        out
    }

    fn place(&self, id: u128) -> (r: usize)
        requires
            self.wf(),
        ensures
            r <= self.ids@.len(),
            forall|i: int| 0 <= i < r ==> (#[trigger] self.ids@[i]) < id,
            forall|i: int| r <= i < self.ids@.len() ==> (#[trigger] self.ids@[i]) >= id,
    {
        let mut at: usize = 0;
        while at < self.ids.len() && self.ids[at] < id
            invariant
                self.wf(),
                at <= self.ids@.len(),
                forall|i: int| 0 <= i < at ==> (#[trigger] self.ids@[i]) < id,
            ensures
                self.wf(),
                at <= self.ids@.len(),
                forall|i: int| 0 <= i < at ==> (#[trigger] self.ids@[i]) < id,
                at < self.ids@.len() ==> self.ids@[at as int] >= id,
            decreases self.ids@.len() - at,
        {
            at = at + 1;
        }
        proof {
            assert forall|i: int| at <= i < self.ids@.len() implies (#[trigger] self.ids@[i])
                >= id by {
                if i > at {
                    assert(self.ids@[at as int] < self.ids@[i]);
                }
            }
        }
        at
    }

    pub fn get(&self, id: u128) -> (r: Option<&V>)
        requires
            self.wf(),
        ensures
            match r {
                Some(v) => self@.contains_key(id) && *v == self@[id],
                None => !self@.contains_key(id),
            },
    {
        let at: usize = self.place(id);
        proof {
            lemma_table(self.ids@, self.values@);
            if self.ids@.contains(id) {
                let i = choose|i: int| 0 <= i < self.ids@.len() && self.ids@[i] == id;
                assert(i >= at);
                if i > at {
                    assert(self.ids@[at as int] < self.ids@[i]);
                }
            }
        }
        if at < self.ids.len() && self.ids[at] == id {
            assert(self.ids@[at as int] == id);
            Some(&self.values[at])
        } else {
            None
        }
    }

    pub fn get_mut(&mut self, id: u128) -> (r: Option<&mut V>)
        requires
            old(self).wf(),
        ensures
            final(self).wf(),
            match r {
                Some(v) => old(self)@.contains_key(id) && *v == old(self)@[id] && final(self)@
                    == old(self)@.insert(id, *final(v)),
                None => !old(self)@.contains_key(id) && final(self)@ == old(self)@,
            },
    {
        let at: usize = self.place(id);
        let ghost ids = self.ids@;
        let ghost values = self.values@;
        proof {
            lemma_table(ids, values);
            if ids.contains(id) {
                let i = choose|i: int| 0 <= i < ids.len() && ids[i] == id;
                assert(i >= at);
                if i > at {
                    assert(ids[at as int] < ids[i]);
                }
            }
        }
        if at < self.ids.len() && self.ids[at] == id {
            proof {
                assert forall|x: V| #[trigger] table(ids, values.update(at as int, x)) == table(
                    ids,
                    values,
                ).insert(id, x) by {
                    lemma_updated(ids, values, at as int, x);
                }
            }
            Some(&mut self.values[at])
        } else {
            None
        }
    }

    pub fn contains(&self, id: u128) -> (r: bool)
        requires
            self.wf(),
        ensures
            r == self@.contains_key(id),
    {
        self.get(id).is_some()
    }

    pub fn insert(&mut self, id: u128, value: V)
        requires
            old(self).wf(),
        ensures
            final(self).wf(),
            final(self)@ == old(self)@.insert(id, value),
    {
        let at: usize = self.place(id);
        let ghost ids = self.ids@;
        let ghost values = self.values@;
        proof {
            lemma_table(ids, values);
        }
        if at < self.ids.len() && self.ids[at] == id {
            self.values.set(at, value);
            proof {
                lemma_updated(ids, values, at as int, value);
            }
        } else {
            proof {
                assert forall|i: int| at <= i < ids.len() implies (#[trigger] ids[i]) > id by {
                    if i > at {
                        assert(ids[at as int] < ids[i]);
                    }
                }
            }
            self.ids.insert(at, id);
            self.values.insert(at, value);
            proof {
                assert(self.ids@ =~= ids.insert(at as int, id));
                assert(self.values@ =~= values.insert(at as int, value));
                lemma_inserted(ids, values, at as int, id, value);
            }
        }
    }

    /// Takes a value out.
    pub fn remove(&mut self, id: u128) -> (r: Option<V>)
        requires
            old(self).wf(),
        ensures
            final(self).wf(),
            final(self)@ == old(self)@.remove(id),
            r == if old(self)@.contains_key(id) {
                Some(old(self)@[id])
            } else {
                None::<V>
            },
    {
        let at: usize = self.place(id);
        let ghost ids = self.ids@;
        let ghost values = self.values@;
        proof {
            lemma_table(ids, values);
            if ids.contains(id) {
                let i = choose|i: int| 0 <= i < ids.len() && ids[i] == id;
                assert(i >= at);
                if i > at {
                    assert(ids[at as int] < ids[i]);
                }
            }
        }
        if at < self.ids.len() && self.ids[at] == id {
            assert(ids[at as int] == id);
            self.ids.remove(at);
            let value = self.values.remove(at);
            proof {
                lemma_removed(ids, values, at as int);
            }
            Some(value)
        } else {
            assert(self@ =~= old(self)@.remove(id));
            None
        }
    }

    pub fn clear(&mut self)
        ensures
            final(self).wf(),
            final(self)@ == Map::<u128, V>::empty(),
    {
        self.ids = Vec::new();
        self.values = Vec::new();
    }
}

} // verus!
