//! Seams between bodies, and the clusters that seams join them into.

use crate::arrange::bounds::{bounded, larger, smaller, solid, Body, Bounds, Rules, Span, REACH};
use crate::arrange::place::{all_bounded, indices_within, least_seam, shapes};
use crate::geometry::EdgeSide;
use vstd::prelude::*;

verus! {

/// Shared boundary segment between two bodies, in canvas coordinates.
#[derive(Clone, Copy, Debug, PartialEq, Eq)]
pub struct SeamSegment {
    pub a: usize,
    pub b: usize,
    pub from: (i64, i64),
    pub to: (i64, i64),
}

/// The side of `rect` that lies on the line of the facing side of `other`.
pub open spec fn level_side(rect: Bounds, other: Bounds) -> Option<EdgeSide> {
    if rect.right == other.left {
        Some(EdgeSide::Right)
    } else if rect.left == other.right {
        Some(EdgeSide::Left)
    } else if rect.bottom == other.top {
        Some(EdgeSide::Bottom)
    } else if rect.top == other.bottom {
        Some(EdgeSide::Top)
    } else {
        None
    }
}

pub open spec fn coordinate(rect: Bounds, side: EdgeSide) -> i64 {
    match side {
        EdgeSide::Left => rect.left,
        EdgeSide::Right => rect.right,
        EdgeSide::Top => rect.top,
        EdgeSide::Bottom => rect.bottom,
    }
}

/// The boundary `rect` and `other` share: the side of `rect`, where it lies, and its extent.
pub open spec fn shared_edge_of(rect: Bounds, other: Bounds) -> Option<(EdgeSide, i64, Span)> {
    match level_side(rect, other) {
        Some(side) => {
            let span = rect.along(side).common(other.along(side));
            if span.length() > 0 {
                Some((side, coordinate(rect, side), span))
            } else {
                None
            }
        },
        None => None,
    }
}

/// The side of `rect` sharing a legal seam with `other`.
pub open spec fn seam_side_of(rect: Bounds, other: Bounds, rules: Rules) -> Option<EdgeSide> {
    match shared_edge_of(rect, other) {
        Some((side, _, span)) => if span.length() >= least_seam(
            rules,
            rect.along(side),
            other.along(side),
        ) {
            Some(side)
        } else {
            None
        },
        None => None,
    }
}

/// Two shapes share a seam long enough under `rules`.
pub open spec fn touches(a: Seq<Bounds>, b: Seq<Bounds>, rules: Rules) -> bool {
    exists|i: int, j: int|
        0 <= i < a.len() && 0 <= j < b.len() && seam_side_of(
            #[trigger] a[i],
            #[trigger] b[j],
            rules,
        ) is Some
}

pub fn shared_edge(rect: Bounds, other: Bounds) -> (r: Option<(EdgeSide, i64, Span)>)
    requires
        rect.bounded(REACH as int),
        other.bounded(REACH as int),
    ensures
        r == shared_edge_of(rect, other),
{
    let side = if rect.right == other.left {
        EdgeSide::Right
    } else if rect.left == other.right {
        EdgeSide::Left
    } else if rect.bottom == other.top {
        EdgeSide::Bottom
    } else if rect.top == other.bottom {
        EdgeSide::Top
    } else {
        return None;
    };
    let at: i64 = match side {
        EdgeSide::Left => rect.left,
        EdgeSide::Right => rect.right,
        EdgeSide::Top => rect.top,
        EdgeSide::Bottom => rect.bottom,
    };
    let (_, rect_along) = rect.spans(side);
    let (_, other_along) = other.spans(side);
    match rect_along.overlap(other_along) {
        Some(span) => Some((side, at, span)),
        None => None,
    }
}

/// The side of `rect` sharing a legal seam with `other`, if any.
pub fn seam_side(rect: Bounds, other: Bounds, rules: &Rules) -> (r: Option<EdgeSide>)
    requires
        rect.bounded(REACH as int),
        other.bounded(REACH as int),
    ensures
        r == seam_side_of(rect, other, *rules),
{
    let (side, span) = match shared_edge(rect, other) {
        Some((side, _, span)) => (side, span),
        None => return None,
    };
    let (_, rect_along) = rect.spans(side);
    let (_, other_along) = other.spans(side);
    let least: i64 = larger(
        smaller(smaller(rules.min_seam, rect_along.len()), other_along.len()),
        1,
    );
    if span.len() >= least {
        Some(side)
    } else {
        None
    }
}

/// Do two bodies share a seam long enough under `rules`?
pub fn touching(a: &Body, b: &Body, rules: &Rules) -> (r: bool)
    requires
        bounded(a@, REACH as int),
        bounded(b@, REACH as int),
    ensures
        r == touches(a@, b@, *rules),
{
    for i in 0..a.rects.len()
        invariant
            bounded(a@, REACH as int),
            bounded(b@, REACH as int),
            forall|p: int, q: int|
                0 <= p < i && 0 <= q < b@.len() ==> seam_side_of(
                    #[trigger] a@[p],
                    #[trigger] b@[q],
                    *rules,
                ) is None,
    {
        for j in 0..b.rects.len()
            invariant
                i < a@.len(),
                bounded(a@, REACH as int),
                bounded(b@, REACH as int),
                forall|p: int, q: int|
                    0 <= p < i && 0 <= q < b@.len() ==> seam_side_of(
                        #[trigger] a@[p],
                        #[trigger] b@[q],
                        *rules,
                    ) is None,
                forall|q: int|
                    0 <= q < j ==> seam_side_of(a@[i as int], #[trigger] b@[q], *rules) is None,
        {
            assert(a@[i as int].bounded(REACH as int));
            assert(b@[j as int].bounded(REACH as int));
            if seam_side(a.rects[i], b.rects[j], rules).is_some() {
                assert(seam_side_of(a@[i as int], b@[j as int], *rules) is Some);
                return true;
            }
        }
    }
    false
}

/// The side of `body` resting against any of `others` along a legal seam, if any: that of
/// its first resting rectangle, against the first rectangle of the others it rests on.
pub fn resting_side(body: &Body, others: &[Body], rules: &Rules) -> (r: Option<EdgeSide>)
    requires
        bounded(body@, REACH as int),
        all_bounded(shapes(others@), REACH as int),
    ensures
        r is None <==> forall|i: int, k: int, j: int|
            0 <= i < body@.len() && 0 <= k < others@.len() && 0 <= j < others@[k]@.len()
                ==> seam_side_of(#[trigger] body@[i], #[trigger] others@[k]@[j], *rules) is None,
        r matches Some(side) ==> exists|i: int, k: int, j: int|
            0 <= i < body@.len() && 0 <= k < others@.len() && 0 <= j < others@[k]@.len()
                && seam_side_of(#[trigger] body@[i], #[trigger] others@[k]@[j], *rules) == Some(side)
                && forall|p: int, m: int, q: int|
                0 <= p < body@.len() && 0 <= m < others@.len() && 0 <= q < others@[m]@.len() && (p < i
                    || (p == i && (m < k || (m == k && q < j)))) ==> seam_side_of(
                    #[trigger] body@[p],
                    #[trigger] others@[m]@[q],
                    *rules,
                ) is None,
{
    for i in 0..body.rects.len()
        invariant
            bounded(body@, REACH as int),
            all_bounded(shapes(others@), REACH as int),
            forall|p: int, m: int, q: int|
                0 <= p < i && 0 <= m < others@.len() && 0 <= q < others@[m]@.len() ==> seam_side_of(
                    #[trigger] body@[p],
                    #[trigger] others@[m]@[q],
                    *rules,
                ) is None,
    {
        for k in 0..others.len()
            invariant
                i < body@.len(),
                bounded(body@, REACH as int),
                all_bounded(shapes(others@), REACH as int),
                forall|p: int, m: int, q: int|
                    0 <= p < body@.len() && 0 <= m < others@.len() && 0 <= q < others@[m]@.len() && (p
                        < i || (p == i && m < k)) ==> seam_side_of(
                        #[trigger] body@[p],
                        #[trigger] others@[m]@[q],
                        *rules,
                    ) is None,
        {
            let other = &others[k];
            for j in 0..other.rects.len()
                invariant
                    i < body@.len(),
                    k < others@.len(),
                    *other == others@[k as int],
                    bounded(body@, REACH as int),
                    all_bounded(shapes(others@), REACH as int),
                    forall|p: int, m: int, q: int|
                        0 <= p < body@.len() && 0 <= m < others@.len() && 0 <= q
                            < others@[m]@.len() && (p < i || (p == i && (m < k || (m == k && q
                            < j)))) ==> seam_side_of(
                            #[trigger] body@[p],
                            #[trigger] others@[m]@[q],
                            *rules,
                        ) is None,
            {
                assert(body@[i as int].bounded(REACH as int));
                assert(bounded(shapes(others@)[k as int], REACH as int));
                assert(others@[k as int]@[j as int].bounded(REACH as int));
                let found = seam_side(body.rects[i], other.rects[j], rules);
                if found.is_some() {
                    assert(seam_side_of(body@[i as int], others@[k as int]@[j as int], *rules)
                        == found);
                    return found;
                }
            }
        }
    }
    None
}

// ---- clusters ----

/// Lists of indices as sequences.
pub open spec fn lists(clusters: Seq<Vec<usize>>) -> Seq<Seq<usize>> {
    Seq::new(clusters.len(), |i: int| clusters[i]@)
}

/// A cluster while it grows, and which bodies belong to a cluster already.
pub ghost struct Growth {
    pub assigned: Seq<bool>,
    pub cluster: Seq<usize>,
}

/// `candidate` joins a growing cluster through `current`.
pub open spec fn joins(
    all: Seq<Seq<Bounds>>,
    rules: Rules,
    g: Growth,
    current: usize,
    candidate: usize,
) -> bool {
    !g.assigned[candidate as int] && all[candidate as int].len() > 0 && touches(
        all[current as int],
        all[candidate as int],
        rules,
    )
}

/// The cluster after the first `n` members were held against `current`.
pub open spec fn absorb(
    all: Seq<Seq<Bounds>>,
    members: Seq<usize>,
    rules: Rules,
    current: usize,
    g: Growth,
    n: nat,
) -> Growth
    decreases n,
{
    if n == 0 {
        g
    } else {
        let before = absorb(all, members, rules, current, g, (n - 1) as nat);
        let candidate = members[n - 1];
        if joins(all, rules, before, current, candidate) {
            Growth {
                assigned: before.assigned.update(candidate as int, true),
                cluster: before.cluster.push(candidate),
            }
        } else {
            before
        }
    }
}

/// The cluster after its members from `cursor` on, at most `fuel` of them, took in what
/// they touch.
pub open spec fn grow(
    all: Seq<Seq<Bounds>>,
    members: Seq<usize>,
    rules: Rules,
    g: Growth,
    cursor: nat,
    fuel: nat,
) -> Growth
    decreases fuel,
{
    if fuel == 0 || cursor >= g.cluster.len() {
        g
    } else {
        grow(
            all,
            members,
            rules,
            absorb(all, members, rules, g.cluster[cursor as int], g, members.len()),
            cursor + 1,
            (fuel - 1) as nat,
        )
    }
}

pub ghost struct Clustering {
    pub assigned: Seq<bool>,
    pub clusters: Seq<Seq<usize>>,
}

/// Clusters seeded by the first `n` members.
pub open spec fn clustering(
    all: Seq<Seq<Bounds>>,
    members: Seq<usize>,
    rules: Rules,
    n: nat,
) -> Clustering
    decreases n,
{
    if n == 0 {
        Clustering { assigned: Seq::new(all.len(), |i: int| false), clusters: Seq::empty() }
    } else {
        let before = clustering(all, members, rules, (n - 1) as nat);
        let seed = members[n - 1];
        if before.assigned[seed as int] || all[seed as int].len() == 0 {
            before
        } else {
            let grown = grow(
                all,
                members,
                rules,
                Growth {
                    assigned: before.assigned.update(seed as int, true),
                    cluster: seq![seed],
                },
                0,
                all.len(),
            );
            Clustering {
                assigned: grown.assigned,
                clusters: before.clusters.push(grown.cluster),
            }
        }
    }
}

/// Connected clusters of the given members: each member that is not in a cluster yet
/// starts one, which takes in, breadth first, whatever touches one of its members.
pub open spec fn clusters_of(
    all: Seq<Seq<Bounds>>,
    members: Seq<usize>,
    rules: Rules,
) -> Seq<Seq<usize>> {
    clustering(all, members, rules, members.len()).clusters
}

/// Every index up to `n`, in order.
pub open spec fn first_indices(n: nat) -> Seq<usize> {
    Seq::new(n, |i: int| i as usize)
}

/// Every index of a list at most once.
pub open spec fn distinct(list: Seq<usize>) -> bool {
    forall|i: int, j: int|
        0 <= i < list.len() && 0 <= j < list.len() && i != j ==> #[trigger] list[i]
            != #[trigger] list[j]
}

/// Every index at most once over all the lists.
pub open spec fn disjoint(clusters: Seq<Seq<usize>>) -> bool {
    &&& forall|c: int| 0 <= c < clusters.len() ==> distinct(#[trigger] clusters[c])
    &&& forall|c: int, d: int, i: int, j: int|
        0 <= c < clusters.len() && 0 <= d < clusters.len() && c != d && 0 <= i < clusters[c].len()
            && 0 <= j < clusters[d].len() ==> #[trigger] clusters[c][i] != #[trigger] clusters[d][j]
}

/// What holds of a cluster while it grows from a set of bodies that were taken before.
pub open spec fn growing(
    all: Seq<Seq<Bounds>>,
    members: Seq<usize>,
    taken: Seq<bool>,
    g: Growth,
) -> bool {
    &&& g.assigned.len() == all.len()
    &&& taken.len() == all.len()
    &&& distinct(g.cluster)
    &&& g.cluster.len() > 0
    &&& forall|i: int|
        0 <= i < g.cluster.len() ==> (#[trigger] g.cluster[i]) < all.len() && members.contains(
            g.cluster[i],
        ) && all[g.cluster[i] as int].len() > 0 && !taken[g.cluster[i] as int]
            && g.assigned[g.cluster[i] as int]
    &&& forall|b: int|
        0 <= b < all.len() && #[trigger] g.assigned[b] ==> taken[b] || g.cluster.contains(
            b as usize,
        )
    &&& forall|b: int| 0 <= b < all.len() && #[trigger] taken[b] ==> g.assigned[b]
}

proof fn lemma_absorb(
    all: Seq<Seq<Bounds>>,
    members: Seq<usize>,
    rules: Rules,
    taken: Seq<bool>,
    current: usize,
    g: Growth,
    n: nat,
)
    requires
        all.len() <= usize::MAX,
        growing(all, members, taken, g),
        indices_within(members, all.len()),
        n <= members.len(),
    ensures
        growing(all, members, taken, absorb(all, members, rules, current, g, n)),
        g.cluster.len() <= absorb(all, members, rules, current, g, n).cluster.len(),
        absorb(all, members, rules, current, g, n).cluster.take(g.cluster.len() as int)
            =~= g.cluster,
    decreases n,
{
    if n > 0 {
        lemma_absorb(all, members, rules, taken, current, g, (n - 1) as nat);
        let before = absorb(all, members, rules, current, g, (n - 1) as nat);
        let candidate = members[n - 1];
        assert(members[n - 1] < all.len());
        if joins(all, rules, before, current, candidate) {
            let after = absorb(all, members, rules, current, g, n);
            assert(members.contains(candidate));
            assert forall|i: int| 0 <= i < after.cluster.len() implies (
            #[trigger] after.cluster[i]) < all.len() && members.contains(after.cluster[i])
                && all[after.cluster[i] as int].len() > 0 && !taken[after.cluster[i] as int]
                && after.assigned[after.cluster[i] as int] by {
                if i < before.cluster.len() {
                    assert(after.cluster[i] == before.cluster[i]);
                }
            }
            assert forall|i: int, j: int|
                0 <= i < after.cluster.len() && 0 <= j < after.cluster.len() && i
                    != j implies #[trigger] after.cluster[i] != #[trigger] after.cluster[j] by {
                if i < before.cluster.len() {
                    assert(after.cluster[i] == before.cluster[i]);
                    assert(before.assigned[before.cluster[i] as int]);
                }
                if j < before.cluster.len() {
                    assert(after.cluster[j] == before.cluster[j]);
                    assert(before.assigned[before.cluster[j] as int]);
                }
            }
            assert forall|b: int| 0 <= b < all.len() && #[trigger] after.assigned[b] implies taken[b]
                || after.cluster.contains(b as usize) by {
                if b == candidate {
                    assert(after.cluster[before.cluster.len() as int] == candidate);
                } else {
                    assert(before.assigned[b]);
                    if !taken[b] {
                        let i = choose|i: int|
                            0 <= i < before.cluster.len() && before.cluster[i] == b as usize;
                        assert(after.cluster[i] == b as usize);
                    }
                }
            }
            assert(after.cluster.take(g.cluster.len() as int) =~= before.cluster.take(
                g.cluster.len() as int,
            ));
        }
    }
}

proof fn lemma_grow(
    all: Seq<Seq<Bounds>>,
    members: Seq<usize>,
    rules: Rules,
    taken: Seq<bool>,
    g: Growth,
    cursor: nat,
    fuel: nat,
)
    requires
        all.len() <= usize::MAX,
        growing(all, members, taken, g),
        indices_within(members, all.len()),
    ensures
        growing(all, members, taken, grow(all, members, rules, g, cursor, fuel)),
        g.cluster.len() <= grow(all, members, rules, g, cursor, fuel).cluster.len(),
        grow(all, members, rules, g, cursor, fuel).cluster[0] == g.cluster[0],
    decreases fuel,
{
    if fuel > 0 && cursor < g.cluster.len() {
        let current = g.cluster[cursor as int];
        let next = absorb(all, members, rules, current, g, members.len());
        lemma_absorb(all, members, rules, taken, current, g, members.len());
        assert(next.cluster.take(g.cluster.len() as int)[0] == next.cluster[0]);
        lemma_grow(all, members, rules, taken, next, cursor + 1, (fuel - 1) as nat);
    }
}

/// A list of distinct indices below `n` has at most `n` entries.
pub proof fn lemma_distinct_len(list: Seq<usize>, n: nat)
    requires
        distinct(list),
        forall|i: int| 0 <= i < list.len() ==> (#[trigger] list[i]) < n,
    ensures
        list.len() <= n,
{
    let held = list.to_set();
    let ints = held.map(|v: usize| v as int);
    assert(list.no_duplicates());
    list.unique_seq_to_set();
    let full = vstd::set_lib::set_int_range(0, n as int);
    vstd::set_lib::lemma_int_range(0, n as int);
    vstd::set_lib::lemma_map_size(held, ints, |v: usize| v as int);
    assert(ints.subset_of(full)) by {
        assert forall|v: int| ints.contains(v) implies full.contains(v) by {
            let u = choose|u: usize| held.contains(u) && u as int == v;
            let i = choose|i: int| 0 <= i < list.len() && list[i] == u;
            assert(list[i] < n);
        }
    }
    vstd::set_lib::lemma_len_subset(ints, full);
}

/// Indices given out so far, and that no list shares one with another.
pub open spec fn clustered(
    all: Seq<Seq<Bounds>>,
    members: Seq<usize>,
    c: Clustering,
) -> bool {
    &&& c.assigned.len() == all.len()
    &&& disjoint(c.clusters)
    &&& forall|k: int| 0 <= k < c.clusters.len() ==> (#[trigger] c.clusters[k]).len() > 0
    &&& forall|k: int, i: int|
        0 <= k < c.clusters.len() && 0 <= i < c.clusters[k].len() ==> (
        #[trigger] c.clusters[k][i]) < all.len() && members.contains(c.clusters[k][i])
            && all[c.clusters[k][i] as int].len() > 0 && c.assigned[c.clusters[k][i] as int]
    &&& forall|b: int|
        0 <= b < all.len() && #[trigger] c.assigned[b] ==> exists|k: int, i: int|
            0 <= k < c.clusters.len() && 0 <= i < c.clusters[k].len()
                && #[trigger] c.clusters[k][i] == b
}

pub proof fn lemma_clustering(
    all: Seq<Seq<Bounds>>,
    members: Seq<usize>,
    rules: Rules,
    n: nat,
)
    requires
        all.len() <= usize::MAX,
        indices_within(members, all.len()),
        n <= members.len(),
    ensures
        clustered(all, members, clustering(all, members, rules, n)),
        forall|m: int|
            0 <= m < n && all[#[trigger] members[m] as int].len() > 0 ==> clustering(
                all,
                members,
                rules,
                n,
            ).assigned[members[m] as int],
    decreases n,
{
    if n > 0 {
        lemma_clustering(all, members, rules, (n - 1) as nat);
        let before = clustering(all, members, rules, (n - 1) as nat);
        let after = clustering(all, members, rules, n);
        let seed = members[n - 1];
        assert(members[n - 1] < all.len());
        if !(before.assigned[seed as int] || all[seed as int].len() == 0) {
            let start = Growth {
                assigned: before.assigned.update(seed as int, true),
                cluster: seq![seed],
            };
            assert(start.cluster[0] == seed);
            assert(members.contains(seed));
            assert(growing(all, members, before.assigned, start)) by {
                assert forall|b: int| 0 <= b < all.len() && #[trigger] start.assigned[b] implies
                    before.assigned[b] || start.cluster.contains(b as usize) by {
                    if b == seed {
                        assert(start.cluster[0] == b as usize);
                    }
                }
            }
            lemma_grow(all, members, rules, before.assigned, start, 0, all.len());
            let grown = grow(all, members, rules, start, 0, all.len());
            let last = before.clusters.len() as int;
            assert(after.clusters[last] == grown.cluster);
            assert forall|k: int| 0 <= k < after.clusters.len() implies distinct(
                #[trigger] after.clusters[k],
            ) by {
                if k < last {
                    assert(after.clusters[k] == before.clusters[k]);
                }
            }
            assert forall|c: int, d: int, i: int, j: int|
                0 <= c < after.clusters.len() && 0 <= d < after.clusters.len() && c != d && 0 <= i
                    < after.clusters[c].len() && 0 <= j
                    < after.clusters[d].len() implies #[trigger] after.clusters[c][i]
                != #[trigger] after.clusters[d][j] by {
                if c < last {
                    assert(after.clusters[c] == before.clusters[c]);
                    assert(before.assigned[before.clusters[c][i] as int]);
                }
                if d < last {
                    assert(after.clusters[d] == before.clusters[d]);
                    assert(before.assigned[before.clusters[d][j] as int]);
                }
                if c == last {
                    assert(!before.assigned[grown.cluster[i] as int]);
                }
                if d == last {
                    assert(!before.assigned[grown.cluster[j] as int]);
                }
            }
            assert forall|k: int, i: int|
                0 <= k < after.clusters.len() && 0 <= i < after.clusters[k].len() implies (
            #[trigger] after.clusters[k][i]) < all.len() && members.contains(after.clusters[k][i])
                && all[after.clusters[k][i] as int].len() > 0
                && after.assigned[after.clusters[k][i] as int] by {
                if k < last {
                    assert(after.clusters[k] == before.clusters[k]);
                    assert(before.assigned[before.clusters[k][i] as int]);
                } else {
                    assert(after.clusters[k][i] == grown.cluster[i]);
                }
            }
            assert forall|b: int|
                0 <= b < all.len() && #[trigger] after.assigned[b] implies exists|k: int, i: int|
                0 <= k < after.clusters.len() && 0 <= i < after.clusters[k].len()
                    && #[trigger] after.clusters[k][i] == b by {
                if before.assigned[b] {
                    let (k, i) = choose|k: int, i: int|
                        0 <= k < before.clusters.len() && 0 <= i < before.clusters[k].len()
                            && #[trigger] before.clusters[k][i] == b;
                    assert(after.clusters[k] == before.clusters[k]);
                    assert(after.clusters[k][i] == b);
                } else {
                    let i = choose|i: int|
                        0 <= i < grown.cluster.len() && grown.cluster[i] == b as usize;
                    assert(after.clusters[last][i] == b);
                }
            }
            assert(start.assigned[seed as int]);
            assert(grown.assigned[seed as int]) by {
                assert(grown.cluster[0] == seed);
            }
        }
        assert forall|m: int|
            0 <= m < n && all[#[trigger] members[m] as int].len()
                > 0 implies after.assigned[members[m] as int] by {
            assert(members[m] < all.len());
            if m < n - 1 {
                assert(before.assigned[members[m] as int]);
            }
        }
    }
}

/// The clusters are disjoint lists of members that have displays, and every member that
/// has displays is in one of them.
pub proof fn clusters_partition_the_members(
    all: Seq<Seq<Bounds>>,
    members: Seq<usize>,
    rules: Rules,
)
    requires
        all.len() <= usize::MAX,
        indices_within(members, all.len()),
    ensures
        disjoint(clusters_of(all, members, rules)),
        forall|k: int|
            0 <= k < clusters_of(all, members, rules).len() ==> (#[trigger] clusters_of(
                all,
                members,
                rules,
            )[k]).len() > 0,
        forall|k: int, i: int|
            0 <= k < clusters_of(all, members, rules).len() && 0 <= i < clusters_of(
                all,
                members,
                rules,
            )[k].len() ==> members.contains(#[trigger] clusters_of(all, members, rules)[k][i])
                && all[clusters_of(all, members, rules)[k][i] as int].len() > 0,
        forall|m: int|
            0 <= m < members.len() && all[#[trigger] members[m] as int].len() > 0 ==> exists|
                k: int,
                i: int,
            |
                0 <= k < clusters_of(all, members, rules).len() && 0 <= i < clusters_of(
                    all,
                    members,
                    rules,
                )[k].len() && #[trigger] clusters_of(all, members, rules)[k][i] == members[m],
{
    lemma_clustering(all, members, rules, members.len());
    let c = clustering(all, members, rules, members.len());
    assert forall|m: int|
        0 <= m < members.len() && all[#[trigger] members[m] as int].len() > 0 implies exists|
        k: int,
        i: int,
    |
        0 <= k < c.clusters.len() && 0 <= i < c.clusters[k].len() && #[trigger] c.clusters[k][i]
            == members[m] by {
        assert(members[m] < all.len());
        assert(c.assigned[members[m] as int]);
    }
}

/// Whatever one of the first `upto` entries touches is assigned.
pub open spec fn saturated(
    all: Seq<Seq<Bounds>>,
    members: Seq<usize>,
    rules: Rules,
    g: Growth,
    upto: int,
) -> bool {
    forall|i: int, m: int|
        0 <= i < upto && i < g.cluster.len() && 0 <= m < members.len()
            && all[#[trigger] members[m] as int].len() > 0 && touches(
            all[#[trigger] g.cluster[i] as int],
            all[members[m] as int],
            rules,
        ) ==> g.assigned[members[m] as int]
}

/// Every entry but the first is touched by an earlier one.
pub open spec fn linked(all: Seq<Seq<Bounds>>, rules: Rules, cluster: Seq<usize>) -> bool {
    forall|i: int|
        0 < i < cluster.len() ==> exists|j: int|
            0 <= j < i && touches(
                all[#[trigger] cluster[j] as int],
                all[#[trigger] cluster[i] as int],
                rules,
            )
}

proof fn lemma_absorb_saturates(
    all: Seq<Seq<Bounds>>,
    members: Seq<usize>,
    rules: Rules,
    taken: Seq<bool>,
    cursor: nat,
    g: Growth,
    n: nat,
)
    requires
        all.len() <= usize::MAX,
        growing(all, members, taken, g),
        indices_within(members, all.len()),
        n <= members.len(),
        cursor < g.cluster.len(),
        linked(all, rules, g.cluster),
        saturated(all, members, rules, g, cursor as int),
    ensures
        linked(all, rules, absorb(all, members, rules, g.cluster[cursor as int], g, n).cluster),
        saturated(
            all,
            members,
            rules,
            absorb(all, members, rules, g.cluster[cursor as int], g, n),
            cursor as int,
        ),
        forall|m: int|
            0 <= m < n && all[#[trigger] members[m] as int].len() > 0 && touches(
                all[g.cluster[cursor as int] as int],
                all[members[m] as int],
                rules,
            ) ==> absorb(
                all,
                members,
                rules,
                g.cluster[cursor as int],
                g,
                n,
            ).assigned[members[m] as int],
    decreases n,
{
    let current = g.cluster[cursor as int];
    let after = absorb(all, members, rules, current, g, n);
    lemma_absorb(all, members, rules, taken, current, g, n);
    if n > 0 {
        lemma_absorb_saturates(all, members, rules, taken, cursor, g, (n - 1) as nat);
        lemma_absorb(all, members, rules, taken, current, g, (n - 1) as nat);
        let before = absorb(all, members, rules, current, g, (n - 1) as nat);
        let candidate = members[n - 1];
        assert(members[n - 1] < all.len());
        assert forall|i: int| 0 <= i < g.cluster.len() implies before.cluster[i]
            == #[trigger] g.cluster[i] by {
            assert(before.cluster.take(g.cluster.len() as int)[i] == before.cluster[i]);
        }
        assert forall|m: int|
            0 <= m < n && all[#[trigger] members[m] as int].len() > 0 && touches(
                all[current as int],
                all[members[m] as int],
                rules,
            ) implies after.assigned[members[m] as int] by {
            assert(members[m] < all.len());
            if m < n - 1 {
                assert(before.assigned[members[m] as int]);
            }
        }
        assert forall|i: int, m: int|
            0 <= i < cursor && i < after.cluster.len() && 0 <= m < members.len()
                && all[#[trigger] members[m] as int].len() > 0 && touches(
                all[#[trigger] after.cluster[i] as int],
                all[members[m] as int],
                rules,
            ) implies after.assigned[members[m] as int] by {
            assert(members[m] < all.len());
            assert(after.cluster[i] == before.cluster[i]);
        }
        if joins(all, rules, before, current, candidate) {
            assert forall|i: int| 0 < i < after.cluster.len() implies exists|j: int|
                0 <= j < i && touches(
                    all[#[trigger] after.cluster[j] as int],
                    all[#[trigger] after.cluster[i] as int],
                    rules,
                ) by {
                if i < before.cluster.len() {
                    assert(after.cluster[i] == before.cluster[i]);
                    let j = choose|j: int|
                        0 <= j < i && touches(
                            all[#[trigger] before.cluster[j] as int],
                            all[before.cluster[i] as int],
                            rules,
                        );
                    assert(after.cluster[j] == before.cluster[j]);
                } else {
                    assert(after.cluster[cursor as int] == g.cluster[cursor as int]);
                }
            }
        }
    }
}

#[verifier::spinoff_prover]
#[verifier::rlimit(40)]
proof fn lemma_grow_saturates(
    all: Seq<Seq<Bounds>>,
    members: Seq<usize>,
    rules: Rules,
    taken: Seq<bool>,
    g: Growth,
    cursor: nat,
    fuel: nat,
)
    requires
        all.len() <= usize::MAX,
        growing(all, members, taken, g),
        indices_within(members, all.len()),
        linked(all, rules, g.cluster),
        saturated(all, members, rules, g, cursor as int),
        cursor <= g.cluster.len(),
        cursor + fuel == all.len(),
    ensures
        linked(all, rules, grow(all, members, rules, g, cursor, fuel).cluster),
        saturated(
            all,
            members,
            rules,
            grow(all, members, rules, g, cursor, fuel),
            grow(all, members, rules, g, cursor, fuel).cluster.len() as int,
        ),
    decreases fuel,
{
    lemma_distinct_len(g.cluster, all.len());
    if fuel > 0 && cursor < g.cluster.len() {
        let current = g.cluster[cursor as int];
        let next = absorb(all, members, rules, current, g, members.len());
        lemma_absorb(all, members, rules, taken, current, g, members.len());
        lemma_absorb_saturates(all, members, rules, taken, cursor, g, members.len());
        assert(next.cluster.take(g.cluster.len() as int)[cursor as int]
            == next.cluster[cursor as int]);
        assert(next.cluster[cursor as int] == current);
        assert forall|i: int, m: int|
            0 <= i < cursor + 1 && i < next.cluster.len() && 0 <= m < members.len()
                && all[#[trigger] members[m] as int].len() > 0 && touches(
                all[#[trigger] next.cluster[i] as int],
                all[members[m] as int],
                rules,
            ) implies next.assigned[members[m] as int] by {
            if i == cursor {
                assert(next.cluster[i] == current);
            } else {
                assert(i < cursor);
            }
        }
        lemma_grow_saturates(all, members, rules, taken, next, cursor + 1, (fuel - 1) as nat);
    }
}

/// What a cluster's entries touch lies in it or in an earlier cluster.
pub open spec fn closed_under_touch(
    all: Seq<Seq<Bounds>>,
    members: Seq<usize>,
    rules: Rules,
    clusters: Seq<Seq<usize>>,
) -> bool {
    forall|k: int, i: int, m: int|
        0 <= k < clusters.len() && 0 <= i < clusters[k].len() && 0 <= m < members.len()
            && all[#[trigger] members[m] as int].len() > 0 && touches(
            all[#[trigger] clusters[k][i] as int],
            all[members[m] as int],
            rules,
        ) ==> exists|d: int, j: int|
            0 <= d <= k && 0 <= j < clusters[d].len() && #[trigger] clusters[d][j] == members[m]
}

proof fn lemma_clustering_closed(
    all: Seq<Seq<Bounds>>,
    members: Seq<usize>,
    rules: Rules,
    n: nat,
)
    requires
        all.len() <= usize::MAX,
        indices_within(members, all.len()),
        n <= members.len(),
    ensures
        closed_under_touch(all, members, rules, clustering(all, members, rules, n).clusters),
        forall|k: int|
            0 <= k < clustering(all, members, rules, n).clusters.len() ==> linked(
                all,
                rules,
                #[trigger] clustering(all, members, rules, n).clusters[k],
            ),
    decreases n,
{
    if n > 0 {
        lemma_clustering_closed(all, members, rules, (n - 1) as nat);
        lemma_clustering(all, members, rules, (n - 1) as nat);
        lemma_clustering(all, members, rules, n);
        let before = clustering(all, members, rules, (n - 1) as nat);
        let after = clustering(all, members, rules, n);
        let seed = members[n - 1];
        assert(members[n - 1] < all.len());
        if !(before.assigned[seed as int] || all[seed as int].len() == 0) {
            let start = Growth {
                assigned: before.assigned.update(seed as int, true),
                cluster: seq![seed],
            };
            assert(start.cluster[0] == seed);
            assert(members.contains(seed));
            assert forall|b: int| 0 <= b < all.len() && #[trigger] start.assigned[b] implies
                before.assigned[b] || start.cluster.contains(b as usize) by {
                if b == seed {
                    assert(start.cluster[0] == b as usize);
                }
            }
            assert(growing(all, members, before.assigned, start));
            lemma_grow(all, members, rules, before.assigned, start, 0, all.len());
            lemma_grow_saturates(all, members, rules, before.assigned, start, 0, all.len());
            let grown = grow(all, members, rules, start, 0, all.len());
            let last = before.clusters.len() as int;
            assert(after.clusters[last] == grown.cluster);
            assert forall|k: int, i: int, m: int|
                0 <= k < after.clusters.len() && 0 <= i < after.clusters[k].len() && 0 <= m
                    < members.len() && all[#[trigger] members[m] as int].len() > 0 && touches(
                    all[#[trigger] after.clusters[k][i] as int],
                    all[members[m] as int],
                    rules,
                ) implies exists|d: int, j: int|
                0 <= d <= k && 0 <= j < after.clusters[d].len() && #[trigger] after.clusters[d][j]
                    == members[m] by {
                assert(members[m] < all.len());
                if k < last {
                    assert(after.clusters[k] == before.clusters[k]);
                    assert(before.clusters[k][i] == after.clusters[k][i]);
                    let (d, j) = choose|d: int, j: int|
                        0 <= d <= k && 0 <= j < before.clusters[d].len()
                            && #[trigger] before.clusters[d][j] == members[m];
                    assert(after.clusters[d] == before.clusters[d]);
                    assert(after.clusters[d][j] == members[m]);
                } else {
                    assert(grown.cluster[i] == after.clusters[k][i]);
                    assert(grown.assigned[members[m] as int]);
                    let (d, j) = choose|d: int, j: int|
                        0 <= d < after.clusters.len() && 0 <= j < after.clusters[d].len()
                            && #[trigger] after.clusters[d][j] == members[m] as int;
                    assert(after.clusters[d][j] == members[m]);
                }
            }
            assert forall|k: int| 0 <= k < after.clusters.len() implies linked(
                all,
                rules,
                #[trigger] after.clusters[k],
            ) by {
                if k < last {
                    assert(after.clusters[k] == before.clusters[k]);
                }
            }
        }
    }
}

/// Every cluster hangs together: each of its entries but the first touches an earlier one.
pub proof fn clusters_hang_together(all: Seq<Seq<Bounds>>, members: Seq<usize>, rules: Rules)
    requires
        all.len() <= usize::MAX,
        indices_within(members, all.len()),
    ensures
        forall|k: int|
            0 <= k < clusters_of(all, members, rules).len() ==> linked(
                all,
                rules,
                #[trigger] clusters_of(all, members, rules)[k],
            ),
{
    lemma_clustering_closed(all, members, rules, members.len());
}

/// For rectangles with an area, a seam is a seam from either side.
pub proof fn seams_are_mutual(rect: Bounds, other: Bounds, rules: Rules)
    requires
        rect.solid(),
        other.solid(),
        rect.bounded(REACH as int),
        other.bounded(REACH as int),
    ensures
        seam_side_of(rect, other, rules) is Some <==> seam_side_of(other, rect, rules) is Some,
        seam_side_of(rect, other, rules) matches Some(side) ==> seam_side_of(other, rect, rules)
            == Some(side.facing()),
{
}

/// Touching is mutual.
pub proof fn touching_is_mutual(a: Seq<Bounds>, b: Seq<Bounds>, rules: Rules)
    requires
        solid(a),
        solid(b),
        bounded(a, REACH as int),
        bounded(b, REACH as int),
    ensures
        touches(a, b, rules) == touches(b, a, rules),
{
    assert forall|i: int, j: int| 0 <= i < a.len() && 0 <= j < b.len() implies seam_side_of(
        #[trigger] a[i],
        #[trigger] b[j],
        rules,
    ) is Some == seam_side_of(b[j], a[i], rules) is Some by {
        seams_are_mutual(a[i], b[j], rules);
    }
    if touches(a, b, rules) {
        let (i, j) = choose|i: int, j: int|
            0 <= i < a.len() && 0 <= j < b.len() && seam_side_of(
                #[trigger] a[i],
                #[trigger] b[j],
                rules,
            ) is Some;
        assert(seam_side_of(b[j], a[i], rules) is Some);
    }
    if touches(b, a, rules) {
        let (j, i) = choose|j: int, i: int|
            0 <= j < b.len() && 0 <= i < a.len() && seam_side_of(
                #[trigger] b[j],
                #[trigger] a[i],
                rules,
            ) is Some;
        assert(seam_side_of(a[i], b[j], rules) is Some);
    }
}

/// Bodies of two clusters never touch: what touches is in one cluster.
pub proof fn separate_clusters_do_not_touch(
    all: Seq<Seq<Bounds>>,
    members: Seq<usize>,
    rules: Rules,
    c: int,
    d: int,
    i: int,
    j: int,
)
    requires
        all.len() <= usize::MAX,
        indices_within(members, all.len()),
        all_bounded(all, REACH as int),
        forall|b: int| 0 <= b < all.len() ==> solid(#[trigger] all[b]),
        0 <= c < clusters_of(all, members, rules).len(),
        0 <= d < clusters_of(all, members, rules).len(),
        c != d,
        0 <= i < clusters_of(all, members, rules)[c].len(),
        0 <= j < clusters_of(all, members, rules)[d].len(),
    ensures
        !touches(
            all[clusters_of(all, members, rules)[c][i] as int],
            all[clusters_of(all, members, rules)[d][j] as int],
            rules,
        ),
{
    let clusters = clusters_of(all, members, rules);
    lemma_clustering(all, members, rules, members.len());
    lemma_clustering_closed(all, members, rules, members.len());
    let a = clusters[c][i];
    let b = clusters[d][j];
    if touches(all[a as int], all[b as int], rules) {
        touching_is_mutual(all[a as int], all[b as int], rules);
        let ma = choose|m: int| 0 <= m < members.len() && members[m] == a;
        let mb = choose|m: int| 0 <= m < members.len() && members[m] == b;
        assert(members[ma] == a && members[mb] == b);
        if c < d {
            let (e, k) = choose|e: int, k: int|
                0 <= e <= c && 0 <= k < clusters[e].len() && #[trigger] clusters[e][k]
                    == members[mb];
            assert(clusters[e][k] == clusters[d][j]);
        } else {
            let (e, k) = choose|e: int, k: int|
                0 <= e <= d && 0 <= k < clusters[e].len() && #[trigger] clusters[e][k]
                    == members[ma];
            assert(clusters[e][k] == clusters[c][i]);
        }
    }
}

/// Connected clusters of bodies (indices), joined by [`touching`]. Bodies without
/// displays belong to no cluster.
pub fn components(bodies: &[Body], rules: &Rules) -> (r: Vec<Vec<usize>>)
    requires
        all_bounded(shapes(bodies@), REACH as int),
    ensures
        lists(r@) == clusters_of(shapes(bodies@), first_indices(bodies@.len()), *rules),
{
    let mut all: Vec<usize> = Vec::new();
    for i in 0..bodies.len()
        invariant
            all@ =~= first_indices(i as nat),
    {
        all.push(i);
    }
    clusters(bodies, &all, rules)
}

/// The cluster that `seed` starts among the members not yet assigned to one.
fn grow_cluster(
    bodies: &[Body],
    members: &[usize],
    rules: &Rules,
    assigned: &mut Vec<bool>,
    seed: usize,
) -> (r: Vec<usize>)
    requires
        all_bounded(shapes(bodies@), REACH as int),
        indices_within(members@, bodies@.len()),
        old(assigned)@.len() == bodies@.len(),
        members@.contains(seed),
        bodies@[seed as int]@.len() > 0,
        !old(assigned)@[seed as int],
    ensures
        (Growth { assigned: final(assigned)@, cluster: r@ }) == grow(
            shapes(bodies@),
            members@,
            *rules,
            Growth {
                assigned: old(assigned)@.update(seed as int, true),
                cluster: seq![seed],
            },
            0,
            bodies@.len(),
        ),
        final(assigned)@.len() == bodies@.len(),
{
    let ghost all = shapes(bodies@);
    let ghost taken = assigned@;
    let ghost start = Growth { assigned: taken.update(seed as int, true), cluster: seq![seed] };
    let ghost grown = grow(all, members@, *rules, start, 0, all.len());
    let count: usize = bodies.len();
    proof {
        let at = choose|at: int| 0 <= at < members@.len() && members@[at] == seed;
        assert(members@[at] < all.len());
    }
    assigned.set(seed, true);
    let mut cluster: Vec<usize> = Vec::new();
    cluster.push(seed);
    assert(cluster@ =~= seq![seed]);
    proof {
        assert(start.cluster[0] == seed);
        assert forall|b: int| 0 <= b < all.len() && #[trigger] start.assigned[b] implies taken[b]
            || start.cluster.contains(b as usize) by {
            if b == seed {
                assert(start.cluster[0] == b as usize);
            }
        }
        assert(growing(all, members@, taken, start));
    }
    let mut cursor: usize = 0;
    while cursor < cluster.len()
        invariant
            all == shapes(bodies@),
            all.len() == count,
            all_bounded(all, REACH as int),
            indices_within(members@, all.len()),
            cursor <= cluster@.len() <= all.len(),
            growing(all, members@, taken, Growth { assigned: assigned@, cluster: cluster@ }),
            grown == grow(
                all,
                members@,
                *rules,
                Growth { assigned: assigned@, cluster: cluster@ },
                cursor as nat,
                (all.len() - cursor) as nat,
            ),
        decreases all.len() - cursor,
    {
        let current: usize = cluster[cursor];
        assert(cluster@[cursor as int] < all.len());
        let ghost held = Growth { assigned: assigned@, cluster: cluster@ };
        for m in 0..members.len()
            invariant
                all == shapes(bodies@),
                all_bounded(all, REACH as int),
                indices_within(members@, all.len()),
                current < all.len(),
                growing(all, members@, taken, held),
                assigned@.len() == all.len(),
                (Growth { assigned: assigned@, cluster: cluster@ }) == absorb(
                    all,
                    members@,
                    *rules,
                    current,
                    held,
                    m as nat,
                ),
        {
            let candidate: usize = members[m];
            assert(members@[m as int] < all.len());
            assert(bounded(all[current as int], REACH as int));
            assert(bounded(all[candidate as int], REACH as int));
            if !assigned[candidate] && !bodies[candidate].is_empty() && touching(
                &bodies[current],
                &bodies[candidate],
                rules,
            ) {
                assigned.set(candidate, true);
                cluster.push(candidate);
            }
        }
        proof {
            lemma_absorb(all, members@, *rules, taken, current, held, members@.len());
            lemma_distinct_len(cluster@, all.len());
        }
        cursor = cursor + 1;
    }
    cluster
}

pub fn clusters(bodies: &[Body], members: &[usize], rules: &Rules) -> (r: Vec<Vec<usize>>)
    requires
        all_bounded(shapes(bodies@), REACH as int),
        indices_within(members@, bodies@.len()),
    ensures
        lists(r@) == clusters_of(shapes(bodies@), members@, *rules),
{
    let ghost all = shapes(bodies@);
    let mut assigned: Vec<bool> = Vec::new();
    for i in 0..bodies.len()
        invariant
            assigned@ =~= Seq::new(i as nat, |k: int| false),
    {
        assigned.push(false);
    }
    let mut found: Vec<Vec<usize>> = Vec::new();
    assert(lists(found@) =~= Seq::empty());
    for s in 0..members.len()
        invariant
            all == shapes(bodies@),
            all_bounded(all, REACH as int),
            indices_within(members@, all.len()),
            assigned@ == clustering(all, members@, *rules, s as nat).assigned,
            assigned@.len() == all.len(),
            lists(found@) == clustering(all, members@, *rules, s as nat).clusters,
    {
        let seed: usize = members[s];
        assert(members@[s as int] < all.len());
        if !assigned[seed] && !bodies[seed].is_empty() {
            assert(members@.contains(seed));
            let cluster = grow_cluster(bodies, members, rules, &mut assigned, seed);
            let ghost before = lists(found@);
            found.push(cluster);
            assert(lists(found@) =~= before.push(cluster@));
        }
    }
    found
}

} // verus!
