//! Whole-arrangement moves: repairing an arrangement, and one pointer step of a drag.

use crate::arrange::area::Area;
use crate::arrange::bounds::{
    bounded, extent_of, lemma_extent_bounded, min_int, moved, overlapping, Body, Bounds, Rules,
    REACH,
};
use crate::arrange::cluster::{
    clusters, clusters_of, disjoint, distinct, lemma_clustering, lemma_distinct_len, lists,
    shared_edge, shared_edge_of, SeamSegment,
};
use crate::arrange::place::{
    all_bounded, attach, clamp_i32, indices_within, picked, placement_of, shapes, to_i32, Placement,
    Scene,
};
use crate::geometry::Vec2I;
use vstd::prelude::*;

verus! {

/// Canvas coordinates an arrangement may start from. Displays anywhere in their machine's
/// coordinates, at any offset, lie within.
pub const CANVAS: i64 = 0x4_0000_0000;

/// How far one move can carry a body.
pub const STRIDE: i64 = 0x8000_0000;

/// Placing the dragged body and re-settling the rest repeat until neither moves
/// anything; this bounds the repetitions.
pub const SETTLE_ROUNDS: usize = 4;

/// Arrangements that can be repaired and dragged in.
pub open spec fn arrangeable(all: Seq<Seq<Bounds>>) -> bool {
    all.len() <= usize::MAX && all_bounded(all, CANVAS as int)
}

// ---- areas ----

/// Display area of the bodies in a list.
pub open spec fn list_extent(all: Seq<Seq<Bounds>>, list: Seq<usize>) -> int
    decreases list.len(),
{
    if list.len() == 0 {
        0
    } else {
        list_extent(all, list.drop_last()) + extent_of(all[list.last() as int])
    }
}

/// `a` has more display area than `b`, or as much and an earlier first body.
pub open spec fn outranks(all: Seq<Seq<Bounds>>, a: Seq<usize>, b: Seq<usize>) -> bool {
    list_extent(all, a) > list_extent(all, b) || (list_extent(all, a) == list_extent(all, b) && a[0]
        <= b[0])
}

/// Which of the first `n` clusters has the most display area; earliest wins ties.
pub open spec fn largest_index(all: Seq<Seq<Bounds>>, clusters: Seq<Seq<usize>>, n: nat) -> Option<
    int,
>
    decreases n,
{
    if n == 0 {
        None
    } else {
        match largest_index(all, clusters, (n - 1) as nat) {
            Some(best) => if outranks(all, clusters[n - 1], clusters[best]) {
                Some(n - 1)
            } else {
                Some(best)
            },
            None => Some(n - 1),
        }
    }
}

pub open spec fn largest_cluster_of(
    all: Seq<Seq<Bounds>>,
    members: Seq<usize>,
    rules: Rules,
) -> Seq<usize> {
    let found = clusters_of(all, members, rules);
    match largest_index(all, found, found.len()) {
        Some(best) => found[best],
        None => Seq::empty(),
    }
}

fn area_of(bodies: &[Body], list: &Vec<usize>) -> (r: Area)
    requires
        all_bounded(shapes(bodies@), REACH as int),
        indices_within(list@, bodies@.len()),
    ensures
        r.wf(),
        r.value() == list_extent(shapes(bodies@), list@),
{
    let ghost all = shapes(bodies@);
    let mut total = Area::zero();
    for i in 0..list.len()
        invariant
            all == shapes(bodies@),
            all_bounded(all, REACH as int),
            indices_within(list@, bodies@.len()),
            total.wf(),
            total.value() == list_extent(all, list@.take(i as int)),
            -(i * 0x100_0000_0000_0000_0000_0000_0000_0000_0000) <= total.value() <= i
                * 0x100_0000_0000_0000_0000_0000_0000_0000_0000,
    {
        let index: usize = list[i];
        assert(list@[i as int] < bodies@.len());
        assert(bounded(all[index as int], REACH as int));
        assert(list@.take(i + 1).drop_last() =~= list@.take(i as int));
        total = total.plus(bodies[index].area());
    }
    assert(list@.take(list@.len() as int) =~= list@);
    total
}

fn find_largest(bodies: &[Body], found: &Vec<Vec<usize>>) -> (r: Option<usize>)
    requires
        all_bounded(shapes(bodies@), REACH as int),
        listed(lists(found@), bodies@.len()),
    ensures
        r matches Some(i) ==> i < found@.len() && largest_index(
            shapes(bodies@),
            lists(found@),
            found@.len(),
        ) == Some(i as int),
        r is None ==> found@.len() == 0,
{
    let ghost all = shapes(bodies@);
    let mut best: Option<usize> = None;
    for i in 0..found.len()
        invariant
            all == shapes(bodies@),
            all_bounded(all, REACH as int),
            listed(lists(found@), bodies@.len()),
            best matches Some(b) ==> b < i && largest_index(all, lists(found@), i as nat) == Some(
                b as int,
            ),
            best is None ==> i == 0,
    {
        assert(lists(found@)[i as int] == found@[i as int]@);
        match best {
            Some(b) => {
                assert(lists(found@)[b as int] == found@[b as int]@);
                let mine = area_of(bodies, &found[i]);
                let other = area_of(bodies, &found[b]);
                if mine.exceeds(other) || (!other.exceeds(mine) && found[i][0] <= found[b][0]) {
                    best = Some(i);
                }
            },
            None => {
                best = Some(i);
            },
        }
    }
    best
}

/// Lists of bodies: none empty, no index twice over all of them, none out of range.
pub open spec fn listed(clusters: Seq<Seq<usize>>, len: nat) -> bool {
    &&& disjoint(clusters)
    &&& forall|k: int|
        0 <= k < clusters.len() ==> (#[trigger] clusters[k]).len() > 0 && clusters[k].len() <= len
    &&& forall|k: int| 0 <= k < clusters.len() ==> indices_within(#[trigger] clusters[k], len)
}

pub proof fn lemma_clusters_listed(all: Seq<Seq<Bounds>>, members: Seq<usize>, rules: Rules)
    requires
        all.len() <= usize::MAX,
        indices_within(members, all.len()),
    ensures
        listed(clusters_of(all, members, rules), all.len()),
        forall|k: int, i: int|
            0 <= k < clusters_of(all, members, rules).len() && 0 <= i < clusters_of(
                all,
                members,
                rules,
            )[k].len() ==> members.contains(#[trigger] clusters_of(all, members, rules)[k][i]),
{
    lemma_clustering(all, members, rules, members.len());
    let found = clusters_of(all, members, rules);
    assert forall|k: int| 0 <= k < found.len() implies (#[trigger] found[k]).len() > 0
        && found[k].len() <= all.len() && indices_within(found[k], all.len()) by {
        assert forall|i: int| 0 <= i < found[k].len() implies (#[trigger] found[k][i])
            < all.len() by {}
        lemma_distinct_len(found[k], all.len());
    }
}

/// The largest cluster is one of the clusters, and none outranks it.
pub proof fn lemma_largest(all: Seq<Seq<Bounds>>, clusters: Seq<Seq<usize>>)
    ensures
        clusters.len() > 0 ==> largest_index(all, clusters, clusters.len()) is Some,
        largest_index(all, clusters, clusters.len()) matches Some(best) ==> 0 <= best
            < clusters.len() && forall|k: int|
            0 <= k < clusters.len() ==> list_extent(all, #[trigger] clusters[k]) <= list_extent(
                all,
                clusters[best],
            ),
{
    lemma_largest_upto(all, clusters, clusters.len());
}

proof fn lemma_largest_upto(all: Seq<Seq<Bounds>>, clusters: Seq<Seq<usize>>, n: nat)
    requires
        n <= clusters.len(),
    ensures
        n > 0 ==> largest_index(all, clusters, n) is Some,
        largest_index(all, clusters, n) matches Some(best) ==> 0 <= best < n && forall|k: int|
            0 <= k < n ==> list_extent(all, #[trigger] clusters[k]) <= list_extent(
                all,
                clusters[best],
            ),
    decreases n,
{
    if n > 0 {
        lemma_largest_upto(all, clusters, (n - 1) as nat);
    }
}

/// The cluster with the most display area among `members`; earliest wins ties, so the
/// caller's first body (this machine) anchors the arrangement.
pub fn largest_cluster(bodies: &[Body], members: &[usize], rules: &Rules) -> (r: Vec<usize>)
    requires
        all_bounded(shapes(bodies@), REACH as int),
        indices_within(members@, bodies@.len()),
    ensures
        r@ == largest_cluster_of(shapes(bodies@), members@, *rules),
{
    let mut found = clusters(bodies, members, rules);
    let ghost all = shapes(bodies@);
    let ghost given = lists(found@);
    proof {
        assert(bodies.len() <= usize::MAX);
        lemma_clusters_listed(all, members@, *rules);
    }
    match find_largest(bodies, &found) {
        Some(best) => {
            assert(given[best as int] == found@[best as int]@);
            found.swap_remove(best)
        },
        None => Vec::new(),
    }
}

// ---- clusters for settling ----

/// `index` overlaps another body, and is not the one being dragged.
pub open spec fn misplaced(all: Seq<Seq<Bounds>>, anchor: Option<usize>, index: int) -> bool {
    anchor != Some(index as usize) && exists|other: int|
        0 <= other < all.len() && other != index && overlapping(all[index], #[trigger] all[other])
}

/// The misplaced among the first `n` bodies.
pub open spec fn misplaced_list(all: Seq<Seq<Bounds>>, anchor: Option<usize>, n: nat) -> Seq<usize>
    decreases n,
{
    if n == 0 {
        Seq::empty()
    } else {
        let before = misplaced_list(all, anchor, (n - 1) as nat);
        if misplaced(all, anchor, n - 1) {
            before.push((n - 1) as usize)
        } else {
            before
        }
    }
}

/// The others among the first `n` bodies.
pub open spec fn clear_list(all: Seq<Seq<Bounds>>, anchor: Option<usize>, n: nat) -> Seq<usize>
    decreases n,
{
    if n == 0 {
        Seq::empty()
    } else {
        let before = clear_list(all, anchor, (n - 1) as nat);
        if misplaced(all, anchor, n - 1) {
            before
        } else {
            before.push((n - 1) as usize)
        }
    }
}

/// One list for each of the first `n` indices whose body has displays.
pub open spec fn singles(all: Seq<Seq<Bounds>>, indices: Seq<usize>, n: nat) -> Seq<Seq<usize>>
    decreases n,
{
    if n == 0 {
        Seq::empty()
    } else {
        let before = singles(all, indices, (n - 1) as nat);
        if all[indices[n - 1] as int].len() > 0 {
            before.push(seq![indices[n - 1]])
        } else {
            before
        }
    }
}

/// Clusters for settling: a body overlapping any other is illegal where it stands, so
/// it forms its own cluster (and must move) even if it also shares a seam with something.
/// The `anchor` (a body being dragged) is exempt: whatever it overlaps moves instead.
pub open spec fn settle_clusters_of(
    all: Seq<Seq<Bounds>>,
    anchor: Option<usize>,
    rules: Rules,
) -> Seq<Seq<usize>> {
    let stuck = misplaced_list(all, anchor, all.len());
    clusters_of(all, clear_list(all, anchor, all.len()), rules) + singles(
        all,
        stuck,
        stuck.len(),
    )
}

pub(crate) proof fn lemma_sorted_out(all: Seq<Seq<Bounds>>, anchor: Option<usize>, n: nat)
    requires
        n <= all.len() <= usize::MAX,
    ensures
        indices_within(misplaced_list(all, anchor, n), n),
        indices_within(clear_list(all, anchor, n), n),
        distinct(misplaced_list(all, anchor, n)),
        forall|i: int|
            0 <= i < misplaced_list(all, anchor, n).len() ==> misplaced(
                all,
                anchor,
                #[trigger] misplaced_list(all, anchor, n)[i] as int,
            ),
        forall|i: int|
            0 <= i < clear_list(all, anchor, n).len() ==> !misplaced(
                all,
                anchor,
                #[trigger] clear_list(all, anchor, n)[i] as int,
            ),
        forall|b: int|
            0 <= b < n ==> misplaced_list(all, anchor, n).contains(b as usize) || clear_list(
                all,
                anchor,
                n,
            ).contains(#[trigger] (b as usize)),
    decreases n,
{
    if n > 0 {
        lemma_sorted_out(all, anchor, (n - 1) as nat);
        let stuck = misplaced_list(all, anchor, (n - 1) as nat);
        let free = clear_list(all, anchor, (n - 1) as nat);
        let stuck_now = misplaced_list(all, anchor, n);
        let free_now = clear_list(all, anchor, n);
        assert forall|i: int| 0 <= i < stuck_now.len() implies (#[trigger] stuck_now[i]) < n
            && misplaced(all, anchor, stuck_now[i] as int) by {
            if i < stuck.len() {
                assert(stuck_now[i] == stuck[i]);
            }
        }
        assert forall|i: int| 0 <= i < free_now.len() implies (#[trigger] free_now[i]) < n
            && !misplaced(all, anchor, free_now[i] as int) by {
            if i < free.len() {
                assert(free_now[i] == free[i]);
            }
        }
        assert forall|i: int, j: int|
            0 <= i < stuck_now.len() && 0 <= j < stuck_now.len() && i
                != j implies #[trigger] stuck_now[i] != #[trigger] stuck_now[j] by {
            if i < stuck.len() {
                assert(stuck_now[i] == stuck[i]);
                assert(stuck[i] < n - 1);
            }
            if j < stuck.len() {
                assert(stuck_now[j] == stuck[j]);
                assert(stuck[j] < n - 1);
            }
        }
        assert forall|b: int| 0 <= b < n implies stuck_now.contains(b as usize)
            || free_now.contains(#[trigger] (b as usize)) by {
            if b < n - 1 {
                if stuck.contains(b as usize) {
                    let i = choose|i: int| 0 <= i < stuck.len() && stuck[i] == b as usize;
                    assert(stuck_now[i] == b as usize);
                } else {
                    assert(free.contains(b as usize));
                    let i = choose|i: int| 0 <= i < free.len() && free[i] == b as usize;
                    assert(free_now[i] == b as usize);
                }
            } else if misplaced(all, anchor, b) {
                assert(stuck_now[stuck.len() as int] == b as usize);
            } else {
                assert(free_now[free.len() as int] == b as usize);
            }
        }
    }
}

pub(crate) proof fn lemma_singles(all: Seq<Seq<Bounds>>, indices: Seq<usize>, n: nat)
    requires
        n <= indices.len(),
        distinct(indices),
        indices_within(indices, all.len()),
    ensures
        forall|k: int|
            0 <= k < singles(all, indices, n).len() ==> (#[trigger] singles(all, indices, n)[k]).len()
                == 1 && exists|i: int|
                0 <= i < n && #[trigger] indices[i] == singles(all, indices, n)[k][0],
        forall|k: int, m: int|
            0 <= k < singles(all, indices, n).len() && 0 <= m < singles(all, indices, n).len() && k
                != m ==> (#[trigger] singles(all, indices, n)[k])[0] != (#[trigger] singles(
                all,
                indices,
                n,
            )[m])[0],
    decreases n,
{
    if n > 0 {
        lemma_singles(all, indices, (n - 1) as nat);
        let before = singles(all, indices, (n - 1) as nat);
        let after = singles(all, indices, n);
        assert forall|k: int| 0 <= k < after.len() implies (#[trigger] after[k]).len() == 1
            && exists|i: int| 0 <= i < n && #[trigger] indices[i] == after[k][0] by {
            if k < before.len() {
                assert(after[k] == before[k]);
            } else {
                assert(indices[n - 1] == after[k][0]);
            }
        }
        assert forall|k: int, m: int|
            0 <= k < after.len() && 0 <= m < after.len() && k != m implies (#[trigger] after[k])[0]
            != (#[trigger] after[m])[0] by {
            if k < before.len() {
                assert(after[k] == before[k]);
                let i = choose|i: int|
                    0 <= i < n - 1 && #[trigger] indices[i] == before[k][0];
            }
            if m < before.len() {
                assert(after[m] == before[m]);
                let i = choose|i: int|
                    0 <= i < n - 1 && #[trigger] indices[i] == before[m][0];
            }
        }
    }
}

pub proof fn lemma_settle_clusters(all: Seq<Seq<Bounds>>, anchor: Option<usize>, rules: Rules)
    requires
        all.len() <= usize::MAX,
    ensures
        listed(settle_clusters_of(all, anchor, rules), all.len()),
{
    let stuck = misplaced_list(all, anchor, all.len());
    let free = clear_list(all, anchor, all.len());
    lemma_sorted_out(all, anchor, all.len());
    lemma_clusters_listed(all, free, rules);
    lemma_singles(all, stuck, stuck.len());
    let joined = clusters_of(all, free, rules);
    let alone = singles(all, stuck, stuck.len());
    let found = settle_clusters_of(all, anchor, rules);
    assert forall|k: int| 0 <= k < found.len() implies (#[trigger] found[k]).len() > 0
        && found[k].len() <= all.len() && distinct(found[k]) && indices_within(
        found[k],
        all.len(),
    ) by {
        if k < joined.len() {
            assert(found[k] == joined[k]);
        } else {
            let m = k - joined.len();
            assert(found[k] == alone[m]);
            let i = choose|i: int| 0 <= i < stuck.len() && stuck[i] == alone[m][0];
            assert(stuck[i] < all.len());
        }
    }
    assert forall|c: int, d: int, i: int, j: int|
        0 <= c < found.len() && 0 <= d < found.len() && c != d && 0 <= i < found[c].len() && 0 <= j
            < found[d].len() implies #[trigger] found[c][i] != #[trigger] found[d][j] by {
        if c < joined.len() {
            assert(found[c] == joined[c]);
            assert(free.contains(joined[c][i]));
        } else {
            assert(found[c] == alone[c - joined.len()]);
            let m = choose|m: int| 0 <= m < stuck.len() && stuck[m] == found[c][0];
            assert(misplaced(all, anchor, stuck[m] as int));
        }
        if d < joined.len() {
            assert(found[d] == joined[d]);
            assert(free.contains(joined[d][j]));
        } else {
            assert(found[d] == alone[d - joined.len()]);
            let m = choose|m: int| 0 <= m < stuck.len() && stuck[m] == found[d][0];
            assert(misplaced(all, anchor, stuck[m] as int));
        }
        if c < joined.len() && d >= joined.len() {
            let m = choose|m: int| 0 <= m < free.len() && free[m] == joined[c][i];
            assert(!misplaced(all, anchor, free[m] as int));
        }
        if d < joined.len() && c >= joined.len() {
            let m = choose|m: int| 0 <= m < free.len() && free[m] == joined[d][j];
            assert(!misplaced(all, anchor, free[m] as int));
        }
    }
}

fn overlaps_another(bodies: &[Body], anchor: Option<usize>, index: usize) -> (r: bool)
    requires
        index < bodies@.len(),
    ensures
        r == misplaced(shapes(bodies@), anchor, index as int),
{
    if let Some(dragged) = anchor {
        if dragged == index {
            return false;
        }
    }
    for other in 0..bodies.len()
        invariant
            index < bodies@.len(),
            anchor != Some(index),
            forall|k: int|
                0 <= k < other && k != index ==> !overlapping(
                    shapes(bodies@)[index as int],
                    #[trigger] shapes(bodies@)[k],
                ),
    {
        if other != index && bodies[index].overlaps(&bodies[other]) {
            assert(overlapping(shapes(bodies@)[index as int], shapes(bodies@)[other as int]));
            return true;
        }
    }
    false
}

pub fn settle_clusters(bodies: &[Body], anchor: Option<usize>, rules: &Rules) -> (r: Vec<
    Vec<usize>,
>)
    requires
        all_bounded(shapes(bodies@), REACH as int),
    ensures
        lists(r@) == settle_clusters_of(shapes(bodies@), anchor, *rules),
        listed(lists(r@), bodies@.len()),
{
    let ghost all = shapes(bodies@);
    let mut stuck: Vec<usize> = Vec::new();
    let mut clear: Vec<usize> = Vec::new();
    for index in 0..bodies.len()
        invariant
            all == shapes(bodies@),
            stuck@ == misplaced_list(all, anchor, index as nat),
            clear@ == clear_list(all, anchor, index as nat),
    {
        if overlaps_another(bodies, anchor, index) {
            stuck.push(index);
        } else {
            clear.push(index);
        }
    }
    let count: usize = bodies.len();
    proof {
        lemma_sorted_out(all, anchor, all.len());
    }
    let mut found = clusters(bodies, &clear, rules);
    let ghost joined = lists(found@);
    assert(joined =~= joined + singles(all, stuck@, 0));
    for i in 0..stuck.len()
        invariant
            all == shapes(bodies@),
            indices_within(stuck@, all.len()),
            lists(found@) == joined + singles(all, stuck@, i as nat),
    {
        let index: usize = stuck[i];
        assert(stuck@[i as int] < all.len());
        if !bodies[index].is_empty() {
            let ghost before = lists(found@);
            let mut alone: Vec<usize> = Vec::new();
            alone.push(index);
            found.push(alone);
            assert(alone@ =~= seq![index]);
            assert(lists(found@) =~= before.push(seq![index]));
        }
        assert(lists(found@) =~= joined + singles(all, stuck@, (i + 1) as nat));
    }
    proof {
        lemma_settle_clusters(all, anchor, *rules);
    }
    found
}

// ---- moves ----

/// Where every body stands, and how far each has been moved.
pub ghost struct Canvas {
    pub placed: Seq<Seq<Bounds>>,
    pub deltas: Seq<(int, int)>,
}

/// The canvas after the bodies in `members` moved by `delta`.
pub open spec fn shifted(c: Canvas, members: Seq<usize>, delta: Vec2I) -> Canvas {
    Canvas {
        placed: Seq::new(
            c.placed.len(),
            |i: int|
                if members.contains(i as usize) {
                    moved(c.placed[i], delta.x as int, delta.y as int)
                } else {
                    c.placed[i]
                },
        ),
        deltas: Seq::new(
            c.deltas.len(),
            |i: int|
                if members.contains(i as usize) {
                    (c.deltas[i].0 + delta.x, c.deltas[i].1 + delta.y)
                } else {
                    c.deltas[i]
                },
        ),
    }
}

/// Exact displacements as the moves are accumulated.
pub open spec fn displacements(deltas: Seq<(i64, i64)>) -> Seq<(int, int)> {
    Seq::new(deltas.len(), |i: int| (deltas[i].0 as int, deltas[i].1 as int))
}

pub open spec fn canvas_of(placed: Seq<Body>, deltas: Seq<(i64, i64)>) -> Canvas {
    Canvas { placed: shapes(placed), deltas: displacements(deltas) }
}

/// Every coordinate and displacement fits, and the bodies in `pending` can still move once.
pub open spec fn roomy(c: Canvas, pending: Seq<Seq<usize>>, cap: int) -> bool {
    &&& c.placed.len() == c.deltas.len()
    &&& c.placed.len() <= usize::MAX
    &&& all_bounded(c.placed, cap + STRIDE)
    &&& forall|i: int|
        0 <= i < c.deltas.len() ==> -(cap + STRIDE) <= (#[trigger] c.deltas[i]).0 <= cap + STRIDE
            && -(cap + STRIDE) <= c.deltas[i].1 <= cap + STRIDE
    &&& forall|k: int, i: int|
        0 <= k < pending.len() && 0 <= i < pending[k].len() ==> bounded(
            c.placed[#[trigger] pending[k][i] as int],
            cap,
        ) && -cap <= c.deltas[pending[k][i] as int].0 <= cap && -cap
            <= c.deltas[pending[k][i] as int].1 <= cap
}

/// Moves one body.
pub(crate) fn shift(placed: &mut Vec<Body>, deltas: &mut Vec<(i64, i64)>, index: usize, delta: Vec2I)
    requires
        index < old(placed)@.len(),
        old(placed)@.len() == old(deltas)@.len(),
        bounded(old(placed)@[index as int]@, REACH as int),
        -REACH <= old(deltas)@[index as int].0 <= REACH,
        -REACH <= old(deltas)@[index as int].1 <= REACH,
    ensures
        canvas_of(final(placed)@, final(deltas)@) == shifted(
            canvas_of(old(placed)@, old(deltas)@),
            seq![index],
            delta,
        ),
        final(placed)@.len() == old(placed)@.len(),
        final(deltas)@.len() == old(deltas)@.len(),
{
    assert(bounded(placed@[index as int]@, i64::MAX - 0x8000_0000)) by {
        assert forall|i: int| 0 <= i < placed@[index as int]@.len() implies (
        #[trigger] placed@[index as int]@[i]).bounded(i64::MAX - 0x8000_0000) by {
            assert(placed@[index as int]@[i].bounded(REACH as int));
        }
    }
    let count: usize = placed.len();
    let body = placed[index].shifted(delta);
    let (x, y) = deltas[index];
    placed.set(index, body);
    deltas.set(index, (x + delta.x as i64, y + delta.y as i64));
    proof {
        let after = shifted(canvas_of(old(placed)@, old(deltas)@), seq![index], delta);
        assert(seq![index][0] == index);
        assert(seq![index].contains(index));
        assert forall|b: int| 0 <= b < count && b != index implies !seq![index].contains(
            #[trigger] (b as usize),
        ) by {}
        assert(canvas_of(placed@, deltas@).placed =~= after.placed);
        assert(canvas_of(placed@, deltas@).deltas =~= after.deltas);
    }
}

pub(crate) proof fn lemma_moved_bounded(shape: Seq<Bounds>, delta: Vec2I, cap: int)
    requires
        bounded(shape, cap),
        cap + STRIDE <= REACH,
    ensures
        bounded(moved(shape, delta.x as int, delta.y as int), cap + STRIDE),
{
    assert forall|i: int| 0 <= i < shape.len() implies (#[trigger] moved(
        shape,
        delta.x as int,
        delta.y as int,
    )[i]).bounded(cap + STRIDE) by {
        assert(shape[i].bounded(cap));
    }
}

/// Moves the bodies of a cluster.
pub(crate) fn shift_cluster(
    placed: &mut Vec<Body>,
    deltas: &mut Vec<(i64, i64)>,
    cluster: &Vec<usize>,
    delta: Vec2I,
    Ghost(cap): Ghost<int>,
)
    requires
        distinct(cluster@),
        indices_within(cluster@, old(placed)@.len()),
        roomy(canvas_of(old(placed)@, old(deltas)@), seq![cluster@], cap),
        0 <= cap,
        cap + STRIDE <= REACH,
    ensures
        canvas_of(final(placed)@, final(deltas)@) == shifted(
            canvas_of(old(placed)@, old(deltas)@),
            cluster@,
            delta,
        ),
        final(placed)@.len() == old(placed)@.len(),
        final(deltas)@.len() == old(deltas)@.len(),
        roomy(canvas_of(final(placed)@, final(deltas)@), Seq::empty(), cap),
{
    let ghost start = canvas_of(placed@, deltas@);
    assert(shifted(start, cluster@.take(0), delta).placed =~= start.placed);
    assert(shifted(start, cluster@.take(0), delta).deltas =~= start.deltas);
    for i in 0..cluster.len()
        invariant
            distinct(cluster@),
            indices_within(cluster@, placed@.len()),
            placed@.len() == deltas@.len(),
            placed@.len() == start.placed.len(),
            roomy(start, seq![cluster@], cap),
            0 <= cap,
            cap + STRIDE <= REACH,
            canvas_of(placed@, deltas@) == shifted(start, cluster@.take(i as int), delta),
    {
        let member: usize = cluster[i];
        assert(cluster@[i as int] < placed@.len());
        let ghost now = canvas_of(placed@, deltas@);
        let ghost head = cluster@.take(i as int);
        proof {
            assert(!head.contains(member)) by {
                if head.contains(member) {
                    let j = choose|j: int| 0 <= j < head.len() && head[j] == member;
                    assert(cluster@[j] == cluster@[i as int]);
                }
            }
            assert(seq![cluster@][0][i as int] == member);
            assert(bounded(start.placed[member as int], cap));
            assert(now.placed[member as int] == start.placed[member as int]);
            assert(now.deltas[member as int] == start.deltas[member as int]);
            assert(placed@[member as int]@ == now.placed[member as int]);
            assert forall|r: int| 0 <= r < placed@[member as int]@.len() implies (
            #[trigger] placed@[member as int]@[r]).bounded(REACH as int) by {
                assert(start.placed[member as int][r].bounded(cap));
            }
            assert(now.deltas[member as int].0 == deltas@[member as int].0);
        }
        shift(placed, deltas, member, delta);
        proof {
            let next = cluster@.take(i + 1);
            let after = canvas_of(placed@, deltas@);
            assert(seq![member][0] == member);
            assert forall|b: int| 0 <= b < start.placed.len() implies next.contains(b as usize) == (
            head.contains(b as usize) || #[trigger] seq![member].contains(b as usize)) by {
                if next.contains(b as usize) {
                    let j = choose|j: int| 0 <= j < next.len() && next[j] == b as usize;
                    if j < i {
                        assert(head[j] == b as usize);
                    } else {
                        assert(seq![member][0] == b as usize);
                    }
                }
                if head.contains(b as usize) {
                    let j = choose|j: int| 0 <= j < head.len() && head[j] == b as usize;
                    assert(next[j] == b as usize);
                }
                if seq![member].contains(b as usize) {
                    assert(next[i as int] == b as usize);
                }
            }
            assert(after.placed =~= shifted(start, next, delta).placed);
            assert(after.deltas =~= shifted(start, next, delta).deltas);
        }
    }
    assert(cluster@.take(cluster@.len() as int) =~= cluster@);
    proof {
        let after = canvas_of(placed@, deltas@);
        assert forall|b: int| 0 <= b < after.placed.len() implies bounded(
            #[trigger] after.placed[b],
            cap + STRIDE,
        ) && -(cap + STRIDE) <= after.deltas[b].0 <= cap + STRIDE && -(cap + STRIDE)
            <= after.deltas[b].1 <= cap + STRIDE by {
            assert(bounded(start.placed[b], cap + STRIDE));
            assert(-(cap + STRIDE) <= start.deltas[b].0 <= cap + STRIDE);
            if cluster@.contains(b as usize) {
                let j = choose|j: int| 0 <= j < cluster@.len() && cluster@[j] == b as usize;
                assert(seq![cluster@][0][j] == b as usize);
                lemma_moved_bounded(start.placed[b], delta, cap);
            }
        }
        assert forall|b: int| 0 <= b < after.deltas.len() implies -(cap + STRIDE) <= (
        #[trigger] after.deltas[b]).0 <= cap + STRIDE && -(cap + STRIDE) <= after.deltas[b].1 <= cap
            + STRIDE by {
            assert(bounded(after.placed[b], cap + STRIDE));
        }
    }
}

/// The displays of the bodies in a list, taken together.
pub open spec fn merged_shape(all: Seq<Seq<Bounds>>, list: Seq<usize>) -> Seq<Bounds>
    decreases list.len(),
{
    if list.len() == 0 {
        Seq::empty()
    } else {
        merged_shape(all, list.drop_last()) + all[list.last() as int]
    }
}

impl Body {
    pub fn merged(bodies: &[Body], members: &[usize]) -> (r: Self)
        requires
            indices_within(members@, bodies@.len()),
        ensures
            r@ == merged_shape(shapes(bodies@), members@),
    {
        let ghost all = shapes(bodies@);
        let mut rects: Vec<Bounds> = Vec::new();
        for i in 0..members.len()
            invariant
                all == shapes(bodies@),
                indices_within(members@, bodies@.len()),
                rects@ == merged_shape(all, members@.take(i as int)),
        {
            let index: usize = members[i];
            assert(members@[i as int] < bodies@.len());
            let body = &bodies[index];
            let ghost before = rects@;
            for j in 0..body.rects.len()
                invariant
                    rects@ == before + body@.take(j as int),
            {
                rects.push(body.rects[j]);
                assert(rects@ =~= before + body@.take(j + 1));
            }
            assert(body@.take(body@.len() as int) =~= body@);
            assert(members@.take(i + 1).drop_last() =~= members@.take(i as int));
            assert(body@ == all[index as int]);
        }
        assert(members@.take(members@.len() as int) =~= members@);
        Body { rects }
    }
}

pub(crate) proof fn lemma_merged(all: Seq<Seq<Bounds>>, list: Seq<usize>, reach: int)
    requires
        indices_within(list, all.len()),
        forall|i: int| 0 <= i < list.len() ==> bounded(all[#[trigger] list[i] as int], reach),
    ensures
        bounded(merged_shape(all, list), reach),
    decreases list.len(),
{
    if list.len() > 0 {
        let rest = list.drop_last();
        assert forall|i: int| 0 <= i < rest.len() implies bounded(
            all[#[trigger] rest[i] as int],
            reach,
        ) && rest[i] < all.len() by {
            assert(rest[i] == list[i]);
        }
        lemma_merged(all, rest, reach);
        let last = list.len() - 1;
        assert(list[last] < all.len());
        assert(bounded(all[list[last] as int], reach));
        let whole = merged_shape(all, list);
        let head = merged_shape(all, rest);
        assert forall|i: int| 0 <= i < whole.len() implies (#[trigger] whole[i]).bounded(reach) by {
            if i < head.len() {
                assert(whole[i] == head[i]);
            } else {
                assert(whole[i] == all[list[last] as int][i - head.len()]);
            }
        }
    }
}

/// Area of `vacated` that a shape covers, rectangle by rectangle.
pub open spec fn covered(shape: Seq<Bounds>, vacated: Bounds) -> int
    decreases shape.len(),
{
    if shape.len() == 0 {
        0
    } else {
        covered(shape.drop_last(), vacated) + (if shape.last().crosses(vacated) {
            shape.last().shared(vacated).extent()
        } else {
            0
        })
    }
}

/// The shape covers three quarters of the vacated footprint, or of itself if that is less.
pub open spec fn fills(shape: Seq<Bounds>, vacated: Bounds) -> bool {
    covered(shape, vacated) * 4 >= min_int(extent_of(shape), vacated.extent()) * 3
}

/// A cluster closes the gap when its displays, after the move, fill most of the vacated
/// footprint (three quarters of whichever is smaller) rather than grazing or merely
/// surrounding it.
pub fn closes_gap(landed: &Body, vacated: Bounds) -> (r: bool)
    requires
        bounded(landed@, REACH as int),
        vacated.bounded(REACH as int),
    ensures
        r == fills(landed@, vacated),
{
    let mut total = Area::zero();
    for i in 0..landed.rects.len()
        invariant
            bounded(landed@, REACH as int),
            vacated.bounded(REACH as int),
            total.wf(),
            total.value() == covered(landed@.take(i as int), vacated),
            -(i * 0x100_0000_0000_0000_0000) <= total.value() <= i * 0x100_0000_0000_0000_0000,
    {
        assert(landed@[i as int].bounded(REACH as int));
        assert(landed@.take(i + 1).drop_last() =~= landed@.take(i as int));
        if let Some(common) = landed.rects[i].intersection(vacated) {
            proof {
                lemma_extent_bounded(common);
            }
            total = total.with(common.area());
        }
    }
    assert(landed@.take(landed@.len() as int) =~= landed@);
    proof {
        lemma_extent_bounded(vacated);
    }
    let own = landed.area();
    let gap = Area::zero().with(vacated.area());
    let least = if own.exceeds(gap) {
        gap
    } else {
        own
    };
    let twice = total.plus(total);
    !least.plus(least).plus(least).exceeds(twice.plus(twice))
}

/// The first `n` bodies, but those in `list`.
pub open spec fn outsiders(list: Seq<usize>, n: nat) -> Seq<usize>
    decreases n,
{
    if n == 0 {
        Seq::empty()
    } else {
        let before = outsiders(list, (n - 1) as nat);
        if list.contains((n - 1) as usize) {
            before
        } else {
            before.push((n - 1) as usize)
        }
    }
}

/// The bodies that block a cluster on its way: every body outside it, or where it joins
/// `loose`ly only those that stand.
pub open spec fn obstacles(cluster: Seq<usize>, settled: Seq<usize>, n: nat, loose: bool) -> Seq<
    usize,
> {
    if loose {
        settled
    } else {
        outsiders(cluster, n)
    }
}

/// Smallest move resting the bodies in `cluster` against `settled`, blocked by every body
/// outside the cluster, or where it joins `loose`ly by those that stand.
pub open spec fn reattachment(
    placed: Seq<Seq<Bounds>>,
    cluster: Seq<usize>,
    settled: Seq<usize>,
    rules: Rules,
    loose: bool,
) -> Option<Placement> {
    let merged = merged_shape(placed, cluster);
    if merged.len() == 0 {
        None
    } else {
        placement_of(
            Scene {
                moving: merged,
                blocking: picked(placed, obstacles(cluster, settled, placed.len(), loose)),
                rules,
                desired: Vec2I { x: 0, y: 0 },
            },
            picked(placed, settled),
            None,
        )
    }
}

pub(crate) fn holds(list: &[usize], index: usize) -> (r: bool)
    ensures
        r == list@.contains(index),
{
    for i in 0..list.len()
        invariant
            forall|j: int| 0 <= j < i ==> list@[j] != index,
    {
        if list[i] == index {
            assert(list@[i as int] == index);
            return true;
        }
    }
    false
}

/// Smallest move resting `merged` (the bodies in `cluster`) against `settled`, blocked
/// by every body outside the cluster, or `loose`ly by those that stand.
pub(crate) fn reattach(
    merged: &Body,
    cluster: &[usize],
    settled: &[usize],
    placed: &[Body],
    rules: &Rules,
    loose: bool,
) -> (r: Option<Placement>)
    requires
        rules.bounded(),
        merged@ == merged_shape(shapes(placed@), cluster@),
        bounded(merged@, REACH as int),
        all_bounded(shapes(placed@), REACH as int),
        indices_within(cluster@, placed@.len()),
        indices_within(settled@, placed@.len()),
    ensures
        r == reattachment(shapes(placed@), cluster@, settled@, *rules, loose),
{
    if loose {
        return attach(merged, Vec2I { x: 0, y: 0 }, placed, settled, settled, rules, None);
    }
    let mut blocking: Vec<usize> = Vec::new();
    for member in 0..placed.len()
        invariant
            blocking@ == outsiders(cluster@, member as nat),
            indices_within(blocking@, member as nat),
    {
        if !holds(cluster, member) {
            blocking.push(member);
        }
    }
    attach(merged, Vec2I { x: 0, y: 0 }, placed, settled, &blocking, rules, None)
}

/// Square of how far a move goes.
pub open spec fn move_square(delta: Vec2I) -> int {
    delta.x * delta.x + delta.y * delta.y
}

fn move_length(delta: Vec2I) -> (r: i128)
    ensures
        r == move_square(delta),
{
    assert(0 <= delta.x * delta.x <= 0x4000_0000_0000_0000 && 0 <= delta.y * delta.y
        <= 0x4000_0000_0000_0000) by (nonlinear_arith)
        requires
            -0x8000_0000 <= delta.x <= 0x7fff_ffff,
            -0x8000_0000 <= delta.y <= 0x7fff_ffff,
    ;
    delta.x as i128 * delta.x as i128 + delta.y as i128 * delta.y as i128
}

/// Which of the first `n` pending clusters joins `settled` with the shortest move, and that
/// move; with a `gap`, only clusters that close it count. The earliest wins ties.
pub open spec fn nearest_join(
    placed: Seq<Seq<Bounds>>,
    pending: Seq<Seq<usize>>,
    settled: Seq<usize>,
    rules: Rules,
    gap: Option<Bounds>,
    loose: bool,
    n: nat,
) -> Option<(int, Vec2I)>
    decreases n,
{
    if n == 0 {
        None
    } else {
        let before = nearest_join(placed, pending, settled, rules, gap, loose, (n - 1) as nat);
        match reattachment(placed, pending[n - 1], settled, rules, loose) {
            Some(placement) => if (gap matches Some(vacated) ==> fills(
                moved(
                    merged_shape(placed, pending[n - 1]),
                    placement.delta.x as int,
                    placement.delta.y as int,
                ),
                vacated,
            )) && (before matches Some((_, best)) ==> move_square(placement.delta) < move_square(best)) {
                Some((n - 1, placement.delta))
            } else {
                before
            },
            None => before,
        }
    }
}

fn find_join(
    placed: &[Body],
    pending: &Vec<Vec<usize>>,
    settled: &[usize],
    rules: &Rules,
    gap: Option<Bounds>,
    loose: bool,
) -> (r: Option<(usize, Vec2I)>)
    requires
        rules.bounded(),
        all_bounded(shapes(placed@), REACH - STRIDE),
        listed(lists(pending@), placed@.len()),
        indices_within(settled@, placed@.len()),
        gap matches Some(vacated) ==> vacated.bounded(REACH as int),
    ensures
        r matches Some((index, delta)) ==> index < pending@.len() && nearest_join(
            shapes(placed@),
            lists(pending@),
            settled@,
            *rules,
            gap,
            loose,
            pending@.len(),
        ) == Some((index as int, delta)),
        r is None ==> nearest_join(
            shapes(placed@),
            lists(pending@),
            settled@,
            *rules,
            gap,
            loose,
            pending@.len(),
        ) is None,
{
    let ghost all = shapes(placed@);
    let mut nearest: Option<(usize, Vec2I)> = None;
    assert(all_bounded(all, REACH as int)) by {
        assert forall|i: int| 0 <= i < all.len() implies bounded(#[trigger] all[i], REACH as int) by {
            assert(bounded(all[i], REACH - STRIDE));
            assert forall|k: int| 0 <= k < all[i].len() implies (#[trigger] all[i][k]).bounded(
                REACH as int,
            ) by {
                assert(all[i][k].bounded(REACH - STRIDE));
            }
        }
    }
    for i in 0..pending.len()
        invariant
            rules.bounded(),
            all == shapes(placed@),
            all_bounded(all, REACH as int),
            all_bounded(all, REACH - STRIDE),
            listed(lists(pending@), placed@.len()),
            indices_within(settled@, placed@.len()),
            gap matches Some(vacated) ==> vacated.bounded(REACH as int),
            nearest matches Some((index, delta)) ==> index < i && nearest_join(
                all,
                lists(pending@),
                settled@,
                *rules,
                gap,
                loose,
                i as nat,
            ) == Some((index as int, delta)),
            nearest is None ==> nearest_join(
                all,
                lists(pending@),
                settled@,
                *rules,
                gap,
                loose,
                i as nat,
            ) is None,
    {
        let cluster = &pending[i];
        assert(lists(pending@)[i as int] == cluster@);
        let merged = Body::merged(placed, cluster);
        proof {
            assert forall|k: int| 0 <= k < cluster@.len() implies bounded(
                all[#[trigger] cluster@[k] as int],
                REACH - STRIDE,
            ) by {
                assert(cluster@[k] < placed@.len());
            }
            lemma_merged(all, cluster@, REACH - STRIDE);
            assert forall|k: int| 0 <= k < merged@.len() implies (#[trigger] merged@[k]).bounded(
                REACH as int,
            ) && merged@[k].bounded(i64::MAX - 0x8000_0000) by {
                assert(merged@[k].bounded(REACH - STRIDE));
            }
        }
        if let Some(placement) = reattach(&merged, cluster, settled, placed, rules, loose) {
            let closes: bool = match gap {
                Some(vacated) => {
                    proof {
                        lemma_moved_bounded(merged@, placement.delta, REACH - STRIDE);
                    }
                    closes_gap(&merged.shifted(placement.delta), vacated)
                },
                None => true,
            };
            let nearer: bool = match &nearest {
                Some((_, best)) => move_length(placement.delta) < move_length(*best),
                None => true,
            };
            if closes && nearer {
                nearest = Some((i, placement.delta));
            }
        }
    }
    nearest
}

// ---- joining clusters ----

/// Clusters on their way to one arrangement: those still apart, and the bodies that stand.
pub ghost struct Joining {
    pub canvas: Canvas,
    pub pending: Seq<Seq<usize>>,
    pub settled: Seq<usize>,
}

/// A list without its entry at `index`, whose place the last entry takes.
pub open spec fn taken_out<A>(list: Seq<A>, index: int) -> Seq<A> {
    list.update(index, list.last()).drop_last()
}

/// The pending cluster at `index` moves by `delta` and stands from then on.
pub open spec fn join_one(j: Joining, index: int, delta: Vec2I) -> Joining {
    Joining {
        canvas: shifted(j.canvas, j.pending[index], delta),
        pending: taken_out(j.pending, index),
        settled: j.settled + j.pending[index],
    }
}

/// Which cluster joins next, and its move. Where no cluster has a place clear of all others
/// and every one has to join, the nearest joins clear of those that stand: the rest moves
/// later.
pub open spec fn next_join(
    j: Joining,
    fixed: Option<Seq<usize>>,
    rules: Rules,
    gap: Option<Bounds>,
) -> Option<(int, Vec2I)> {
    let n = j.pending.len();
    match fixed {
        Some(stationary) => nearest_join(
            j.canvas.placed,
            j.pending,
            stationary,
            rules,
            gap,
            false,
            n,
        ),
        None => match nearest_join(j.canvas.placed, j.pending, j.settled, rules, gap, false, n) {
            Some(found) => Some(found),
            None => nearest_join(j.canvas.placed, j.pending, j.settled, rules, gap, true, n),
        },
    }
}

/// Clusters join one by one, nearest first, each with its smallest legal move, until none
/// can; each joins `fixed`, or whatever stands by then. With a `gap`, only clusters that
/// close it join.
pub open spec fn join_all(
    j: Joining,
    fixed: Option<Seq<usize>>,
    rules: Rules,
    gap: Option<Bounds>,
) -> Joining
    decreases j.pending.len(),
{
    match next_join(j, fixed, rules, gap) {
        Some((index, delta)) => if 0 <= index < j.pending.len() {
            join_all(join_one(j, index, delta), fixed, rules, gap)
        } else {
            j
        },
        None => j,
    }
}

pub(crate) proof fn lemma_taken_out(pending: Seq<Seq<usize>>, index: int, len: nat)
    requires
        listed(pending, len),
        0 <= index < pending.len(),
    ensures
        listed(taken_out(pending, index), len),
        forall|k: int, i: int|
            0 <= k < taken_out(pending, index).len() && 0 <= i < taken_out(pending, index)[k].len()
                ==> !pending[index].contains(#[trigger] taken_out(pending, index)[k][i]),
        forall|k: int|
            0 <= k < taken_out(pending, index).len() ==> exists|m: int|
                0 <= m < pending.len() && m != index && #[trigger] pending[m] == (
                #[trigger] taken_out(pending, index)[k]),
{
    let rest = taken_out(pending, index);
    let last = pending.len() - 1;
    assert forall|k: int| 0 <= k < rest.len() implies #[trigger] rest[k] == pending[if k == index {
        last
    } else {
        k
    }] by {}
    assert forall|k: int| 0 <= k < rest.len() implies exists|m: int|
        0 <= m < pending.len() && m != index && #[trigger] pending[m] == (#[trigger] rest[k]) by {
        let m = if k == index {
            last
        } else {
            k
        };
        assert(pending[m] == rest[k]);
    }
    assert forall|k: int| 0 <= k < rest.len() implies (#[trigger] rest[k]).len() > 0
        && rest[k].len() <= len && distinct(rest[k]) && indices_within(rest[k], len) by {
        let m = if k == index {
            last
        } else {
            k
        };
        assert(rest[k] == pending[m]);
    }
    assert forall|c: int, d: int, i: int, j: int|
        0 <= c < rest.len() && 0 <= d < rest.len() && c != d && 0 <= i < rest[c].len() && 0 <= j
            < rest[d].len() implies #[trigger] rest[c][i] != #[trigger] rest[d][j] by {
        let m = if c == index {
            last
        } else {
            c
        };
        let n = if d == index {
            last
        } else {
            d
        };
        assert(rest[c][i] == pending[m][i]);
        assert(rest[d][j] == pending[n][j]);
    }
    assert forall|k: int, i: int|
        0 <= k < rest.len() && 0 <= i < rest[k].len() implies !pending[index].contains(
        #[trigger] rest[k][i],
    ) by {
        let m = if k == index {
            last
        } else {
            k
        };
        assert(rest[k][i] == pending[m][i]);
        if pending[index].contains(rest[k][i]) {
            let n = choose|n: int|
                0 <= n < pending[index].len() && pending[index][n] == rest[k][i];
            assert(pending[index][n] == pending[m][i]);
        }
    }
}

/// Room is kept for the clusters that remain when one has moved.
pub(crate) proof fn lemma_room_kept(
    before: Canvas,
    after: Canvas,
    pending: Seq<Seq<usize>>,
    index: int,
    delta: Vec2I,
    cap: int,
)
    requires
        roomy(before, pending, cap),
        roomy(after, Seq::empty(), cap),
        listed(pending, before.placed.len()),
        before.placed.len() <= usize::MAX,
        0 <= index < pending.len(),
        after == shifted(before, pending[index], delta),
    ensures
        roomy(after, taken_out(pending, index), cap),
{
    lemma_taken_out(pending, index, before.placed.len());
    let rest = taken_out(pending, index);
    assert forall|k: int, i: int| 0 <= k < rest.len() && 0 <= i < rest[k].len() implies bounded(
        after.placed[#[trigger] rest[k][i] as int],
        cap,
    ) && -cap <= after.deltas[rest[k][i] as int].0 <= cap && -cap
        <= after.deltas[rest[k][i] as int].1 <= cap by {
        let m = choose|m: int|
            0 <= m < pending.len() && m != index && #[trigger] pending[m] == rest[k];
        assert(indices_within(pending[m], before.placed.len()));
        assert(pending[m][i] == rest[k][i]);
        assert(rest[k][i] < before.placed.len());
        assert(!pending[index].contains(rest[k][i]));
    }
}

pub(crate) fn append_list(list: &mut Vec<usize>, more: &Vec<usize>)
    ensures
        final(list)@ == old(list)@ + more@,
{
    let ghost before = list@;
    for i in 0..more.len()
        invariant
            list@ == before + more@.take(i as int),
    {
        list.push(more[i]);
        assert(list@ =~= before + more@.take(i + 1));
    }
    assert(more@.take(more@.len() as int) =~= more@);
}

/// Lets clusters join until none can. True when one did.
pub(crate) fn join_clusters(
    placed: &mut Vec<Body>,
    deltas: &mut Vec<(i64, i64)>,
    pending: &mut Vec<Vec<usize>>,
    settled: &mut Vec<usize>,
    fixed: &Option<Vec<usize>>,
    rules: &Rules,
    gap: Option<Bounds>,
    Ghost(cap): Ghost<int>,
) -> (r: bool)
    requires
        rules.bounded(),
        0 <= cap,
        cap + 2 * STRIDE <= REACH,
        roomy(canvas_of(old(placed)@, old(deltas)@), lists(old(pending)@), cap),
        listed(lists(old(pending)@), old(placed)@.len()),
        indices_within(old(settled)@, old(placed)@.len()),
        fixed matches Some(stationary) ==> indices_within(stationary@, old(placed)@.len()),
        gap matches Some(vacated) ==> vacated.bounded(REACH as int),
    ensures
        (Joining {
            canvas: canvas_of(final(placed)@, final(deltas)@),
            pending: lists(final(pending)@),
            settled: final(settled)@,
        }) == join_all(
            Joining {
                canvas: canvas_of(old(placed)@, old(deltas)@),
                pending: lists(old(pending)@),
                settled: old(settled)@,
            },
            match fixed {
                Some(stationary) => Some(stationary@),
                None => None,
            },
            *rules,
            gap,
        ),
        r == (final(pending)@.len() < old(pending)@.len()),
        final(placed)@.len() == old(placed)@.len(),
        final(deltas)@.len() == old(deltas)@.len(),
        roomy(canvas_of(final(placed)@, final(deltas)@), lists(final(pending)@), cap),
        listed(lists(final(pending)@), final(placed)@.len()),
        indices_within(final(settled)@, final(placed)@.len()),
{
    let count: usize = placed.len();
    let ghost anchors: Option<Seq<usize>> = match fixed {
        Some(stationary) => Some(stationary@),
        None => None,
    };
    let ghost whole = join_all(
        Joining {
            canvas: canvas_of(placed@, deltas@),
            pending: lists(pending@),
            settled: settled@,
        },
        anchors,
        *rules,
        gap,
    );
    let start: usize = pending.len();
    let mut done: bool = false;
    while !done
        invariant
            rules.bounded(),
            0 <= cap,
            cap + 2 * STRIDE <= REACH,
            count == placed@.len(),
            placed@.len() == old(placed)@.len(),
            deltas@.len() == old(deltas)@.len(),
            pending@.len() <= start,
            roomy(canvas_of(placed@, deltas@), lists(pending@), cap),
            listed(lists(pending@), placed@.len()),
            indices_within(settled@, placed@.len()),
            fixed matches Some(stationary) ==> indices_within(stationary@, placed@.len()),
            gap matches Some(vacated) ==> vacated.bounded(REACH as int),
            anchors == (match fixed {
                Some(stationary) => Some(stationary@),
                None => None,
            }),
            !done ==> whole == join_all(
                Joining {
                    canvas: canvas_of(placed@, deltas@),
                    pending: lists(pending@),
                    settled: settled@,
                },
                anchors,
                *rules,
                gap,
            ),
            done ==> whole == (Joining {
                canvas: canvas_of(placed@, deltas@),
                pending: lists(pending@),
                settled: settled@,
            }),
        decreases pending@.len() + (if done {
            0int
        } else {
            1int
        }),
    {
        let ghost now = Joining {
            canvas: canvas_of(placed@, deltas@),
            pending: lists(pending@),
            settled: settled@,
        };
        proof {
            assert forall|i: int| 0 <= i < now.canvas.placed.len() implies bounded(
                #[trigger] now.canvas.placed[i],
                REACH - STRIDE,
            ) by {
                assert(bounded(now.canvas.placed[i], cap + STRIDE));
                assert forall|k: int| 0 <= k < now.canvas.placed[i].len() implies (
                #[trigger] now.canvas.placed[i][k]).bounded(REACH - STRIDE) by {
                    assert(now.canvas.placed[i][k].bounded(cap + STRIDE));
                }
            }
        }
        let found = match fixed {
            Some(stationary) => find_join(placed, pending, stationary, rules, gap, false),
            None => match find_join(placed, pending, settled, rules, gap, false) {
                Some(found) => Some(found),
                None => find_join(placed, pending, settled, rules, gap, true),
            },
        };
        assert(match found {
            Some((index, delta)) => next_join(now, anchors, *rules, gap) == Some(
                (index as int, delta),
            ),
            None => next_join(now, anchors, *rules, gap) is None,
        });
        match found {
            Some((index, delta)) => {
                let cluster = pending.swap_remove(index);
                proof {
                    assert(now.pending[index as int] == cluster@);
                    assert(lists(pending@) =~= taken_out(now.pending, index as int));
                    assert forall|k: int, i: int|
                        0 <= k < seq![cluster@].len() && 0 <= i < seq![cluster@][k].len() implies
                        bounded(now.canvas.placed[#[trigger] seq![cluster@][k][i] as int], cap)
                        && -cap <= now.canvas.deltas[seq![cluster@][k][i] as int].0 <= cap && -cap
                        <= now.canvas.deltas[seq![cluster@][k][i] as int].1 <= cap by {
                        assert(seq![cluster@][k][i] == now.pending[index as int][i]);
                    }
                }
                shift_cluster(placed, deltas, &cluster, delta, Ghost(cap));
                proof {
                    lemma_room_kept(
                        now.canvas,
                        canvas_of(placed@, deltas@),
                        now.pending,
                        index as int,
                        delta,
                        cap,
                    );
                    lemma_taken_out(now.pending, index as int, placed@.len());
                }
                append_list(settled, &cluster);
                assert(indices_within(settled@, placed@.len())) by {
                    assert forall|i: int| 0 <= i < settled@.len() implies (#[trigger] settled@[i])
                        < placed@.len() by {
                        if i < now.settled.len() {
                            assert(settled@[i] == now.settled[i]);
                        } else {
                            assert(settled@[i] == cluster@[i - now.settled.len()]);
                        }
                    }
                }
            },
            None => {
                done = true;
            },
        }
    }
    pending.len() < start
}

/// A canvas on which nothing has moved yet.
pub open spec fn at_rest(all: Seq<Seq<Bounds>>) -> Canvas {
    Canvas { placed: all, deltas: Seq::new(all.len(), |i: int| (0int, 0int)) }
}

/// Displacements as translations.
pub open spec fn as_translations(deltas: Seq<(int, int)>) -> Seq<Vec2I> {
    Seq::new(deltas.len(), |i: int| Vec2I { x: clamp_i32(deltas[i].0), y: clamp_i32(deltas[i].1) })
}

/// The canvas once the largest cluster stays put and every other cluster has joined it.
pub open spec fn joined_canvas(all: Seq<Seq<Bounds>>, rules: Rules) -> Canvas {
    let pending = settle_clusters_of(all, None, rules);
    match largest_index(all, pending, pending.len()) {
        Some(best) => join_all(
            Joining {
                canvas: at_rest(all),
                pending: taken_out(pending, best),
                settled: pending[best],
            },
            None,
            rules,
            None,
        ).canvas,
        None => at_rest(all),
    }
}

pub(crate) fn translations(deltas: &Vec<(i64, i64)>) -> (r: Vec<Vec2I>)
    ensures
        r@ == as_translations(displacements(deltas@)),
{
    let mut out: Vec<Vec2I> = Vec::new();
    for i in 0..deltas.len()
        invariant
            out@ =~= as_translations(displacements(deltas@)).take(i as int),
    {
        let (x, y) = deltas[i];
        out.push(Vec2I { x: to_i32(x), y: to_i32(y) });
    }
    out
}

/// Copies of the bodies, with no displacement yet.
pub(crate) fn copy_bodies(bodies: &[Body]) -> (r: (Vec<Body>, Vec<(i64, i64)>))
    ensures
        canvas_of(r.0@, r.1@) == at_rest(shapes(bodies@)),
        r.0@.len() == bodies@.len(),
        r.1@.len() == bodies@.len(),
{
    let mut placed: Vec<Body> = Vec::new();
    let mut deltas: Vec<(i64, i64)> = Vec::new();
    for i in 0..bodies.len()
        invariant
            placed@.len() == i,
            deltas@.len() == i,
            forall|k: int| 0 <= k < i ==> (#[trigger] placed@[k])@ == bodies@[k]@,
            forall|k: int| 0 <= k < i ==> (#[trigger] deltas@[k]) == (0i64, 0i64),
    {
        placed.push(bodies[i].clone());
        deltas.push((0, 0));
    }
    assert(shapes(placed@) =~= shapes(bodies@));
    assert(displacements(deltas@) =~= at_rest(shapes(bodies@)).deltas);
    (placed, deltas)
}

pub(crate) proof fn lemma_arrangeable(all: Seq<Seq<Bounds>>, pending: Seq<Seq<usize>>, cap: int)
    requires
        all.len() <= usize::MAX,
        all_bounded(all, cap),
        0 <= cap,
        listed(pending, all.len()),
    ensures
        roomy(at_rest(all), pending, cap),
{
    assert forall|i: int| 0 <= i < all.len() implies bounded(#[trigger] all[i], cap + STRIDE) by {
        assert(bounded(all[i], cap));
        assert forall|k: int| 0 <= k < all[i].len() implies (#[trigger] all[i][k]).bounded(
            cap + STRIDE,
        ) by {
            assert(all[i][k].bounded(cap));
        }
    }
    assert forall|k: int, i: int| 0 <= k < pending.len() && 0 <= i < pending[k].len() implies bounded(
        all[#[trigger] pending[k][i] as int],
        cap,
    ) by {
        assert(indices_within(pending[k], all.len()));
    }
}

pub(crate) proof fn lemma_wider(all: Seq<Seq<Bounds>>, near: int, far: int)
    requires
        all_bounded(all, near),
        near <= far,
    ensures
        all_bounded(all, far),
{
    assert forall|i: int| 0 <= i < all.len() implies bounded(#[trigger] all[i], far) by {
        assert(bounded(all[i], near));
        assert forall|k: int| 0 <= k < all[i].len() implies (#[trigger] all[i][k]).bounded(far) by {
            assert(all[i][k].bounded(near));
        }
    }
}

/// Translation per body that turns any arrangement into one connected, overlap-free
/// cluster: the largest cluster stays put and every other cluster joins it, nearest
/// first, each with its smallest legal move. A cluster that finds no place clear of those
/// still to come takes one clear of those that stand.
pub fn normalize(bodies: &[Body], rules: &Rules) -> (r: Vec<Vec2I>)
    requires
        rules.bounded(),
        arrangeable(shapes(bodies@)),
    ensures
        r@ == as_translations(joined_canvas(shapes(bodies@), *rules).deltas),
{
    let ghost all = shapes(bodies@);
    let (mut placed, mut deltas) = copy_bodies(bodies);
    proof {
        lemma_wider(all, CANVAS as int, REACH as int);
    }
    let mut pending = settle_clusters(&placed, None, rules);
    let best = match find_largest(&placed, &pending) {
        Some(best) => best,
        None => {
            assert(lists(pending@).len() == 0);
            return translations(&deltas);
        },
    };
    let ghost given = lists(pending@);
    let mut settled = pending.swap_remove(best);
    proof {
        assert(given[best as int] == settled@);
        assert(lists(pending@) =~= taken_out(given, best as int));
        lemma_taken_out(given, best as int, all.len());
        lemma_arrangeable(all, lists(pending@), CANVAS as int);
    }
    let moved_any: bool = join_clusters(
        &mut placed,
        &mut deltas,
        &mut pending,
        &mut settled,
        &None,
        rules,
        None,
        Ghost(CANVAS as int),
    );
    translations(&deltas)
}

/// Every shared boundary segment of at least `min_len` between two bodies.
pub open spec fn seam_between(
    a: int,
    b: int,
    rect: Bounds,
    other: Bounds,
    min_len: int,
) -> Option<SeamSegment> {
    match shared_edge_of(rect, other) {
        Some((side, at, span)) => if span.length() < min_len {
            None
        } else if side.is_vertical() {
            Some(
                SeamSegment {
                    a: a as usize,
                    b: b as usize,
                    from: (at, span.start),
                    to: (at, span.end),
                },
            )
        } else {
            Some(
                SeamSegment {
                    a: a as usize,
                    b: b as usize,
                    from: (span.start, at),
                    to: (span.end, at),
                },
            )
        },
        None => None,
    }
}

/// Segments of one rectangle with the first `n` rectangles of another body.
pub open spec fn rect_segments(
    a: int,
    b: int,
    rect: Bounds,
    other: Seq<Bounds>,
    min_len: int,
    n: nat,
) -> Seq<SeamSegment>
    decreases n,
{
    if n == 0 {
        Seq::empty()
    } else {
        let before = rect_segments(a, b, rect, other, min_len, (n - 1) as nat);
        match seam_between(a, b, rect, other[n - 1], min_len) {
            Some(segment) => before.push(segment),
            None => before,
        }
    }
}

/// Segments of the first `n` rectangles of one body with another body.
pub open spec fn pair_segments(
    all: Seq<Seq<Bounds>>,
    a: int,
    b: int,
    min_len: int,
    n: nat,
) -> Seq<SeamSegment>
    decreases n,
{
    if n == 0 {
        Seq::empty()
    } else {
        pair_segments(all, a, b, min_len, (n - 1) as nat) + rect_segments(
            a,
            b,
            all[a][n - 1],
            all[b],
            min_len,
            all[b].len(),
        )
    }
}

/// Segments of body `a` with the later bodies before `end`.
pub open spec fn later_segments(all: Seq<Seq<Bounds>>, a: int, min_len: int, end: int) -> Seq<
    SeamSegment,
>
    decreases end - a,
{
    if end <= a + 1 {
        Seq::empty()
    } else {
        later_segments(all, a, min_len, end - 1) + pair_segments(
            all,
            a,
            end - 1,
            min_len,
            all[a].len(),
        )
    }
}

/// Segments of the first `n` bodies with every later body.
pub open spec fn all_segments(all: Seq<Seq<Bounds>>, min_len: int, n: nat) -> Seq<SeamSegment>
    decreases n,
{
    if n == 0 {
        Seq::empty()
    } else {
        all_segments(all, min_len, (n - 1) as nat) + later_segments(
            all,
            n - 1,
            min_len,
            all.len() as int,
        )
    }
}

fn add_segments(
    segments: &mut Vec<SeamSegment>,
    bodies: &[Body],
    a: usize,
    b: usize,
    min_len: i64,
)
    requires
        a < bodies@.len(),
        b < bodies@.len(),
        all_bounded(shapes(bodies@), REACH as int),
    ensures
        final(segments)@ == old(segments)@ + pair_segments(
            shapes(bodies@),
            a as int,
            b as int,
            min_len as int,
            bodies@[a as int]@.len(),
        ),
{
    let ghost all = shapes(bodies@);
    let ghost before = segments@;
    let body = &bodies[a];
    let other = &bodies[b];
    assert(bounded(all[a as int], REACH as int));
    assert(bounded(all[b as int], REACH as int));
    assert(before =~= before + pair_segments(all, a as int, b as int, min_len as int, 0));
    for i in 0..body.rects.len()
        invariant
            all == shapes(bodies@),
            body@ == all[a as int],
            other@ == all[b as int],
            bounded(body@, REACH as int),
            bounded(other@, REACH as int),
            segments@ == before + pair_segments(
                all,
                a as int,
                b as int,
                min_len as int,
                i as nat,
            ),
    {
        let rect = body.rects[i];
        assert(body@[i as int].bounded(REACH as int));
        let ghost at_rect = segments@;
        assert(at_rect =~= at_rect + rect_segments(
            a as int,
            b as int,
            rect,
            other@,
            min_len as int,
            0,
        ));
        for j in 0..other.rects.len()
            invariant
                other@ == all[b as int],
                rect.bounded(REACH as int),
                bounded(other@, REACH as int),
                segments@ == at_rect + rect_segments(
                    a as int,
                    b as int,
                    rect,
                    other@,
                    min_len as int,
                    j as nat,
                ),
        {
            assert(other@[j as int].bounded(REACH as int));
            if let Some((side, at, span)) = shared_edge(rect, other.rects[j]) {
                if span.len() >= min_len {
                    if side.vertical() {
                        segments.push(
                            SeamSegment { a, b, from: (at, span.start), to: (at, span.end) },
                        );
                    } else {
                        segments.push(
                            SeamSegment { a, b, from: (span.start, at), to: (span.end, at) },
                        );
                    }
                }
            }
            assert(segments@ =~= at_rect + rect_segments(
                a as int,
                b as int,
                rect,
                other@,
                min_len as int,
                (j + 1) as nat,
            ));
        }
        assert(segments@ =~= before + pair_segments(
            all,
            a as int,
            b as int,
            min_len as int,
            (i + 1) as nat,
        ));
    }
}

/// Every shared boundary segment of at least `min_len` between two bodies.
pub fn seams(bodies: &[Body], min_len: i64) -> (r: Vec<SeamSegment>)
    requires
        all_bounded(shapes(bodies@), REACH as int),
    ensures
        r@ == all_segments(shapes(bodies@), min_len as int, bodies@.len()),
{
    let ghost all = shapes(bodies@);
    let mut segments: Vec<SeamSegment> = Vec::new();
    for a in 0..bodies.len()
        invariant
            all == shapes(bodies@),
            all_bounded(all, REACH as int),
            segments@ == all_segments(all, min_len as int, a as nat),
    {
        let ghost before = segments@;
        assert(before =~= before + later_segments(all, a as int, min_len as int, a + 1));
        for b in a + 1..bodies.len()
            invariant
                a < bodies@.len(),
                all == shapes(bodies@),
                all_bounded(all, REACH as int),
                segments@ == before + later_segments(all, a as int, min_len as int, b as int),
        {
            add_segments(&mut segments, bodies, a, b, min_len);
            assert(segments@ =~= before + later_segments(all, a as int, min_len as int, b + 1));
        }
    }
    segments
}

} // verus!
