//! One pointer step of a drag.

use crate::arrange::bounds::{bounded, moved, overlapping, Body, Bounds, Rules, REACH};
use crate::arrange::cluster::{
    clusters_of, components, distinct, first_indices, lists, touches, touching,
};
use crate::arrange::place::{
    all_bounded, attach, indices_within, picked, placement_of, shapes, Placement, Scene,
};
use crate::arrange::settle::{
    append_list, arrangeable, as_translations, at_rest, canvas_of, copy_bodies, holds,
    join_all, join_clusters, largest_cluster, largest_cluster_of, lemma_clusters_listed,
    lemma_merged, lemma_moved_bounded, lemma_wider, listed, merged_shape, reattach, reattachment,
    roomy, settle_clusters, settle_clusters_of, shift, shift_cluster, shifted, translations, Canvas,
    Joining, CANVAS, SETTLE_ROUNDS, STRIDE,
};
use crate::geometry::{EdgeSide, Vec2I};
use vstd::prelude::*;

verus! {

#[derive(Debug, PartialEq, Eq)]
pub struct Step {
    /// Translation for every body, index-aligned with the input.
    pub deltas: Vec<Vec2I>,
    /// Side of the dragged body now resting against a neighbour.
    pub side: EdgeSide,
}

/// No move.
pub open spec fn still() -> Vec2I {
    Vec2I { x: 0, y: 0 }
}

/// A list without the entries that equal `index`.
pub open spec fn without(list: Seq<usize>, index: usize) -> Seq<usize>
    decreases list.len(),
{
    if list.len() == 0 {
        Seq::empty()
    } else {
        let before = without(list.drop_last(), index);
        if list.last() == index {
            before
        } else {
            before.push(list.last())
        }
    }
}

/// One of the bodies in `list` belongs to `frame`.
pub open spec fn meets(list: Seq<usize>, frame: Seq<usize>) -> bool {
    exists|i: int| 0 <= i < list.len() && frame.contains(#[trigger] list[i])
}

/// The bodies of the first `n` clusters that hold on to the frame.
pub open spec fn held(clusters: Seq<Seq<usize>>, frame: Seq<usize>, n: nat) -> Seq<usize>
    decreases n,
{
    if n == 0 {
        Seq::empty()
    } else {
        let before = held(clusters, frame, (n - 1) as nat);
        if meets(clusters[n - 1], frame) {
            before + clusters[n - 1]
        } else {
            before
        }
    }
}

/// The first `n` clusters that do not, the dragged body aside.
pub open spec fn adrift(
    clusters: Seq<Seq<usize>>,
    frame: Seq<usize>,
    dragged: usize,
    n: nat,
) -> Seq<Seq<usize>>
    decreases n,
{
    if n == 0 {
        Seq::empty()
    } else {
        let before = adrift(clusters, frame, dragged, (n - 1) as nat);
        let rest = without(clusters[n - 1], dragged);
        if !meets(clusters[n - 1], frame) && rest.len() > 0 {
            before.push(rest)
        } else {
            before
        }
    }
}

/// A shape overlaps no body outside `cluster`.
pub open spec fn clear_of(
    placed: Seq<Seq<Bounds>>,
    cluster: Seq<usize>,
    shape: Seq<Bounds>,
) -> bool {
    forall|m: int|
        0 <= m < placed.len() && !cluster.contains(m as usize) ==> !overlapping(
            shape,
            #[trigger] placed[m],
        )
}

/// How a cluster follows a step of the dragged body: it rides along where that keeps it
/// clear and beside the dragged body; it waits while the dragged body is not anchored and
/// nothing is in the way; and else reattaches with its smallest move.
pub open spec fn ride_move(
    placed: Seq<Seq<Bounds>>,
    cluster: Seq<usize>,
    settled: Seq<usize>,
    dragged: usize,
    anchored: bool,
    step: Vec2I,
    rules: Rules,
) -> Option<Vec2I> {
    let merged = merged_shape(placed, cluster);
    let rigid = moved(merged, step.x as int, step.y as int);
    if anchored && clear_of(placed, cluster, rigid) && touches(
        rigid,
        placed[dragged as int],
        rules,
    ) {
        Some(step)
    } else if !anchored && clear_of(placed, cluster, merged) {
        Some(still())
    } else {
        match reattachment(placed, cluster, settled, rules, false) {
            Some(placement) => Some(placement.delta),
            None => None,
        }
    }
}

/// Clusters following a step.
pub ghost struct Ride {
    pub canvas: Canvas,
    pub settled: Seq<usize>,
    pub stirred: bool,
}

/// After the first `n` pending clusters followed.
pub open spec fn ride(
    start: Ride,
    pending: Seq<Seq<usize>>,
    dragged: usize,
    anchored: bool,
    step: Vec2I,
    rules: Rules,
    n: nat,
) -> Ride
    decreases n,
{
    if n == 0 {
        start
    } else {
        let before = ride(start, pending, dragged, anchored, step, rules, (n - 1) as nat);
        let cluster = pending[n - 1];
        match ride_move(
            before.canvas.placed,
            cluster,
            before.settled,
            dragged,
            anchored,
            step,
            rules,
        ) {
            Some(delta) => Ride {
                canvas: shifted(before.canvas, cluster, delta),
                settled: before.settled + cluster,
                stirred: before.stirred || delta != still(),
            },
            None => before,
        }
    }
}

/// Every cluster not connected to the frame reattached, the dragged body aside: gap
/// closers first (nearest first), then riders. Riders only ride while the dragged body is
/// anchored to the frame; while it merely rests on riders they wait for it to be re-rested,
/// so a card stuck at a corner cannot ratchet its riders away.
pub open spec fn settled_canvas(
    canvas: Canvas,
    dragged: usize,
    frame: Seq<usize>,
    vacated: Bounds,
    step: Vec2I,
    rules: Rules,
) -> Ride {
    let found = settle_clusters_of(canvas.placed, Some(dragged), rules);
    let standing = held(found, frame, found.len());
    let pending = adrift(found, frame, dragged, found.len());
    let base = if standing.len() == 0 {
        seq![dragged]
    } else {
        standing
    };
    let joined = join_all(
        Joining { canvas, pending, settled: base },
        Some(without(base, dragged)),
        rules,
        Some(vacated),
    );
    ride(
        Ride {
            canvas: joined.canvas,
            settled: joined.settled,
            stirred: joined.pending.len() < pending.len(),
        },
        joined.pending,
        dragged,
        joined.settled.contains(dragged),
        step,
        rules,
        joined.pending.len(),
    )
}

/// The first cluster that holds on to the frame.
pub open spec fn frame_cluster(clusters: Seq<Seq<usize>>, frame: Seq<usize>, n: nat) -> Seq<usize>
    decreases n,
{
    if n == 0 {
        Seq::empty()
    } else {
        let before = frame_cluster(clusters, frame, (n - 1) as nat);
        if before.len() == 0 && meets(clusters[n - 1], frame) {
            clusters[n - 1]
        } else {
            before
        }
    }
}

/// What a drag step is asked for: who is dragged, where to, out of which footprint, and the
/// bodies that block it.
pub ghost struct Pull {
    pub dragged: usize,
    pub desired: Vec2I,
    pub vacated: Bounds,
    pub frame: Seq<usize>,
    pub rules: Rules,
}

/// Everybody but the dragged body.
pub open spec fn bystanders(len: nat, dragged: usize) -> Seq<usize> {
    without(first_indices(len), dragged)
}

/// The bodies the dragged body may rest against in a round: in the first round anybody;
/// later only the frame's cluster, unless it is part of that.
pub open spec fn round_targets(placed: Seq<Seq<Bounds>>, pull: Pull, round: nat) -> Seq<Seq<Bounds>> {
    let found = clusters_of(placed, first_indices(placed.len()), pull.rules);
    let anchored = frame_cluster(found, pull.frame, found.len());
    picked(
        placed,
        if round == 0 || anchored.contains(pull.dragged) {
            bystanders(placed.len(), pull.dragged)
        } else {
            without(anchored, pull.dragged)
        },
    )
}

/// What blocks the dragged body, and where it is to go in a round.
pub open spec fn round_scene(placed: Seq<Seq<Bounds>>, pull: Pull, round: nat) -> Scene {
    Scene {
        moving: placed[pull.dragged as int],
        blocking: picked(placed, pull.frame),
        rules: pull.rules,
        desired: if round == 0 {
            pull.desired
        } else {
            still()
        },
    }
}

/// Where the dragged body comes to rest in a round: in the first round at the nearest legal
/// position to the pointer; later ones only restore contact with the frame's cluster.
pub open spec fn round_placement(
    placed: Seq<Seq<Bounds>>,
    pull: Pull,
    round: nat,
    side: Option<EdgeSide>,
) -> Option<Placement> {
    if placed[pull.dragged as int].len() == 0 {
        None
    } else {
        placement_of(
            round_scene(placed, pull, round),
            round_targets(placed, pull, round),
            side,
        )
    }
}

/// Placing the dragged body and settling the rest, over and over until neither moves
/// anything or the rounds run out.
pub open spec fn rounds(canvas: Canvas, pull: Pull, round: nat, side: Option<EdgeSide>) -> Option<
    (Canvas, Option<EdgeSide>),
>
    decreases SETTLE_ROUNDS - round,
{
    if round >= SETTLE_ROUNDS {
        Some((canvas, side))
    } else {
        match round_placement(canvas.placed, pull, round, side) {
            None => None,
            Some(placement) => {
                let after = settled_canvas(
                    shifted(canvas, seq![pull.dragged], placement.delta),
                    pull.dragged,
                    pull.frame,
                    pull.vacated,
                    placement.delta,
                    pull.rules,
                );
                if placement.delta == still() && !after.stirred {
                    Some((after.canvas, Some(placement.side)))
                } else {
                    rounds(after.canvas, pull, round + 1, Some(placement.side))
                }
            },
        }
    }
}

/// A displacement points against the pointer.
pub open spec fn against(net: Vec2I, desired: Vec2I) -> bool {
    net.x * desired.x + net.y * desired.y < 0
}

/// The translations and the resting side a drag step comes to.
pub open spec fn step_of(
    all: Seq<Seq<Bounds>>,
    dragged: usize,
    desired: Vec2I,
    vacated: Bounds,
    current: Option<EdgeSide>,
    rules: Rules,
) -> Option<(Seq<Vec2I>, EdgeSide)> {
    let frame = largest_cluster_of(all, bystanders(all.len(), dragged), rules);
    let pull = Pull { dragged, desired, vacated, frame, rules };
    match rounds(at_rest(all), pull, 0, current) {
        None => None,
        Some((canvas, side)) => {
            let deltas = as_translations(canvas.deltas);
            if against(deltas[dragged as int], desired) {
                match current {
                    Some(now) => Some((as_translations(at_rest(all).deltas), now)),
                    None => Some((as_translations(at_rest(all).deltas), side->0)),
                }
            } else {
                Some((deltas, side->0))
            }
        },
    }
}

pub(crate) fn list_without(list: &[usize], index: usize) -> (r: Vec<usize>)
    ensures
        r@ == without(list@, index),
{
    let mut rest: Vec<usize> = Vec::new();
    for i in 0..list.len()
        invariant
            rest@ == without(list@.take(i as int), index),
    {
        assert(list@.take(i + 1).drop_last() =~= list@.take(i as int));
        if list[i] != index {
            rest.push(list[i]);
        }
    }
    assert(list@.take(list@.len() as int) =~= list@);
    rest
}

pub(crate) proof fn lemma_without(list: Seq<usize>, index: usize)
    ensures
        forall|i: int|
            0 <= i < without(list, index).len() ==> (#[trigger] without(list, index)[i]) != index
                && list.contains(without(list, index)[i]),
        distinct(list) ==> distinct(without(list, index)),
        without(list, index).len() <= list.len(),
        forall|v: usize| list.contains(v) && v != index ==> #[trigger] without(list, index).contains(v),
    decreases list.len(),
{
    if list.len() > 0 {
        let front = list.drop_last();
        lemma_without(front, index);
        let before = without(front, index);
        let after = without(list, index);
        assert forall|i: int| 0 <= i < after.len() implies (#[trigger] after[i]) != index
            && list.contains(after[i]) by {
            if i < before.len() {
                assert(after[i] == before[i]);
                let j = choose|j: int| 0 <= j < front.len() && front[j] == before[i];
                assert(list[j] == after[i]);
            } else {
                assert(list[list.len() - 1] == after[i]);
            }
        }
        if distinct(list) {
            assert(distinct(front)) by {
                assert forall|i: int, j: int|
                    0 <= i < front.len() && 0 <= j < front.len() && i != j implies #[trigger] front[i]
                    != #[trigger] front[j] by {
                    assert(list[i] == front[i] && list[j] == front[j]);
                }
            }
            assert forall|i: int, j: int|
                0 <= i < after.len() && 0 <= j < after.len() && i != j implies #[trigger] after[i]
                != #[trigger] after[j] by {
                if i < before.len() {
                    assert(after[i] == before[i]);
                    let k = choose|k: int| 0 <= k < front.len() && front[k] == before[i];
                    assert(list[k] == after[i]);
                }
                if j < before.len() {
                    assert(after[j] == before[j]);
                    let k = choose|k: int| 0 <= k < front.len() && front[k] == before[j];
                    assert(list[k] == after[j]);
                }
            }
        }
        assert forall|v: usize| list.contains(v) && v != index implies #[trigger] after.contains(
            v,
        ) by {
            let j = choose|j: int| 0 <= j < list.len() && list[j] == v;
            if j < front.len() {
                assert(front[j] == v);
                assert(before.contains(v));
                let k = choose|k: int| 0 <= k < before.len() && before[k] == v;
                assert(after[k] == v);
            } else {
                assert(after[before.len() as int] == v);
            }
        }
    }
}

fn list_meets(list: &[usize], frame: &[usize]) -> (r: bool)
    ensures
        r == meets(list@, frame@),
{
    for i in 0..list.len()
        invariant
            forall|j: int| 0 <= j < i ==> !frame@.contains(#[trigger] list@[j]),
    {
        if holds(frame, list[i]) {
            assert(frame@.contains(list@[i as int]));
            return true;
        }
    }
    false
}

/// Clusters adrift stay disjoint lists without the dragged body or a body of the frame.
pub(crate) proof fn lemma_adrift(
    clusters: Seq<Seq<usize>>,
    frame: Seq<usize>,
    dragged: usize,
    len: nat,
    n: nat,
)
    requires
        listed(clusters, len),
        n <= clusters.len(),
    ensures
        listed(adrift(clusters, frame, dragged, n), len),
        indices_within(held(clusters, frame, n), len),
        forall|k: int, i: int|
            0 <= k < adrift(clusters, frame, dragged, n).len() && 0 <= i < adrift(
                clusters,
                frame,
                dragged,
                n,
            )[k].len() ==> {
                let member = #[trigger] adrift(clusters, frame, dragged, n)[k][i];
                member != dragged && !frame.contains(member) && exists|c: int|
                    0 <= c < n && (#[trigger] clusters[c]).contains(member)
            },
    decreases n,
{
    if n > 0 {
        lemma_adrift(clusters, frame, dragged, len, (n - 1) as nat);
        let before = adrift(clusters, frame, dragged, (n - 1) as nat);
        let after = adrift(clusters, frame, dragged, n);
        let cluster = clusters[n - 1];
        let rest = without(cluster, dragged);
        lemma_without(cluster, dragged);
        assert(distinct(cluster));
        assert(indices_within(cluster, len));
        assert forall|k: int| 0 <= k < after.len() implies (#[trigger] after[k]).len() > 0
            && after[k].len() <= len && distinct(after[k]) && indices_within(after[k], len) by {
            if k < before.len() {
                assert(after[k] == before[k]);
            } else {
                assert forall|i: int| 0 <= i < rest.len() implies (#[trigger] rest[i]) < len by {
                    let j = choose|j: int| 0 <= j < cluster.len() && cluster[j] == rest[i];
                    assert(cluster[j] < len);
                }
            }
        }
        assert forall|k: int, i: int| 0 <= k < after.len() && 0 <= i < after[k].len() implies {
            let member = #[trigger] after[k][i];
            member != dragged && !frame.contains(member) && exists|c: int|
                0 <= c < n && (#[trigger] clusters[c]).contains(member)
        } by {
            if k < before.len() {
                assert(after[k] == before[k]);
                assert(before[k][i] == after[k][i]);
                let c = choose|c: int|
                    0 <= c < n - 1 && (#[trigger] clusters[c]).contains(before[k][i]);
                assert(clusters[c].contains(after[k][i]));
            } else {
                assert(after[k] == rest);
                assert(clusters[n - 1].contains(rest[i]));
                let j = choose|j: int| 0 <= j < cluster.len() && cluster[j] == rest[i];
                assert(!frame.contains(cluster[j]));
            }
        }
        assert forall|c: int, d: int, i: int, j: int|
            0 <= c < after.len() && 0 <= d < after.len() && c != d && 0 <= i < after[c].len() && 0
                <= j < after[d].len() implies #[trigger] after[c][i] != #[trigger] after[d][j] by {
            if c < before.len() && d < before.len() {
                assert(after[c][i] == before[c][i] && after[d][j] == before[d][j]);
            } else {
                let (old_one, at, fresh) = if c < before.len() {
                    (c, i, j)
                } else {
                    (d, j, i)
                };
                assert(after[old_one][at] == before[old_one][at]);
                let e = choose|e: int|
                    0 <= e < n - 1 && (#[trigger] clusters[e]).contains(before[old_one][at]);
                let p = choose|p: int|
                    0 <= p < clusters[e].len() && clusters[e][p] == before[old_one][at];
                let q = choose|q: int| 0 <= q < cluster.len() && cluster[q] == rest[fresh];
                assert(clusters[e][p] != clusters[n - 1][q]);
            }
        }
        assert forall|i: int| 0 <= i < held(clusters, frame, n).len() implies (#[trigger] held(
            clusters,
            frame,
            n,
        )[i]) < len by {
            let standing = held(clusters, frame, (n - 1) as nat);
            if i < standing.len() {
                assert(held(clusters, frame, n)[i] == standing[i]);
            } else {
                assert(held(clusters, frame, n)[i] == cluster[i - standing.len()]);
            }
        }
    }
}

fn body_clear(placed: &[Body], cluster: &[usize], body: &Body) -> (r: bool)
    ensures
        r == clear_of(shapes(placed@), cluster@, body@),
{
    let ghost all = shapes(placed@);
    for m in 0..placed.len()
        invariant
            all == shapes(placed@),
            forall|k: int|
                0 <= k < m && !cluster@.contains(k as usize) ==> !overlapping(
                    body@,
                    #[trigger] all[k],
                ),
    {
        if !holds(cluster, m) && body.overlaps(&placed[m]) {
            assert(overlapping(body@, all[m as int]));
            return false;
        }
    }
    true
}

/// How a cluster follows a step of the dragged body.
fn follow(
    placed: &[Body],
    cluster: &[usize],
    settled: &[usize],
    dragged: usize,
    anchored: bool,
    step: Vec2I,
    rules: &Rules,
) -> (r: Option<Vec2I>)
    requires
        rules.bounded(),
        all_bounded(shapes(placed@), REACH - STRIDE),
        indices_within(cluster@, placed@.len()),
        indices_within(settled@, placed@.len()),
        dragged < placed@.len(),
    ensures
        r == ride_move(
            shapes(placed@),
            cluster@,
            settled@,
            dragged,
            anchored,
            step,
            *rules,
        ),
{
    let ghost all = shapes(placed@);
    let merged = Body::merged(placed, cluster);
    proof {
        assert forall|k: int| 0 <= k < cluster@.len() implies bounded(
            all[#[trigger] cluster@[k] as int],
            REACH - STRIDE,
        ) by {
            assert(cluster@[k] < placed@.len());
        }
        lemma_merged(all, cluster@, REACH - STRIDE);
        lemma_wider(all, REACH - STRIDE, REACH as int);
        assert forall|k: int| 0 <= k < merged@.len() implies (#[trigger] merged@[k]).bounded(
            REACH as int,
        ) && merged@[k].bounded(i64::MAX - 0x8000_0000) by {
            assert(merged@[k].bounded(REACH - STRIDE));
        }
        lemma_moved_bounded(merged@, step, REACH - STRIDE);
        assert(bounded(all[dragged as int], REACH as int));
    }
    let rigid = merged.shifted(step);
    if anchored && body_clear(placed, cluster, &rigid) && touching(
        &rigid,
        &placed[dragged],
        rules,
    ) {
        Some(step)
    } else if !anchored && body_clear(placed, cluster, &merged) {
        Some(Vec2I { x: 0, y: 0 })
    } else {
        match reattach(&merged, cluster, settled, placed, rules, false) {
            Some(placement) => Some(placement.delta),
            None => None,
        }
    }
}

fn is_still(delta: Vec2I) -> (r: bool)
    ensures
        r == (delta == still()),
{
    delta.x == 0 && delta.y == 0
}

/// The bodies beside `dragged` lie within `cap`, and so do their moves.
spec fn others_within(
    placed: Seq<Body>,
    deltas: Seq<(i64, i64)>,
    dragged: usize,
    cap: int,
) -> bool {
    forall|b: int|
        0 <= b < placed.len() && b != dragged ==> bounded((#[trigger] placed[b])@, cap) && -cap
            <= deltas[b].0 <= cap && -cap <= deltas[b].1 <= cap
}

/// Moving the dragged body leaves the others where they lay.
proof fn lemma_others_within(
    now: Canvas,
    placed: Seq<Body>,
    deltas: Seq<(i64, i64)>,
    dragged: usize,
    step: Vec2I,
    cap: int,
)
    requires
        placed.len() == now.placed.len() <= usize::MAX,
        deltas.len() == now.deltas.len() == placed.len(),
        canvas_of(placed, deltas) == shifted(now, seq![dragged], step),
        all_bounded(now.placed, cap),
        forall|b: int|
            0 <= b < now.deltas.len() ==> -cap <= (#[trigger] now.deltas[b]).0 <= cap && -cap
                <= now.deltas[b].1 <= cap,
    ensures
        others_within(placed, deltas, dragged, cap),
{
    let after = canvas_of(placed, deltas);
    assert forall|b: int| 0 <= b < placed.len() && b != dragged implies bounded(
        (#[trigger] placed[b])@,
        cap,
    ) && -cap <= deltas[b].0 <= cap && -cap <= deltas[b].1 <= cap by {
        assert(!seq![dragged].contains(b as usize));
        assert(placed[b]@ == after.placed[b]);
        assert(after.placed[b] == now.placed[b]);
        assert(after.deltas[b] == now.deltas[b]);
        assert(bounded(now.placed[b], cap));
        assert(-cap <= now.deltas[b].0 <= cap);
        assert(after.deltas[b].0 == deltas[b].0);
        assert(after.deltas[b].1 == deltas[b].1);
    }
}

/// Reattach every cluster not connected to the frame, the dragged body aside (a later
/// round re-rests it). True when anything moved.
fn settle(
    placed: &mut Vec<Body>,
    deltas: &mut Vec<(i64, i64)>,
    dragged: usize,
    frame: &[usize],
    vacated: Bounds,
    step: Vec2I,
    rules: &Rules,
    Ghost(cap): Ghost<int>,
) -> (r: bool)
    requires
        rules.bounded(),
        0 <= cap,
        cap + 2 * STRIDE <= REACH,
        dragged < old(placed)@.len(),
        vacated.bounded(REACH as int),
        roomy(canvas_of(old(placed)@, old(deltas)@), Seq::empty(), cap),
        others_within(old(placed)@, old(deltas)@, dragged, cap),
    ensures
        canvas_of(final(placed)@, final(deltas)@) == settled_canvas(
            canvas_of(old(placed)@, old(deltas)@),
            dragged,
            frame@,
            vacated,
            step,
            *rules,
        ).canvas,
        r == settled_canvas(
            canvas_of(old(placed)@, old(deltas)@),
            dragged,
            frame@,
            vacated,
            step,
            *rules,
        ).stirred,
        final(placed)@.len() == old(placed)@.len(),
        final(deltas)@.len() == old(deltas)@.len(),
        roomy(canvas_of(final(placed)@, final(deltas)@), Seq::empty(), cap),
{
    let ghost start = canvas_of(placed@, deltas@);
    let count: usize = placed.len();
    proof {
        lemma_wider(start.placed, cap + STRIDE, REACH as int);
    }
    let found = settle_clusters(placed, Some(dragged), rules);
    let ghost given = lists(found@);
    let mut settled: Vec<usize> = Vec::new();
    let mut pending: Vec<Vec<usize>> = Vec::new();
    assert(lists(pending@) =~= Seq::empty());
    for i in 0..found.len()
        invariant
            given == lists(found@),
            settled@ == held(given, frame@, i as nat),
            lists(pending@) == adrift(given, frame@, dragged, i as nat),
    {
        assert(given[i as int] == found@[i as int]@);
        if list_meets(&found[i], frame) {
            append_list(&mut settled, &found[i]);
        } else {
            let rest = list_without(&found[i], dragged);
            if rest.len() > 0 {
                let ghost before = lists(pending@);
                pending.push(rest);
                assert(lists(pending@) =~= before.push(rest@));
            }
        }
    }
    proof {
        lemma_adrift(given, frame@, dragged, count as nat, given.len());
    }
    if settled.len() == 0 {
        settled.push(dragged);
        assert(settled@ =~= seq![dragged]);
    }
    let ghost base = settled@;
    let ghost adrift_now = lists(pending@);
    let stationary = list_without(&settled, dragged);
    proof {
        lemma_without(settled@, dragged);
        assert(indices_within(stationary@, count as nat)) by {
            assert forall|i: int| 0 <= i < stationary@.len() implies (#[trigger] stationary@[i])
                < count by {
                let j = choose|j: int| 0 <= j < settled@.len() && settled@[j] == stationary@[i];
                assert(settled@[j] < count);
            }
        }
        assert(roomy(start, adrift_now, cap)) by {
            assert forall|k: int, i: int|
                0 <= k < adrift_now.len() && 0 <= i < adrift_now[k].len() implies bounded(
                start.placed[#[trigger] adrift_now[k][i] as int],
                cap,
            ) && -cap <= start.deltas[adrift_now[k][i] as int].0 <= cap && -cap
                <= start.deltas[adrift_now[k][i] as int].1 <= cap by {
                let member = adrift_now[k][i];
                assert(indices_within(adrift_now[k], count as nat));
                assert(member != dragged);
                assert(bounded(placed@[member as int]@, cap));
            }
        }
    }
    let waiting: usize = pending.len();
    let fixed = Some(stationary);
    let mut stirred: bool = join_clusters(
        placed,
        deltas,
        &mut pending,
        &mut settled,
        &fixed,
        rules,
        Some(vacated),
        Ghost(cap),
    );
    let ghost joined = join_all(
        Joining { canvas: start, pending: adrift_now, settled: base },
        Some(without(base, dragged)),
        *rules,
        Some(vacated),
    );
    let anchored: bool = holds(&settled, dragged);
    let ghost opening = Ride { canvas: joined.canvas, settled: joined.settled, stirred };
    for i in 0..pending.len()
        invariant
            rules.bounded(),
            0 <= cap,
            cap + 2 * STRIDE <= REACH,
            count == placed@.len(),
            placed@.len() == deltas@.len(),
            placed@.len() == old(placed)@.len(),
            dragged < placed@.len(),
            joined.pending == lists(pending@),
            listed(joined.pending, placed@.len()),
            indices_within(settled@, placed@.len()),
            roomy(canvas_of(placed@, deltas@), joined.pending.skip(i as int), cap),
            (Ride { canvas: canvas_of(placed@, deltas@), settled: settled@, stirred }) == ride(
                opening,
                joined.pending,
                dragged,
                anchored,
                step,
                *rules,
                i as nat,
            ),
    {
        let ghost now = canvas_of(placed@, deltas@);
        let ghost rest = joined.pending.skip(i as int);
        let cluster = &pending[i];
        assert(joined.pending[i as int] == cluster@);
        proof {
            lemma_wider(now.placed, cap + STRIDE, REACH - STRIDE);
            assert(rest[0] == cluster@);
        }
        let follows = follow(placed, cluster, &settled, dragged, anchored, step, rules);
        if let Some(delta) = follows {
            proof {
                assert forall|k: int, j: int|
                    0 <= k < seq![cluster@].len() && 0 <= j < seq![cluster@][k].len() implies
                    bounded(now.placed[#[trigger] seq![cluster@][k][j] as int], cap) && -cap
                    <= now.deltas[seq![cluster@][k][j] as int].0 <= cap && -cap
                    <= now.deltas[seq![cluster@][k][j] as int].1 <= cap by {
                    assert(seq![cluster@][k][j] == rest[0][j]);
                }
            }
            let ghost before_settled = settled@;
            shift_cluster(placed, deltas, cluster, delta, Ghost(cap));
            append_list(&mut settled, cluster);
            if !is_still(delta) {
                stirred = true;
            }
            assert(indices_within(settled@, placed@.len())) by {
                assert forall|k: int| 0 <= k < settled@.len() implies (#[trigger] settled@[k])
                    < placed@.len() by {
                    if k < before_settled.len() {
                        assert(settled@[k] == before_settled[k]);
                    } else {
                        assert(settled@[k] == cluster@[k - before_settled.len()]);
                    }
                }
            }
        }
        proof {
            let after = canvas_of(placed@, deltas@);
            let later = joined.pending.skip(i + 1);
            assert forall|k: int, j: int| 0 <= k < later.len() && 0 <= j < later[k].len() implies
                bounded(after.placed[#[trigger] later[k][j] as int], cap) && -cap
                <= after.deltas[later[k][j] as int].0 <= cap && -cap
                <= after.deltas[later[k][j] as int].1 <= cap by {
                assert(later[k] == rest[k + 1]);
                assert(rest[k + 1][j] == later[k][j]);
                assert(later[k] == joined.pending[i + 1 + k]);
                assert(indices_within(joined.pending[i + 1 + k], placed@.len()));
                assert(later[k][j] < placed@.len());
                assert(!cluster@.contains(later[k][j])) by {
                    if cluster@.contains(later[k][j]) {
                        let p = choose|p: int|
                            0 <= p < cluster@.len() && cluster@[p] == later[k][j];
                        assert(joined.pending[i as int][p] == joined.pending[i + 1 + k][j]);
                    }
                }
            }
            assert(roomy(after, later, cap));
        }
    }
    stirred
}

/// Where the dragged body comes to rest in a round.
fn place_dragged(
    placed: &Vec<Body>,
    dragged: usize,
    desired: Vec2I,
    others: &Vec<usize>,
    frame: &Vec<usize>,
    first: bool,
    side: Option<EdgeSide>,
    rules: &Rules,
    Ghost(pull): Ghost<Pull>,
    Ghost(round): Ghost<nat>,
) -> (r: Option<Placement>)
    requires
        rules.bounded(),
        all_bounded(shapes(placed@), REACH as int),
        dragged < placed@.len(),
        others@ == bystanders(placed@.len(), dragged),
        indices_within(others@, placed@.len()),
        indices_within(frame@, placed@.len()),
        pull.dragged == dragged,
        pull.desired == desired,
        pull.frame == frame@,
        pull.rules == *rules,
        first == (round == 0),
    ensures
        r == round_placement(shapes(placed@), pull, round, side),
{
    let ghost all = shapes(placed@);
    let count: usize = placed.len();
    let found = components(placed, rules);
    let ghost given = lists(found@);
    proof {
        lemma_clusters_listed(all, first_indices(all.len()), *rules);
    }
    let mut anchored: Vec<usize> = Vec::new();
    for i in 0..found.len()
        invariant
            given == lists(found@),
            listed(given, all.len()),
            anchored@ == frame_cluster(given, frame@, i as nat),
            indices_within(anchored@, all.len()),
    {
        assert(given[i as int] == found@[i as int]@);
        if anchored.len() == 0 && list_meets(&found[i], frame) {
            let mut copy: Vec<usize> = Vec::new();
            append_list(&mut copy, &found[i]);
            anchored = copy;
            assert(anchored@ =~= found@[i as int]@);
        }
    }
    let goal = if first {
        desired
    } else {
        Vec2I { x: 0, y: 0 }
    };
    if first || holds(&anchored, dragged) {
        attach(&placed[dragged], goal, placed, others, frame, rules, side)
    } else {
        let reachable = list_without(&anchored, dragged);
        proof {
            lemma_without(anchored@, dragged);
            assert forall|i: int| 0 <= i < reachable@.len() implies (#[trigger] reachable@[i])
                < placed@.len() by {
                let j = choose|j: int| 0 <= j < anchored@.len() && anchored@[j] == reachable@[i];
                assert(anchored@[j] < all.len());
            }
        }
        attach(&placed[dragged], goal, placed, &reachable, frame, rules, side)
    }
}

/// One round of a drag step: the dragged body comes to rest, and the rest settle. Tells the
/// side it rests on, and whether neither moved anything.
fn drag_round(
    placed: &mut Vec<Body>,
    deltas: &mut Vec<(i64, i64)>,
    vacated: Bounds,
    desired: Vec2I,
    others: &Vec<usize>,
    frame: &Vec<usize>,
    first: bool,
    side: Option<EdgeSide>,
    rules: &Rules,
    dragged: usize,
    Ghost(pull): Ghost<Pull>,
    Ghost(round): Ghost<nat>,
) -> (r: Option<(EdgeSide, bool)>)
    requires
        rules.bounded(),
        round < SETTLE_ROUNDS,
        first == (round == 0),
        old(placed)@.len() == old(deltas)@.len(),
        dragged < old(placed)@.len(),
        others@ == bystanders(old(placed)@.len(), dragged),
        indices_within(others@, old(placed)@.len()),
        indices_within(frame@, old(placed)@.len()),
        vacated.bounded(REACH as int),
        pull == (Pull { dragged, desired, vacated, frame: frame@, rules: *rules }),
        roomy(
            canvas_of(old(placed)@, old(deltas)@),
            Seq::empty(),
            CANVAS + round * STRIDE - STRIDE,
        ),
    ensures
        final(placed)@.len() == old(placed)@.len(),
        final(deltas)@.len() == old(deltas)@.len(),
        match round_placement(shapes(old(placed)@), pull, round, side) {
            None => r is None,
            Some(placement) => {
                let after = settled_canvas(
                    shifted(
                        canvas_of(old(placed)@, old(deltas)@),
                        seq![dragged],
                        placement.delta,
                    ),
                    dragged,
                    frame@,
                    vacated,
                    placement.delta,
                    *rules,
                );
                &&& r == Some((placement.side, placement.delta == still() && !after.stirred))
                &&& canvas_of(final(placed)@, final(deltas)@) == after.canvas
                &&& roomy(after.canvas, Seq::empty(), CANVAS + round * STRIDE)
            },
        },
{
    let ghost now = canvas_of(placed@, deltas@);
    let ghost cap: int = CANVAS + round * STRIDE;
    proof {
        lemma_wider(now.placed, cap, REACH as int);
    }
    let placement = match place_dragged(
        placed,
        dragged,
        desired,
        others,
        frame,
        first,
        side,
        rules,
        Ghost(pull),
        Ghost(round),
    ) {
        Some(placement) => placement,
        None => return None,
    };
    let step = placement.delta;
    proof {
        assert(bounded(now.placed[dragged as int], cap));
        assert(placed@[dragged as int]@ == now.placed[dragged as int]);
        assert(bounded(now.placed[dragged as int], REACH as int));
        assert(-cap <= now.deltas[dragged as int].0 <= cap);
        assert(now.deltas[dragged as int].0 == deltas@[dragged as int].0);
    }
    shift(placed, deltas, dragged, step);
    proof {
        let after = canvas_of(placed@, deltas@);
        assert(seq![dragged][0] == dragged);
        assert forall|b: int| 0 <= b < after.placed.len() implies bounded(
            #[trigger] after.placed[b],
            cap + STRIDE,
        ) by {
            assert(bounded(now.placed[b], cap));
            if b == dragged {
                lemma_moved_bounded(now.placed[b], step, cap);
            } else {
                assert forall|k: int| 0 <= k < now.placed[b].len() implies (
                #[trigger] now.placed[b][k]).bounded(cap + STRIDE) by {
                    assert(now.placed[b][k].bounded(cap));
                }
            }
        }
        assert forall|b: int| 0 <= b < after.deltas.len() implies -(cap + STRIDE) <= (
        #[trigger] after.deltas[b]).0 <= cap + STRIDE && -(cap + STRIDE) <= after.deltas[b].1
            <= cap + STRIDE by {
            assert(-cap <= now.deltas[b].0 <= cap);
        }
        assert(roomy(after, Seq::empty(), cap));
        lemma_others_within(now, placed@, deltas@, dragged, step, cap);
    }
    let stirred: bool = settle(
        placed,
        deltas,
        dragged,
        frame,
        vacated,
        step,
        rules,
        Ghost(cap),
    );
    Some((placement.side, is_still(step) && !stirred))
}

/// One pointer step of a drag. Rests body `dragged` at the nearest legal position to
/// `desired` (a move off where it stands now), then settles every cluster no
/// longer connected to it: a cluster slides into the gap the dragged body left
/// (`vacated`: its footprint when the drag began) when that reconnects it; otherwise it
/// rides along, keeping its place beside the dragged body; and when that is blocked it
/// reattaches with the smallest move. The largest cluster of other bodies is the frame:
/// it alone blocks the dragged body (so riders can be pushed ahead of it) and it never
/// moves. Later rounds only restore contact with the frame's cluster after neighbours
/// moved; they never chase the pointer again. A step whose net effect would move the
/// dragged body against the pointer is discarded, since it could only be undone by the
/// next step. None when there is nothing to rest against.
pub fn drag_step(
    bodies: &[Body],
    dragged: usize,
    desired: Vec2I,
    vacated: Bounds,
    current: Option<EdgeSide>,
    rules: &Rules,
) -> (r: Option<Step>)
    requires
        rules.bounded(),
        arrangeable(shapes(bodies@)),
        dragged < bodies@.len(),
        vacated.bounded(REACH as int),
    ensures
        step_of(shapes(bodies@), dragged, desired, vacated, current, *rules) == (match r {
            Some(step) => Some((step.deltas@, step.side)),
            None => None,
        }),
{
    let ghost all = shapes(bodies@);
    let (mut placed, mut deltas) = copy_bodies(bodies);
    let (_, unmoved) = copy_bodies(bodies);
    proof {
        lemma_wider(all, CANVAS as int, REACH as int);
    }
    let mut everyone: Vec<usize> = Vec::new();
    for i in 0..bodies.len()
        invariant
            everyone@ =~= first_indices(i as nat),
    {
        everyone.push(i);
    }
    let others = list_without(&everyone, dragged);
    proof {
        lemma_without(everyone@, dragged);
        assert forall|i: int| 0 <= i < others@.len() implies (#[trigger] others@[i])
            < bodies@.len() by {
            let j = choose|j: int| 0 <= j < everyone@.len() && everyone@[j] == others@[i];
            assert(everyone@[j] == j);
        }
        lemma_clusters_listed(all, others@, *rules);
        crate::arrange::settle::lemma_largest(all, clusters_of(all, others@, *rules));
    }
    let frame = largest_cluster(&placed, &others, rules);
    let ghost pull = Pull { dragged, desired, vacated, frame: frame@, rules: *rules };
    let ghost whole = rounds(at_rest(all), pull, 0, current);
    let mut side = current;
    let mut round: usize = 0;
    let mut done: bool = false;
    while round < SETTLE_ROUNDS && !done
        invariant
            rules.bounded(),
            placed@.len() == bodies@.len(),
            deltas@.len() == bodies@.len(),
            dragged < placed@.len(),
            others@ == bystanders(placed@.len(), dragged),
            indices_within(others@, placed@.len()),
            indices_within(frame@, placed@.len()),
            vacated.bounded(REACH as int),
            pull == (Pull { dragged, desired, vacated, frame: frame@, rules: *rules }),
            round <= SETTLE_ROUNDS,
            round > 0 ==> side is Some,
            done ==> round > 0,
            all == shapes(bodies@),
            frame@ == largest_cluster_of(all, bystanders(all.len(), dragged), *rules),
            whole == rounds(at_rest(all), pull, 0, current),
            roomy(
                canvas_of(placed@, deltas@),
                Seq::empty(),
                CANVAS + round * STRIDE - STRIDE,
            ),
            !done ==> whole == rounds(canvas_of(placed@, deltas@), pull, round as nat, side),
            done ==> whole == Some((canvas_of(placed@, deltas@), side)),
        decreases SETTLE_ROUNDS - round,
    {
        match drag_round(
            &mut placed,
            &mut deltas,
            vacated,
            desired,
            &others,
            &frame,
            round == 0,
            side,
            rules,
            dragged,
            Ghost(pull),
            Ghost(round as nat),
        ) {
            Some((resting, finished)) => {
                side = Some(resting);
                done = finished;
            },
            None => return None,
        }
        round = round + 1;
    }
    let moves = translations(&deltas);
    let net = moves[dragged];
    assert(-0x4000_0000_0000_0000 <= net.x * desired.x <= 0x4000_0000_0000_0000
        && -0x4000_0000_0000_0000 <= net.y * desired.y <= 0x4000_0000_0000_0000)
        by (nonlinear_arith)
        requires
            -0x8000_0000 <= net.x <= 0x7fff_ffff,
            -0x8000_0000 <= net.y <= 0x7fff_ffff,
            -0x8000_0000 <= desired.x <= 0x7fff_ffff,
            -0x8000_0000 <= desired.y <= 0x7fff_ffff,
    ;
    let advance: i128 = net.x as i128 * desired.x as i128 + net.y as i128 * desired.y as i128;
    let resting = match side {
        Some(resting) => resting,
        None => return None,
    };
    if advance < 0 {
        return Some(
            Step {
                deltas: translations(&unmoved),
                side: match current {
                    Some(now) => now,
                    None => resting,
                },
            },
        );
    }
    Some(Step { deltas: moves, side: resting })
}

} // verus!
