//! A drag step finds a place wherever there is something to rest against.

use crate::arrange::bounds::{bounded, moved, solid, Bounds, Rules, REACH};
use crate::arrange::cluster::{
    clusters_hang_together, clusters_of, clusters_partition_the_members, first_indices,
    separate_clusters_do_not_touch, touches,
};
use crate::arrange::drag::{
    adrift, bystanders, frame_cluster, held, lemma_adrift, lemma_without, meets, ride,
    round_placement, round_scene, round_targets, rounds, settled_canvas, step_of, without, Pull,
    Ride,
};
use crate::arrange::laws::{
    a_body_rests_wherever_there_is_something, all_targets, any_shown, apart, lemma_frame,
    lemma_join_keeps, lemma_nothing_to_rest_on, lemma_ride_keeps, lemma_settle_keeps, sound,
};
use crate::arrange::place::{all_bounded, indices_within, picked, target_seams};
use crate::arrange::settle::{
    arrangeable, at_rest, join_all, join_one, largest_cluster_of, largest_index, lemma_largest,
    lemma_moved_bounded, lemma_settle_clusters, lemma_taken_out, lemma_wider, listed, next_join,
    settle_clusters_of, shifted, Canvas, Joining, CANVAS, SETTLE_ROUNDS, STRIDE,
};
use crate::arrange::unity::{
    bridged, connected, lemma_connected_transfer, lemma_linked_connected, splits, tidy,
};
use crate::geometry::{EdgeSide, Vec2I};
use vstd::prelude::*;

verus! {

/// One shape is the other, or lies one move away from it.
pub open spec fn nudged(before: Seq<Bounds>, after: Seq<Bounds>) -> bool {
    after == before || exists|d: Vec2I| after == #[trigger] moved(before, d.x as int, d.y as int)
}

proof fn lemma_nudged(before: Seq<Bounds>, after: Seq<Bounds>, cap: int)
    requires
        nudged(before, after),
        bounded(before, cap),
        solid(before),
        0 <= cap,
        cap + STRIDE <= REACH,
    ensures
        bounded(after, cap + STRIDE),
        solid(after),
        after.len() == before.len(),
{
    if after == before {
        assert forall|i: int| 0 <= i < after.len() implies (#[trigger] after[i]).bounded(
            cap + STRIDE,
        ) by {
            assert(before[i].bounded(cap));
        }
    } else {
        let d = choose|d: Vec2I| after == #[trigger] moved(before, d.x as int, d.y as int);
        lemma_moved_bounded(before, d, cap);
        assert forall|i: int| 0 <= i < after.len() implies (#[trigger] after[i]).solid() by {
            assert(before[i].bounded(cap) && before[i].solid());
        }
    }
}

/// A cluster that joins moves once; one that still waits has not moved.
proof fn lemma_join_nudges(
    j: Joining,
    fixed: Option<Seq<usize>>,
    rules: Rules,
    gap: Option<Bounds>,
    len: nat,
    b: int,
)
    requires
        listed(j.pending, len),
        len == j.canvas.placed.len(),
        len == j.canvas.deltas.len(),
        len <= usize::MAX,
        0 <= b < len,
    ensures
        ({
            let end = join_all(j, fixed, rules, gap);
            &&& end.canvas.placed.len() == len
            &&& end.canvas.deltas.len() == len
            &&& listed(end.pending, len)
            &&& nudged(j.canvas.placed[b], end.canvas.placed[b])
            &&& !apart(end.pending, b) ==> end.canvas.placed[b] == j.canvas.placed[b]
        }),
    decreases j.pending.len(),
{
    if let Some((index, delta)) = next_join(j, fixed, rules, gap) {
        if 0 <= index < j.pending.len() {
            let next = join_one(j, index, delta);
            lemma_taken_out(j.pending, index, len);
            if j.pending[index].contains(b as usize) {
                assert(next.canvas.placed[b] == moved(
                    j.canvas.placed[b],
                    delta.x as int,
                    delta.y as int,
                ));
                assert(apart(next.pending, b)) by {
                    assert forall|k: int| 0 <= k < next.pending.len() implies !(
                    #[trigger] next.pending[k]).contains(b as usize) by {
                        if next.pending[k].contains(b as usize) {
                            let i = choose|i: int|
                                0 <= i < next.pending[k].len() && next.pending[k][i] == b as usize;
                            assert(!j.pending[index].contains(next.pending[k][i]));
                        }
                    }
                }
                lemma_join_keeps(next, fixed, rules, gap, len, b);
            } else {
                lemma_join_nudges(next, fixed, rules, gap, len, b);
            }
        }
    }
}

/// A cluster that follows a step moves once.
proof fn lemma_ride_nudges(
    start: Ride,
    pending: Seq<Seq<usize>>,
    dragged: usize,
    anchored: bool,
    step: Vec2I,
    rules: Rules,
    n: nat,
    len: nat,
    b: int,
)
    requires
        listed(pending, len),
        n <= pending.len(),
        len == start.canvas.placed.len(),
        len == start.canvas.deltas.len(),
        len <= usize::MAX,
        0 <= b < len,
    ensures
        ({
            let end = ride(start, pending, dragged, anchored, step, rules, n);
            &&& end.canvas.placed.len() == len
            &&& end.canvas.deltas.len() == len
            &&& nudged(start.canvas.placed[b], end.canvas.placed[b])
            &&& (forall|k: int| 0 <= k < n ==> !(#[trigger] pending[k]).contains(b as usize))
                ==> end.canvas.placed[b] == start.canvas.placed[b]
        }),
    decreases n,
{
    if n > 0 {
        let last = n - 1;
        lemma_ride_nudges(
            start,
            pending,
            dragged,
            anchored,
            step,
            rules,
            (n - 1) as nat,
            len,
            b,
        );
        let before = ride(start, pending, dragged, anchored, step, rules, (n - 1) as nat);
        if pending[last].contains(b as usize) {
            let p = choose|p: int| 0 <= p < pending[last].len() && pending[last][p] == b as usize;
            assert forall|k: int| 0 <= k < last implies !(#[trigger] pending[k]).contains(
                b as usize,
            ) by {
                if pending[k].contains(b as usize) {
                    let q = choose|q: int|
                        0 <= q < pending[k].len() && pending[k][q] == b as usize;
                    assert(pending[k][q] != pending[last][p]);
                }
            }
            assert(before.canvas.placed[b] == start.canvas.placed[b]);
        }
    }
}

/// Settling moves a body once at most.
proof fn lemma_settle_nudges(
    canvas: Canvas,
    dragged: usize,
    frame: Seq<usize>,
    vacated: Bounds,
    step: Vec2I,
    rules: Rules,
    b: int,
)
    requires
        canvas.placed.len() == canvas.deltas.len(),
        canvas.placed.len() <= usize::MAX,
        0 <= b < canvas.placed.len(),
    ensures
        ({
            let after = settled_canvas(canvas, dragged, frame, vacated, step, rules).canvas;
            &&& after.placed.len() == canvas.placed.len()
            &&& after.deltas.len() == canvas.deltas.len()
            &&& nudged(canvas.placed[b], after.placed[b])
        }),
{
    let len = canvas.placed.len();
    let found = settle_clusters_of(canvas.placed, Some(dragged), rules);
    lemma_settle_clusters(canvas.placed, Some(dragged), rules);
    lemma_adrift(found, frame, dragged, len, found.len());
    let standing = held(found, frame, found.len());
    let pending = adrift(found, frame, dragged, found.len());
    let base = if standing.len() == 0 {
        seq![dragged]
    } else {
        standing
    };
    let start = Joining { canvas, pending, settled: base };
    let anchors = Some(without(base, dragged));
    lemma_join_nudges(start, anchors, rules, Some(vacated), len, b);
    let joined = join_all(start, anchors, rules, Some(vacated));
    let riding = Ride {
        canvas: joined.canvas,
        settled: joined.settled,
        stirred: joined.pending.len() < pending.len(),
    };
    let anchored = joined.settled.contains(dragged);
    let n = joined.pending.len();
    lemma_ride_nudges(riding, joined.pending, dragged, anchored, step, rules, n, len, b);
    if apart(joined.pending, b) {
        lemma_ride_keeps(riding, joined.pending, dragged, anchored, step, rules, n, b);
    }
}

/// The first cluster that meets the frame.
proof fn lemma_frame_cluster(found: Seq<Seq<usize>>, frame: Seq<usize>, n: nat, k: int) -> (c: int)
    requires
        0 <= k < n <= found.len(),
        meets(found[k], frame),
        forall|i: int| 0 <= i < n ==> (#[trigger] found[i]).len() > 0,
    ensures
        0 <= c < n,
        frame_cluster(found, frame, n) == found[c],
        meets(found[c], frame),
    decreases n,
{
    let before = frame_cluster(found, frame, (n - 1) as nat);
    if before.len() == 0 && meets(found[n - 1], frame) {
        n - 1
    } else if k < n - 1 {
        lemma_frame_cluster(found, frame, (n - 1) as nat, k)
    } else {
        lemma_nonempty_cluster(found, frame, (n - 1) as nat)
    }
}

proof fn lemma_nonempty_cluster(found: Seq<Seq<usize>>, frame: Seq<usize>, n: nat) -> (c: int)
    requires
        n <= found.len(),
        frame_cluster(found, frame, n).len() > 0,
    ensures
        0 <= c < n,
        frame_cluster(found, frame, n) == found[c],
        meets(found[c], frame),
    decreases n,
{
    let before = frame_cluster(found, frame, (n - 1) as nat);
    if before.len() == 0 && meets(found[n - 1], frame) {
        n - 1
    } else {
        lemma_nonempty_cluster(found, frame, (n - 1) as nat)
    }
}

/// The cluster that a shape with displays is in.
proof fn lemma_cluster_of(placed: Seq<Seq<Bounds>>, rules: Rules, b: usize) -> (k: int)
    requires
        placed.len() <= usize::MAX,
        b < placed.len(),
        placed[b as int].len() > 0,
    ensures
        0 <= k < clusters_of(placed, first_indices(placed.len()), rules).len(),
        clusters_of(placed, first_indices(placed.len()), rules)[k].contains(b),
{
    let members = first_indices(placed.len());
    let found = clusters_of(placed, members, rules);
    clusters_partition_the_members(placed, members, rules);
    assert(members[b as int] == b);
    let (k, i) = choose|k: int, i: int|
        0 <= k < found.len() && 0 <= i < found[k].len() && #[trigger] found[k][i]
            == members[b as int];
    k
}

/// The frame holds together: all of it is in the cluster that meets it.
proof fn lemma_frame_anchored(
    placed: Seq<Seq<Bounds>>,
    frame: Seq<usize>,
    rules: Rules,
    f: int,
)
    requires
        placed.len() <= usize::MAX,
        tidy(placed),
        indices_within(frame, placed.len()),
        forall|i: int| 0 <= i < frame.len() ==> placed[#[trigger] frame[i] as int].len() > 0,
        connected(placed, frame, rules),
        0 <= f < frame.len(),
    ensures
        ({
            let found = clusters_of(placed, first_indices(placed.len()), rules);
            frame_cluster(found, frame, found.len()).contains(frame[f])
        }),
{
    let members = first_indices(placed.len());
    let found = clusters_of(placed, members, rules);
    clusters_partition_the_members(placed, members, rules);
    let k = lemma_cluster_of(placed, rules, frame[f]);
    let p = choose|p: int| 0 <= p < found[k].len() && found[k][p] == frame[f];
    assert(frame.contains(found[k][p]));
    assert(meets(found[k], frame));
    let c = lemma_frame_cluster(found, frame, found.len(), k);
    if !found[c].contains(frame[f]) {
        let s = Set::new(|u: usize| found[c].contains(u));
        let q = choose|q: int| 0 <= q < found[c].len() && frame.contains(#[trigger] found[c][q]);
        let g = choose|g: int| 0 <= g < frame.len() && frame[g] == found[c][q];
        assert(s.contains(frame[g]) && !s.contains(frame[f]));
        assert(splits(frame, s));
        assert(bridged(placed, frame, rules, s));
        let (i, j) = choose|i: int, j: int|
            0 <= i < frame.len() && 0 <= j < frame.len() && s.contains(#[trigger] frame[i])
                && !s.contains(#[trigger] frame[j]) && touches(
                placed[frame[i] as int],
                placed[frame[j] as int],
                rules,
            );
        let d = lemma_cluster_of(placed, rules, frame[j]);
        let x = choose|x: int| 0 <= x < found[c].len() && found[c][x] == frame[i];
        let y = choose|y: int| 0 <= y < found[d].len() && found[d][y] == frame[j];
        separate_clusters_do_not_touch(placed, members, rules, c, d, x, y);
    }
}

/// What has to hold for the dragged body to find a place in a round.
spec fn placeable(canvas: Canvas, pull: Pull, round: nat) -> bool {
    let placed = canvas.placed;
    &&& placed.len() <= usize::MAX
    &&& placed.len() == canvas.deltas.len()
    &&& all_bounded(placed, CANVAS + round * STRIDE)
    &&& forall|b: int| 0 <= b < placed.len() ==> solid(#[trigger] placed[b])
    &&& pull.dragged < placed.len()
    &&& placed[pull.dragged as int].len() > 0
    &&& indices_within(pull.frame, placed.len())
    &&& !pull.frame.contains(pull.dragged)
    &&& pull.frame.len() > 0
    &&& forall|i: int|
        0 <= i < pull.frame.len() ==> placed[#[trigger] pull.frame[i] as int].len() > 0
    &&& connected(placed, pull.frame, pull.rules)
}

proof fn lemma_round_found(canvas: Canvas, pull: Pull, round: nat, side: Option<EdgeSide>)
    requires
        placeable(canvas, pull, round),
        round < SETTLE_ROUNDS,
    ensures
        round_placement(canvas.placed, pull, round, side) is Some,
{
    let placed = canvas.placed;
    let frame = pull.frame;
    let scene = round_scene(placed, pull, round);
    let found = clusters_of(placed, first_indices(placed.len()), pull.rules);
    let anchored = frame_cluster(found, frame, found.len());
    let others = bystanders(placed.len(), pull.dragged);
    let list = if round == 0 || anchored.contains(pull.dragged) {
        others
    } else {
        without(anchored, pull.dragged)
    };
    let targets = picked(placed, list);
    lemma_wider(placed, CANVAS + round * STRIDE, REACH as int);
    assert(targets == round_targets(placed, pull, round));
    lemma_without(first_indices(placed.len()), pull.dragged);
    lemma_without(anchored, pull.dragged);
    clusters_partition_the_members(placed, first_indices(placed.len()), pull.rules);
    assert forall|i: int| 0 <= i < frame.len() implies list.contains(#[trigger] frame[i]) by {
        assert(frame[i] < placed.len());
        assert(frame.contains(frame[i]));
        assert(first_indices(placed.len())[frame[i] as int] == frame[i]);
        lemma_frame_anchored(placed, frame, pull.rules, i);
    }
    assert forall|i: int| 0 <= i < list.len() implies (#[trigger] list[i]) < placed.len() by {
        if list == others {
            let whole = first_indices(placed.len());
            assert(whole.contains(others[i]));
            let k = choose|k: int| 0 <= k < whole.len() && whole[k] == others[i];
        } else {
            assert(anchored.contains(list[i]));
            let a = choose|a: int| 0 <= a < anchored.len() && anchored[a] == list[i];
            let c = lemma_nonempty_cluster(found, frame, found.len());
            assert(first_indices(placed.len()).contains(found[c][a]));
            let whole = first_indices(placed.len());
            let k = choose|k: int| 0 <= k < whole.len() && whole[k] == list[i];
        }
    }
    assert(sound(scene, targets)) by {
        assert(bounded(placed[pull.dragged as int], REACH as int));
        assert(solid(placed[pull.dragged as int]));
        assert forall|t: int| 0 <= t < targets.len() implies bounded(
            #[trigger] targets[t],
            REACH as int,
        ) && solid(targets[t]) by {
            assert(list[t] < placed.len());
            assert(bounded(placed[list[t] as int], REACH as int));
        }
        assert forall|k: int| 0 <= k < scene.blocking.len() implies bounded(
            #[trigger] scene.blocking[k],
            REACH as int,
        ) by {
            assert(frame[k] < placed.len());
            assert(bounded(placed[frame[k] as int], REACH as int));
        }
    }
    assert(all_targets(scene, targets)) by {
        assert forall|k: int| 0 <= k < scene.blocking.len() implies targets.contains(
            #[trigger] scene.blocking[k],
        ) by {
            assert(list.contains(frame[k]));
            let t = choose|t: int| 0 <= t < list.len() && list[t] == frame[k];
            assert(targets[t] == scene.blocking[k]);
        }
    }
    assert(list.contains(frame[0]));
    let t = choose|t: int| 0 <= t < list.len() && list[t] == frame[0];
    assert(targets[t].len() > 0);
    a_body_rests_wherever_there_is_something(scene, targets, side);
}

proof fn lemma_rounds_found(canvas: Canvas, pull: Pull, round: nat, side: Option<EdgeSide>)
    requires
        placeable(canvas, pull, round),
        round <= SETTLE_ROUNDS,
    ensures
        rounds(canvas, pull, round, side) is Some,
    decreases SETTLE_ROUNDS - round,
{
    if round < SETTLE_ROUNDS {
        lemma_round_found(canvas, pull, round, side);
        let placement = round_placement(canvas.placed, pull, round, side)->0;
        let at = pull.dragged as int;
        let pushed = shifted(canvas, seq![pull.dragged], placement.delta);
        let after = settled_canvas(
            pushed,
            pull.dragged,
            pull.frame,
            pull.vacated,
            placement.delta,
            pull.rules,
        ).canvas;
        let cap = CANVAS + round * STRIDE;
        assert(seq![pull.dragged][0] == pull.dragged);
        assert(seq![pull.dragged].contains(pull.dragged));
        assert forall|b: int| 0 <= b < canvas.placed.len() implies nudged(
            canvas.placed[b],
            #[trigger] after.placed[b],
        ) by {
            lemma_settle_nudges(
                pushed,
                pull.dragged,
                pull.frame,
                pull.vacated,
                placement.delta,
                pull.rules,
                b,
            );
            if b == at {
                lemma_settle_keeps(
                    pushed,
                    pull.dragged,
                    pull.frame,
                    pull.vacated,
                    placement.delta,
                    pull.rules,
                    b,
                );
                assert(after.placed[b] == moved(
                    canvas.placed[b],
                    placement.delta.x as int,
                    placement.delta.y as int,
                ));
            } else {
                assert(!seq![pull.dragged].contains(b as usize));
                assert(pushed.placed[b] == canvas.placed[b]);
            }
        }
        lemma_settle_nudges(
            pushed,
            pull.dragged,
            pull.frame,
            pull.vacated,
            placement.delta,
            pull.rules,
            at,
        );
        assert forall|b: int| 0 <= b < after.placed.len() implies bounded(
            #[trigger] after.placed[b],
            CANVAS + (round + 1) * STRIDE,
        ) && solid(after.placed[b]) && after.placed[b].len() == canvas.placed[b].len() by {
            assert(bounded(canvas.placed[b], cap) && solid(canvas.placed[b]));
            lemma_nudged(canvas.placed[b], after.placed[b], cap);
            assert(CANVAS + (round + 1) * STRIDE == cap + STRIDE) by (nonlinear_arith)
                requires
                    cap == CANVAS + round * STRIDE,
            ;
        }
        assert forall|i: int| 0 <= i < pull.frame.len() implies after.placed[#[trigger] pull.frame[i]
            as int] == canvas.placed[pull.frame[i] as int] by {
            let b = pull.frame[i] as int;
            assert(pull.frame.contains(pull.frame[i]));
            assert(b != at);
            assert(!seq![pull.dragged].contains(b as usize));
            lemma_settle_keeps(
                pushed,
                pull.dragged,
                pull.frame,
                pull.vacated,
                placement.delta,
                pull.rules,
                b,
            );
        }
        lemma_connected_transfer(canvas.placed, after.placed, pull.frame, pull.rules);
        assert(placeable(after, pull, round + 1));
        lemma_rounds_found(after, pull, round + 1, Some(placement.side));
    }
}

/// A drag step has no answer exactly where the dragged body has no displays, or no other
/// body has.
pub proof fn only_nothing_leaves_a_drag_without_a_step(
    all: Seq<Seq<Bounds>>,
    dragged: usize,
    desired: Vec2I,
    vacated: Bounds,
    current: Option<EdgeSide>,
    rules: Rules,
)
    requires
        all.len() <= usize::MAX,
        arrangeable(all),
        forall|b: int| 0 <= b < all.len() ==> solid(#[trigger] all[b]),
        dragged < all.len(),
    ensures
        step_of(all, dragged, desired, vacated, current, rules) is None <==> all[dragged as int].len()
            == 0 || forall|b: int|
            0 <= b < all.len() && b != dragged ==> (#[trigger] all[b]).len() == 0,
{
    let others = bystanders(all.len(), dragged);
    let frame = largest_cluster_of(all, others, rules);
    let pull = Pull { dragged, desired, vacated, frame, rules };
    let canvas = at_rest(all);
    let whole = first_indices(all.len());
    lemma_without(whole, dragged);
    assert forall|i: int| 0 <= i < others.len() implies (#[trigger] others[i]) < all.len()
        && others[i] != dragged by {
        assert(whole.contains(others[i]));
        let k = choose|k: int| 0 <= k < whole.len() && whole[k] == others[i];
    }
    if all[dragged as int].len() == 0 {
        assert(round_placement(all, pull, 0, current) is None);
    } else if forall|b: int|
        0 <= b < all.len() && b != dragged ==> (#[trigger] all[b]).len() == 0 {
        let targets = round_targets(all, pull, 0);
        assert(!any_shown(targets)) by {
            assert forall|t: int| 0 <= t < targets.len() implies (
            #[trigger] targets[t]).len() == 0 by {
                assert(targets[t] == all[others[t] as int]);
            }
        }
        lemma_nothing_to_rest_on(round_scene(all, pull, 0), targets, targets.len());
        assert(target_seams(round_scene(all, pull, 0), targets, targets.len()).len() == 0);
        assert(round_placement(all, pull, 0, current) is None);
    } else {
        let b = choose|b: int|
            0 <= b < all.len() && b != dragged && (#[trigger] all[b]).len() > 0;
        let found = clusters_of(all, others, rules);
        clusters_partition_the_members(all, others, rules);
        clusters_hang_together(all, others, rules);
        lemma_largest(all, found);
        lemma_frame(all, dragged, rules);
        lemma_wider(all, CANVAS as int, REACH as int);
        assert(whole[b] == b as usize);
        assert(others.contains(b as usize));
        let m = choose|m: int| 0 <= m < others.len() && others[m] == b as usize;
        let (k, i) = choose|k: int, i: int|
            0 <= k < found.len() && 0 <= i < found[k].len() && #[trigger] found[k][i] == others[m];
        let best = largest_index(all, found, found.len())->0;
        assert(frame == found[best]);
        lemma_linked_connected(all, frame, rules);
        assert forall|i: int| 0 <= i < frame.len() implies all[#[trigger] frame[i] as int].len()
            > 0 by {
            assert(found[best][i] == frame[i]);
        }
        assert(placeable(canvas, pull, 0));
        lemma_rounds_found(canvas, pull, 0, current);
    }
}

} // verus!
