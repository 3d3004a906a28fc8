//! What the arrangement rules promise.

use crate::arrange::bounds::{
    abs_int, bounded, hull_of, moved, overlapping, quotient, solid, Bounds, Rules, REACH,
};
use crate::arrange::cluster::{clusters_of, first_indices, seam_side_of, touches};
use crate::arrange::distance::{shorter_by, shorter_by_nothing_compares_squares};
use crate::arrange::drag::{
    adrift, against, bystanders, held, lemma_adrift, lemma_without, ride, round_placement,
    round_scene, round_targets, rounds, settled_canvas, step_of, still, without, Pull, Ride,
};
use crate::arrange::place::{
    ahead_of, aligned, all_bounded, best_seam, body_seams, clear_at, cross_delta, hits, in_axis,
    indices_within, is_nearest, kept_to_axis, nearest_point, nearest_seam, placement_of,
    reach_square, rect_seams, rest_of, seam_high, seam_low, side_at, side_seams, step_x, step_y,
    target_seams, wanted_along, Candidate, Placement, Rest, Scene,
};
use crate::arrange::settle::{
    as_translations, at_rest, join_all, join_one, largest_cluster_of, largest_index,
    lemma_clusters_listed, lemma_largest, lemma_settle_clusters, lemma_taken_out, listed,
    next_join, settle_clusters_of, shifted, Canvas, Joining, SETTLE_ROUNDS,
};
use crate::geometry::{EdgeSide, Vec2I};
use vstd::prelude::*;

verus! {

/// Every shape of a scene and its targets is solid and within reach.
pub open spec fn sound(scene: Scene, targets: Seq<Seq<Bounds>>) -> bool {
    &&& bounded(scene.moving, REACH as int)
    &&& solid(scene.moving)
    &&& all_bounded(targets, REACH as int)
    &&& forall|t: int| 0 <= t < targets.len() ==> solid(#[trigger] targets[t])
    &&& all_bounded(scene.blocking, REACH as int)
}

/// `c` rests some moving rectangle against some rectangle of a target.
pub open spec fn is_seam(scene: Scene, targets: Seq<Seq<Bounds>>, c: Candidate) -> bool {
    exists|t: int, a: int, m: int|
        0 <= t < targets.len() && 0 <= a < targets[t].len() && 0 <= m < scene.moving.len()
            && rest_of(
            scene,
            #[trigger] scene.moving[m],
            #[trigger] targets[t][a],
            targets[t],
            c.side,
        ) == Some(c.rest)
}

proof fn lemma_side_seams(
    scene: Scene,
    targets: Seq<Seq<Bounds>>,
    t: int,
    a: int,
    m: int,
    n: nat,
    i: int,
)
    requires
        0 <= t < targets.len(),
        0 <= a < targets[t].len(),
        0 <= m < scene.moving.len(),
        0 <= i < side_seams(scene, scene.moving[m], targets[t][a], targets[t], n).len(),
    ensures
        is_seam(
            scene,
            targets,
            side_seams(scene, scene.moving[m], targets[t][a], targets[t], n)[i],
        ),
    decreases n,
{
    if n > 0 {
        let before = side_seams(
            scene,
            scene.moving[m],
            targets[t][a],
            targets[t],
            (n - 1) as nat,
        );
        if i < before.len() {
            lemma_side_seams(scene, targets, t, a, m, (n - 1) as nat, i);
        }
    }
}

proof fn lemma_rect_seams(
    scene: Scene,
    targets: Seq<Seq<Bounds>>,
    t: int,
    a: int,
    n: nat,
    i: int,
)
    requires
        0 <= t < targets.len(),
        0 <= a < targets[t].len(),
        n <= scene.moving.len(),
        0 <= i < rect_seams(scene, targets[t][a], targets[t], n).len(),
    ensures
        is_seam(scene, targets, rect_seams(scene, targets[t][a], targets[t], n)[i]),
    decreases n,
{
    if n > 0 {
        let before = rect_seams(scene, targets[t][a], targets[t], (n - 1) as nat);
        if i < before.len() {
            lemma_rect_seams(scene, targets, t, a, (n - 1) as nat, i);
        } else {
            lemma_side_seams(scene, targets, t, a, n - 1, 4, i - before.len());
        }
    }
}

proof fn lemma_body_seams(scene: Scene, targets: Seq<Seq<Bounds>>, t: int, n: nat, i: int)
    requires
        0 <= t < targets.len(),
        n <= targets[t].len(),
        0 <= i < body_seams(scene, targets[t], n).len(),
    ensures
        is_seam(scene, targets, body_seams(scene, targets[t], n)[i]),
    decreases n,
{
    if n > 0 {
        let before = body_seams(scene, targets[t], (n - 1) as nat);
        if i < before.len() {
            lemma_body_seams(scene, targets, t, (n - 1) as nat, i);
        } else {
            lemma_rect_seams(
                scene,
                targets,
                t,
                n - 1,
                scene.moving.len(),
                i - before.len(),
            );
        }
    }
}

proof fn lemma_target_seams(scene: Scene, targets: Seq<Seq<Bounds>>, n: nat, i: int)
    requires
        n <= targets.len(),
        0 <= i < target_seams(scene, targets, n).len(),
    ensures
        is_seam(scene, targets, target_seams(scene, targets, n)[i]),
    decreases n,
{
    if n > 0 {
        let before = target_seams(scene, targets, (n - 1) as nat);
        if i < before.len() {
            lemma_target_seams(scene, targets, (n - 1) as nat, i);
        } else {
            lemma_body_seams(scene, targets, n - 1, targets[n - 1].len(), i - before.len());
        }
    }
}

proof fn lemma_best_is_one(
    seams: Seq<Candidate>,
    keep: bool,
    current: Option<EdgeSide>,
    rules: Rules,
    desired: Vec2I,
)
    ensures
        best_seam(seams, keep, current, rules, desired) matches Some(c) ==> exists|i: int|
            0 <= i < seams.len() && #[trigger] seams[i] == c,
    decreases seams.len(),
{
    if seams.len() > 0 {
        let front = seams.drop_last();
        lemma_best_is_one(front, keep, current, rules, desired);
        if let Some(c) = best_seam(seams, keep, current, rules, desired) {
            if c == seams.last() {
                assert(seams[seams.len() - 1] == c);
            } else {
                let i = choose|i: int| 0 <= i < front.len() && #[trigger] front[i] == c;
                assert(seams[i] == c);
            }
        }
    }
}

/// A resting place is clear of everything, and its seam is long enough.
proof fn lemma_rest(
    scene: Scene,
    rect: Bounds,
    anchor: Bounds,
    neighbour: Seq<Bounds>,
    side: EdgeSide,
    rest: Rest,
)
    requires
        rect.bounded(REACH as int),
        anchor.bounded(REACH as int),
        rect.solid(),
        anchor.solid(),
        rest_of(scene, rect, anchor, neighbour, side) == Some(rest),
    ensures
        !hits(scene.moving, rest.dx as int, rest.dy as int, neighbour),
        forall|k: int|
            0 <= k < scene.blocking.len() ==> !hits(
                scene.moving,
                rest.dx as int,
                rest.dy as int,
                #[trigger] scene.blocking[k],
            ),
        seam_side_of(rect.moved(rest.dx as int, rest.dy as int), anchor, scene.rules) == Some(side),
        -4 * REACH <= rest.dx <= 4 * REACH,
        -4 * REACH <= rest.dy <= 4 * REACH,
{
    let cross = cross_delta(rect, anchor, side);
    let low = seam_low(scene.rules, rect.along(side), anchor.along(side));
    let high = seam_high(scene.rules, rect.along(side), anchor.along(side));
    let target = wanted_along(scene.desired, side);
    let free = |along: int| clear_at(scene, neighbour, side, cross, along);
    let along = nearest_point(low, high, target, free)->0;
    assert(is_nearest(low, high, target, free, along));
    let position = aligned(
        hull_of(scene.moving)->0.along(side),
        hull_of(neighbour)->0.along(side),
        low,
        high,
        free,
        scene.rules.align_tolerance as int,
        along,
    );
    assert(low <= position <= high && free(position));
    assert(clear_at(scene, neighbour, side, cross, position));
    assert(rest.dx == step_x(side, cross, position));
    assert(rest.dy == step_y(side, cross, position));
}

/// Overlap of moved shapes is overlap at a distance.
proof fn lemma_hits(a: Seq<Bounds>, dx: int, dy: int, b: Seq<Bounds>)
    requires
        bounded(a, REACH as int),
        -4 * REACH <= dx <= 4 * REACH,
        -4 * REACH <= dy <= 4 * REACH,
    ensures
        hits(a, dx, dy, b) == overlapping(moved(a, dx, dy), b),
{
    let there = moved(a, dx, dy);
    assert forall|i: int, j: int| 0 <= i < a.len() && 0 <= j < b.len() implies (
    #[trigger] a[i]).crosses_at(dx, dy, #[trigger] b[j]) == there[i].crosses(b[j]) by {
        assert(a[i].bounded(REACH as int));
    }
    if hits(a, dx, dy, b) {
        let (i, j) = choose|i: int, j: int|
            0 <= i < a.len() && 0 <= j < b.len() && (#[trigger] a[i]).crosses_at(
                dx,
                dy,
                #[trigger] b[j],
            );
        assert(there[i].crosses(b[j]));
    }
    if overlapping(there, b) {
        let (i, j) = choose|i: int, j: int|
            0 <= i < there.len() && 0 <= j < b.len() && (#[trigger] there[i]).crosses(
                #[trigger] b[j],
            );
        assert(a[i].crosses_at(dx, dy, b[j]));
    }
}

/// The seam a placement takes.
pub open spec fn chosen_seam(
    scene: Scene,
    targets: Seq<Seq<Bounds>>,
    current: Option<EdgeSide>,
) -> Option<Candidate> {
    let seams = target_seams(scene, targets, targets.len());
    best_seam(
        seams,
        kept_to_axis(seams, current, scene.desired),
        current,
        scene.rules,
        scene.desired,
    )
}

/// The seam chosen is not farther away than a translation can say.
pub open spec fn within_translation(
    scene: Scene,
    targets: Seq<Seq<Bounds>>,
    current: Option<EdgeSide>,
) -> bool {
    chosen_seam(scene, targets, current) matches Some(c) ==> i32::MIN <= c.rest.dx <= i32::MAX
        && i32::MIN <= c.rest.dy <= i32::MAX
}

/// A placed body rests against a target on the side it says, along a seam long enough, and
/// overlaps nothing that blocks it.
pub proof fn a_placement_rests_and_overlaps_nothing(
    scene: Scene,
    targets: Seq<Seq<Bounds>>,
    current: Option<EdgeSide>,
    placement: Placement,
)
    requires
        sound(scene, targets),
        placement_of(scene, targets, current) == Some(placement),
        within_translation(scene, targets, current),
    ensures
        forall|k: int|
            0 <= k < scene.blocking.len() ==> !overlapping(
                moved(scene.moving, placement.delta.x as int, placement.delta.y as int),
                #[trigger] scene.blocking[k],
            ),
        exists|t: int, a: int, m: int|
            0 <= t < targets.len() && 0 <= a < targets[t].len() && 0 <= m < scene.moving.len()
                && seam_side_of(
                (#[trigger] scene.moving[m]).moved(
                    placement.delta.x as int,
                    placement.delta.y as int,
                ),
                #[trigger] targets[t][a],
                scene.rules,
            ) == Some(placement.side) && !overlapping(
                moved(scene.moving, placement.delta.x as int, placement.delta.y as int),
                targets[t],
            ) && touches(
                moved(scene.moving, placement.delta.x as int, placement.delta.y as int),
                targets[t],
                scene.rules,
            ),
{
    let seams = target_seams(scene, targets, targets.len());
    let keep = kept_to_axis(seams, current, scene.desired);
    lemma_best_is_one(seams, keep, current, scene.rules, scene.desired);
    let c = chosen_seam(scene, targets, current)->0;
    let i = choose|i: int| 0 <= i < seams.len() && #[trigger] seams[i] == c;
    lemma_target_seams(scene, targets, targets.len(), i);
    let (t, a, m) = choose|t: int, a: int, m: int|
        0 <= t < targets.len() && 0 <= a < targets[t].len() && 0 <= m < scene.moving.len()
            && rest_of(
            scene,
            #[trigger] scene.moving[m],
            #[trigger] targets[t][a],
            targets[t],
            c.side,
        ) == Some(c.rest);
    assert(bounded(targets[t], REACH as int));
    assert(solid(targets[t]));
    assert(targets[t][a].bounded(REACH as int) && targets[t][a].solid());
    assert(scene.moving[m].bounded(REACH as int) && scene.moving[m].solid());
    lemma_rest(scene, scene.moving[m], targets[t][a], targets[t], c.side, c.rest);
    let dx = placement.delta.x as int;
    let dy = placement.delta.y as int;
    assert(dx == c.rest.dx && dy == c.rest.dy);
    assert forall|k: int| 0 <= k < scene.blocking.len() implies !overlapping(
        moved(scene.moving, dx, dy),
        #[trigger] scene.blocking[k],
    ) by {
        lemma_hits(scene.moving, dx, dy, scene.blocking[k]);
    }
    lemma_hits(scene.moving, dx, dy, targets[t]);
    assert(moved(scene.moving, dx, dy)[m] == scene.moving[m].moved(dx, dy));
    assert(touches(moved(scene.moving, dx, dy), targets[t], scene.rules));
}

// ---- somewhere to rest ----

/// Whatever blocks is also a target.
pub open spec fn all_targets(scene: Scene, targets: Seq<Seq<Bounds>>) -> bool {
    forall|k: int|
        0 <= k < scene.blocking.len() ==> targets.contains(#[trigger] scene.blocking[k])
}

/// Some target has a rectangle to rest against.
pub open spec fn any_shown(targets: Seq<Seq<Bounds>>) -> bool {
    exists|t: int| 0 <= t < targets.len() && (#[trigger] targets[t]).len() > 0
}

/// The rightmost of a shape's rectangles.
proof fn lemma_rightmost(shape: Seq<Bounds>) -> (a: int)
    requires
        shape.len() > 0,
    ensures
        0 <= a < shape.len(),
        forall|i: int| 0 <= i < shape.len() ==> (#[trigger] shape[i]).right <= shape[a].right,
    decreases shape.len(),
{
    if shape.len() == 1 {
        0
    } else {
        let front = shape.drop_last();
        let a = lemma_rightmost(front);
        let last = shape.len() - 1;
        assert forall|i: int| 0 <= i < last implies (#[trigger] shape[i]).right
            <= shape[a].right by {
            assert(front[i] == shape[i]);
        }
        if shape[last].right > shape[a].right {
            last
        } else {
            a
        }
    }
}

/// The leftmost of a shape's rectangles.
proof fn lemma_leftmost(shape: Seq<Bounds>) -> (m: int)
    requires
        shape.len() > 0,
    ensures
        0 <= m < shape.len(),
        forall|i: int| 0 <= i < shape.len() ==> shape[m].left <= (#[trigger] shape[i]).left,
    decreases shape.len(),
{
    if shape.len() == 1 {
        0
    } else {
        let front = shape.drop_last();
        let m = lemma_leftmost(front);
        let last = shape.len() - 1;
        assert forall|i: int| 0 <= i < last implies shape[m].left <= (
        #[trigger] shape[i]).left by {
            assert(front[i] == shape[i]);
        }
        if shape[last].left < shape[m].left {
            last
        } else {
            m
        }
    }
}

/// The rightmost rectangle among the first targets.
proof fn lemma_rightmost_target(targets: Seq<Seq<Bounds>>, n: int) -> (r: (int, int))
    requires
        0 <= n <= targets.len(),
        any_shown(targets.take(n)),
    ensures
        0 <= r.0 < n,
        0 <= r.1 < targets[r.0].len(),
        forall|t: int, a: int|
            0 <= t < n && 0 <= a < targets[t].len() ==> (#[trigger] targets[t][a]).right
                <= targets[r.0][r.1].right,
    decreases n,
{
    let some = targets.take(n);
    let before = targets.take(n - 1);
    let last = n - 1;
    assert forall|t: int| 0 <= t < last implies #[trigger] before[t] == some[t] by {}
    if any_shown(before) {
        let r = lemma_rightmost_target(targets, n - 1);
        if targets[last].len() > 0 {
            let a = lemma_rightmost(targets[last]);
            if targets[last][a].right > targets[r.0][r.1].right {
                (last, a)
            } else {
                r
            }
        } else {
            r
        }
    } else {
        let t = choose|t: int| 0 <= t < some.len() && (#[trigger] some[t]).len() > 0;
        if t < last {
            assert(before[t].len() > 0);
        }
        assert forall|u: int| 0 <= u < last implies (#[trigger] targets[u]).len() == 0 by {
            if targets[u].len() > 0 {
                assert(before[u].len() > 0);
            }
        }
        (last, lemma_rightmost(targets[last]))
    }
}

/// Beyond the right end of everything that blocks it, a body always finds a place.
proof fn lemma_place_beyond(
    scene: Scene,
    targets: Seq<Seq<Bounds>>,
    t: int,
    a: int,
    m: int,
) -> (rest: Rest)
    requires
        sound(scene, targets),
        all_targets(scene, targets),
        0 <= t < targets.len(),
        0 <= a < targets[t].len(),
        0 <= m < scene.moving.len(),
        forall|u: int, b: int|
            0 <= u < targets.len() && 0 <= b < targets[u].len() ==> (#[trigger] targets[u][b]).right
                <= targets[t][a].right,
        forall|i: int|
            0 <= i < scene.moving.len() ==> scene.moving[m].left <= (
            #[trigger] scene.moving[i]).left,
    ensures
        rest_of(scene, scene.moving[m], targets[t][a], targets[t], EdgeSide::Left) == Some(rest),
{
    let side = EdgeSide::Left;
    let rect = scene.moving[m];
    let anchor = targets[t][a];
    assert(bounded(targets[t], REACH as int) && solid(targets[t]));
    assert(rect.solid() && anchor.solid());
    let cross = cross_delta(rect, anchor, side);
    let low = seam_low(scene.rules, rect.along(side), anchor.along(side));
    let high = seam_high(scene.rules, rect.along(side), anchor.along(side));
    let target = wanted_along(scene.desired, side);
    let free = |p: int| clear_at(scene, targets[t], side, cross, p);
    assert(low <= high);
    assert forall|u: int| 0 <= u < targets.len() implies !hits(
        scene.moving,
        step_x(side, cross, low),
        step_y(side, cross, low),
        #[trigger] targets[u],
    ) by {
        assert forall|i: int, b: int|
            0 <= i < scene.moving.len() && 0 <= b < targets[u].len() implies !(
        #[trigger] scene.moving[i]).crosses_at(
            step_x(side, cross, low),
            step_y(side, cross, low),
            #[trigger] targets[u][b],
        ) by {
            assert(targets[u][b].right <= anchor.right);
        }
    }
    assert(free(low)) by {
        assert forall|k: int| 0 <= k < scene.blocking.len() implies !hits(
            scene.moving,
            step_x(side, cross, low),
            step_y(side, cross, low),
            #[trigger] scene.blocking[k],
        ) by {
            let u = choose|u: int| 0 <= u < targets.len() && targets[u] == scene.blocking[k];
            assert(targets.contains(scene.blocking[k]));
        }
    }
    lemma_nearest_exists(low, high, target, free, low);
    rest_of(scene, rect, anchor, targets[t], side)->0
}

proof fn lemma_best_exists(
    seams: Seq<Candidate>,
    keep: bool,
    current: Option<EdgeSide>,
    rules: Rules,
    desired: Vec2I,
    i: int,
)
    requires
        0 <= i < seams.len(),
        keep ==> in_axis(current, seams[i].side),
    ensures
        best_seam(seams, keep, current, rules, desired) is Some,
    decreases seams.len(),
{
    if i < seams.len() - 1 {
        lemma_best_exists(seams.drop_last(), keep, current, rules, desired, i);
    }
}

proof fn lemma_nearest_is_one(
    seams: Seq<Candidate>,
    current: Option<EdgeSide>,
    exact: bool,
    desired: Vec2I,
)
    ensures
        nearest_seam(seams, current, exact, desired) is Some ==> exists|i: int|
            0 <= i < seams.len() && in_axis(current, (#[trigger] seams[i]).side),
    decreases seams.len(),
{
    if seams.len() > 0 {
        let front = seams.drop_last();
        lemma_nearest_is_one(front, current, exact, desired);
        if nearest_seam(front, current, exact, desired) is Some {
            let i = choose|i: int|
                0 <= i < front.len() && in_axis(current, (#[trigger] front[i]).side);
            assert(in_axis(current, seams[i].side));
        } else if nearest_seam(seams, current, exact, desired) is Some {
            assert(in_axis(current, seams[seams.len() - 1].side));
        }
    }
}

pub(crate) proof fn lemma_nothing_to_rest_on(scene: Scene, targets: Seq<Seq<Bounds>>, n: nat)
    requires
        n <= targets.len(),
        !any_shown(targets),
    ensures
        target_seams(scene, targets, n).len() == 0,
    decreases n,
{
    if n > 0 {
        lemma_nothing_to_rest_on(scene, targets, (n - 1) as nat);
        assert(targets[n - 1].len() == 0);
    }
}

/// A body finds a place exactly where there is something to rest against, as long as nothing
/// blocks it but what it may rest against.
pub proof fn a_body_rests_wherever_there_is_something(
    scene: Scene,
    targets: Seq<Seq<Bounds>>,
    current: Option<EdgeSide>,
)
    requires
        sound(scene, targets),
        all_targets(scene, targets),
        scene.moving.len() > 0,
    ensures
        placement_of(scene, targets, current) is Some <==> any_shown(targets),
{
    let seams = target_seams(scene, targets, targets.len());
    let keep = kept_to_axis(seams, current, scene.desired);
    if any_shown(targets) {
        assert(targets.take(targets.len() as int) =~= targets);
        let (t, a) = lemma_rightmost_target(targets, targets.len() as int);
        let m = lemma_leftmost(scene.moving);
        let rest = lemma_place_beyond(scene, targets, t, a, m);
        let c = Candidate { side: EdgeSide::Left, rest };
        lemma_side_listed(scene, scene.moving[m], targets[t][a], targets[t], 4, 0, rest);
        lemma_rect_listed(scene, targets[t][a], targets[t], scene.moving.len(), m, c);
        lemma_body_listed(scene, targets[t], targets[t].len(), a, c);
        lemma_target_listed(scene, targets, targets.len(), t, c);
        let k = choose|k: int| 0 <= k < seams.len() && seams[k] == c;
        if keep {
            lemma_nearest_is_one(seams, current, true, scene.desired);
            lemma_nearest_is_one(seams, current, false, scene.desired);
            let i = choose|i: int|
                0 <= i < seams.len() && in_axis(current, (#[trigger] seams[i]).side);
            lemma_best_exists(seams, keep, current, scene.rules, scene.desired, i);
        } else {
            lemma_best_exists(seams, keep, current, scene.rules, scene.desired, k);
        }
    } else {
        lemma_nothing_to_rest_on(scene, targets, targets.len());
    }
}

/// `resolve` has no answer exactly where the moving body has no displays, or none of the
/// fixed ones has.
pub proof fn only_nothing_leaves_a_body_unplaced(
    moving: Seq<Bounds>,
    desired: Vec2I,
    fixed: Seq<Seq<Bounds>>,
    rules: Rules,
    current: Option<EdgeSide>,
)
    requires
        bounded(moving, REACH as int),
        solid(moving),
        all_bounded(fixed, REACH as int),
        forall|t: int| 0 <= t < fixed.len() ==> solid(#[trigger] fixed[t]),
    ensures
        moving.len() > 0 ==> (placement_of(
            Scene { moving, blocking: fixed, rules, desired },
            fixed,
            current,
        ) is None <==> !any_shown(fixed)),
{
    let scene = Scene { moving, blocking: fixed, rules, desired };
    if moving.len() > 0 {
        assert(all_targets(scene, fixed)) by {
            assert forall|k: int| 0 <= k < fixed.len() implies fixed.contains(
                #[trigger] scene.blocking[k],
            ) by {
                assert(fixed[k] == scene.blocking[k]);
            }
        }
        a_body_rests_wherever_there_is_something(scene, fixed, current);
    }
}

// ---- the frame of a drag ----

/// A body is in none of the lists.
pub open spec fn apart(pending: Seq<Seq<usize>>, b: int) -> bool {
    forall|k: int| 0 <= k < pending.len() ==> !(#[trigger] pending[k]).contains(b as usize)
}

pub(crate) proof fn lemma_join_keeps(
    j: Joining,
    fixed: Option<Seq<usize>>,
    rules: Rules,
    gap: Option<Bounds>,
    len: nat,
    b: int,
)
    requires
        listed(j.pending, len),
        len == j.canvas.placed.len(),
        len == j.canvas.deltas.len(),
        0 <= b < len,
        apart(j.pending, b),
    ensures
        join_all(j, fixed, rules, gap).canvas.placed[b] == j.canvas.placed[b],
        join_all(j, fixed, rules, gap).canvas.deltas[b] == j.canvas.deltas[b],
        join_all(j, fixed, rules, gap).canvas.placed.len() == len,
        join_all(j, fixed, rules, gap).canvas.deltas.len() == len,
        apart(join_all(j, fixed, rules, gap).pending, b),
        listed(join_all(j, fixed, rules, gap).pending, len),
    decreases j.pending.len(),
{
    if let Some((index, delta)) = next_join(j, fixed, rules, gap) {
        if 0 <= index < j.pending.len() {
            lemma_taken_out(j.pending, index, len);
            let next = join_one(j, index, delta);
            assert(apart(next.pending, b)) by {
                assert forall|k: int| 0 <= k < next.pending.len() implies !(
                #[trigger] next.pending[k]).contains(b as usize) by {
                    let m = choose|m: int|
                        0 <= m < j.pending.len() && m != index && #[trigger] j.pending[m]
                            == next.pending[k];
                    assert(!j.pending[m].contains(b as usize));
                }
            }
            lemma_join_keeps(next, fixed, rules, gap, len, b);
        }
    }
}

pub(crate) proof fn lemma_ride_keeps(
    start: Ride,
    pending: Seq<Seq<usize>>,
    dragged: usize,
    anchored: bool,
    step: Vec2I,
    rules: Rules,
    n: nat,
    b: int,
)
    requires
        n <= pending.len(),
        start.canvas.placed.len() == start.canvas.deltas.len(),
        0 <= b < start.canvas.placed.len(),
        apart(pending, b),
    ensures
        ride(start, pending, dragged, anchored, step, rules, n).canvas.placed[b]
            == start.canvas.placed[b],
        ride(start, pending, dragged, anchored, step, rules, n).canvas.deltas[b]
            == start.canvas.deltas[b],
        ride(start, pending, dragged, anchored, step, rules, n).canvas.placed.len()
            == start.canvas.placed.len(),
        ride(start, pending, dragged, anchored, step, rules, n).canvas.deltas.len()
            == start.canvas.deltas.len(),
    decreases n,
{
    if n > 0 {
        lemma_ride_keeps(start, pending, dragged, anchored, step, rules, (n - 1) as nat, b);
        assert(!pending[n - 1].contains(b as usize));
    }
}

pub(crate) proof fn lemma_settle_keeps(
    canvas: Canvas,
    dragged: usize,
    frame: Seq<usize>,
    vacated: Bounds,
    step: Vec2I,
    rules: Rules,
    b: int,
)
    requires
        canvas.placed.len() == canvas.deltas.len(),
        canvas.placed.len() <= usize::MAX,
        0 <= b < canvas.placed.len(),
        frame.contains(b as usize) || b == dragged,
    ensures
        settled_canvas(canvas, dragged, frame, vacated, step, rules).canvas.placed[b]
            == canvas.placed[b],
        settled_canvas(canvas, dragged, frame, vacated, step, rules).canvas.deltas[b]
            == canvas.deltas[b],
        settled_canvas(canvas, dragged, frame, vacated, step, rules).canvas.placed.len()
            == canvas.placed.len(),
        settled_canvas(canvas, dragged, frame, vacated, step, rules).canvas.deltas.len()
            == canvas.deltas.len(),
{
    let len = canvas.placed.len();
    let found = settle_clusters_of(canvas.placed, Some(dragged), rules);
    lemma_settle_clusters(canvas.placed, Some(dragged), rules);
    lemma_adrift(found, frame, dragged, len, found.len());
    let standing = held(found, frame, found.len());
    let pending = adrift(found, frame, dragged, found.len());
    let base = if standing.len() == 0 {
        seq![dragged]
    } else {
        standing
    };
    assert(apart(pending, b)) by {
        assert forall|k: int| 0 <= k < pending.len() implies !(#[trigger] pending[k]).contains(
            b as usize,
        ) by {
            if pending[k].contains(b as usize) {
                let i = choose|i: int| 0 <= i < pending[k].len() && pending[k][i] == b as usize;
                assert(pending[k][i] != dragged && !frame.contains(pending[k][i]));
            }
        }
    }
    let start = Joining { canvas, pending, settled: base };
    let anchors = Some(without(base, dragged));
    lemma_join_keeps(start, anchors, rules, Some(vacated), len, b);
    let joined = join_all(start, anchors, rules, Some(vacated));
    lemma_ride_keeps(
        Ride {
            canvas: joined.canvas,
            settled: joined.settled,
            stirred: joined.pending.len() < pending.len(),
        },
        joined.pending,
        dragged,
        joined.settled.contains(dragged),
        step,
        rules,
        joined.pending.len(),
        b,
    );
}

proof fn lemma_rounds_keep(
    canvas: Canvas,
    pull: Pull,
    round: nat,
    side: Option<EdgeSide>,
    b: int,
)
    requires
        canvas.placed.len() == canvas.deltas.len(),
        canvas.placed.len() <= usize::MAX,
        0 <= b < canvas.placed.len(),
        pull.frame.contains(b as usize),
        b != pull.dragged,
    ensures
        rounds(canvas, pull, round, side) matches Some((after, _)) ==> after.deltas[b]
            == canvas.deltas[b] && after.placed[b] == canvas.placed[b] && after.deltas.len()
            == canvas.deltas.len(),
    decreases SETTLE_ROUNDS - round,
{
    if round < SETTLE_ROUNDS {
        if let Some(placement) = round_placement(canvas.placed, pull, round, side) {
            let pushed = shifted(canvas, seq![pull.dragged], placement.delta);
            lemma_settle_keeps(
                pushed,
                pull.dragged,
                pull.frame,
                pull.vacated,
                placement.delta,
                pull.rules,
                b,
            );
            let after = settled_canvas(
                pushed,
                pull.dragged,
                pull.frame,
                pull.vacated,
                placement.delta,
                pull.rules,
            );
            lemma_rounds_keep(after.canvas, pull, round + 1, Some(placement.side), b);
        }
    }
}

/// Among positions that are free, there is a nearest.
proof fn lemma_nearest_exists(low: int, high: int, target: int, free: spec_fn(int) -> bool, q: int)
    requires
        low <= q <= high,
        free(q),
    ensures
        exists|p: int| is_nearest(low, high, target, free, p),
    decreases
            2 * abs_int(q - target) + if q > target {
                1int
            } else {
                0
            },
{
    if !is_nearest(low, high, target, free, q) {
        let better = choose|p: int|
            low <= p <= high && #[trigger] free(p) && !(abs_int(q - target) < abs_int(p - target)
                || (abs_int(q - target) == abs_int(p - target) && q <= p));
        lemma_nearest_exists(low, high, target, free, better);
    }
}

/// With nothing to line up with, a body rests where its seam brings it nearest.
proof fn lemma_rest_is_nearest(
    scene: Scene,
    rect: Bounds,
    anchor: Bounds,
    neighbour: Seq<Bounds>,
    side: EdgeSide,
    along: int,
)
    requires
        rect.bounded(REACH as int),
        anchor.bounded(REACH as int),
        rect.solid(),
        anchor.solid(),
        scene.rules.align_tolerance == 0,
        seam_low(scene.rules, rect.along(side), anchor.along(side)) <= along <= seam_high(
            scene.rules,
            rect.along(side),
            anchor.along(side),
        ),
        clear_at(scene, neighbour, side, cross_delta(rect, anchor, side), along),
    ensures
        rest_of(scene, rect, anchor, neighbour, side) matches Some(rest) && reach_square(
            Candidate { side, rest },
            scene.desired,
        ) <= square_to(
            step_x(side, cross_delta(rect, anchor, side), along),
            step_y(side, cross_delta(rect, anchor, side), along),
            scene.desired,
        ),
{
    let cross = cross_delta(rect, anchor, side);
    let low = seam_low(scene.rules, rect.along(side), anchor.along(side));
    let high = seam_high(scene.rules, rect.along(side), anchor.along(side));
    let target = wanted_along(scene.desired, side);
    let free = |p: int| clear_at(scene, neighbour, side, cross, p);
    assert(free(along));
    lemma_nearest_exists(low, high, target, free, along);
    let found = nearest_point(low, high, target, free)->0;
    assert(is_nearest(low, high, target, free, found));
    let position = aligned(
        hull_of(scene.moving)->0.along(side),
        hull_of(neighbour)->0.along(side),
        low,
        high,
        free,
        0,
        found,
    );
    assert(position == found);
    let rest = rest_of(scene, rect, anchor, neighbour, side)->0;
    assert(rest.dx == step_x(side, cross, found));
    assert(rest.dy == step_y(side, cross, found));
    let near = abs_int(found - target);
    let far = abs_int(along - target);
    assert(near <= far);
    assert((found - target) * (found - target) <= (along - target) * (along - target))
        by (nonlinear_arith)
        requires
            near == abs_int(found - target),
            far == abs_int(along - target),
            near <= far,
    {
        assert(near * near == (found - target) * (found - target));
        assert(far * far == (along - target) * (along - target));
        assert(near * near <= far * far);
    }
}

proof fn lemma_side_listed(
    scene: Scene,
    rect: Bounds,
    anchor: Bounds,
    body: Seq<Bounds>,
    n: nat,
    i: int,
    rest: Rest,
)
    requires
        0 <= i < n,
        rest_of(scene, rect, anchor, body, side_at(i)) == Some(rest),
    ensures
        side_seams(scene, rect, anchor, body, n).contains(Candidate { side: side_at(i), rest }),
    decreases n,
{
    let c = Candidate { side: side_at(i), rest };
    let all = side_seams(scene, rect, anchor, body, n);
    let before = side_seams(scene, rect, anchor, body, (n - 1) as nat);
    if i == n - 1 {
        assert(all.last() == c);
        assert(all[all.len() - 1] == c);
    } else {
        lemma_side_listed(scene, rect, anchor, body, (n - 1) as nat, i, rest);
        let k = choose|k: int| 0 <= k < before.len() && before[k] == c;
        assert(all[k] == c);
    }
}

proof fn lemma_joined_lists<A>(a: Seq<A>, b: Seq<A>, c: A)
    requires
        a.contains(c) || b.contains(c),
    ensures
        (a + b).contains(c),
{
    if a.contains(c) {
        let k = choose|k: int| 0 <= k < a.len() && a[k] == c;
        assert((a + b)[k] == c);
    } else {
        let k = choose|k: int| 0 <= k < b.len() && b[k] == c;
        assert((a + b)[a.len() + k] == c);
    }
}

proof fn lemma_rect_listed(
    scene: Scene,
    anchor: Bounds,
    body: Seq<Bounds>,
    n: nat,
    m: int,
    c: Candidate,
)
    requires
        0 <= m < n,
        side_seams(scene, scene.moving[m], anchor, body, 4).contains(c),
    ensures
        rect_seams(scene, anchor, body, n).contains(c),
    decreases n,
{
    if m < n - 1 {
        lemma_rect_listed(scene, anchor, body, (n - 1) as nat, m, c);
    }
    lemma_joined_lists(
        rect_seams(scene, anchor, body, (n - 1) as nat),
        side_seams(scene, scene.moving[n - 1], anchor, body, 4),
        c,
    );
}

proof fn lemma_body_listed(scene: Scene, body: Seq<Bounds>, n: nat, a: int, c: Candidate)
    requires
        0 <= a < n,
        rect_seams(scene, body[a], body, scene.moving.len()).contains(c),
    ensures
        body_seams(scene, body, n).contains(c),
    decreases n,
{
    if a < n - 1 {
        lemma_body_listed(scene, body, (n - 1) as nat, a, c);
    }
    lemma_joined_lists(
        body_seams(scene, body, (n - 1) as nat),
        rect_seams(scene, body[n - 1], body, scene.moving.len()),
        c,
    );
}

proof fn lemma_target_listed(
    scene: Scene,
    targets: Seq<Seq<Bounds>>,
    n: nat,
    t: int,
    c: Candidate,
)
    requires
        0 <= t < n,
        body_seams(scene, targets[t], targets[t].len()).contains(c),
    ensures
        target_seams(scene, targets, n).contains(c),
    decreases n,
{
    if t < n - 1 {
        lemma_target_listed(scene, targets, (n - 1) as nat, t, c);
    }
    lemma_joined_lists(
        target_seams(scene, targets, (n - 1) as nat),
        body_seams(scene, targets[n - 1], targets[n - 1].len()),
        c,
    );
}

/// What is shorter by some length stays so when it gets shorter still.
proof fn lemma_shorter_still(a: int, b: int, c: int, k: int)
    requires
        0 <= a <= b,
        0 <= k,
        shorter_by(b, c, k),
    ensures
        shorter_by(a, c, k),
{
    let far = c - b - k * k;
    let near = c - a - k * k;
    assert((2 * k) * (2 * k) * a <= (2 * k) * (2 * k) * b && far * far <= near * near)
        by (nonlinear_arith)
        requires
            0 <= a <= b,
            0 < far <= near,
    {
        assert((2 * k) * (2 * k) >= 0);
    }
}

/// A candidate that moves the body.
pub open spec fn moves(c: Candidate) -> bool {
    c.rest.dx != 0 || c.rest.dy != 0
}

/// Against the best of some candidates, none that moves the body is nearer; where staying
/// put is the best, none is nearer by more than staying put is preferred.
pub open spec fn unbeaten(seams: Seq<Candidate>, best: Candidate, desired: Vec2I, k: int) -> bool {
    forall|i: int|
        0 <= i < seams.len() && moves(#[trigger] seams[i]) ==> if moves(best) {
            reach_square(best, desired) <= reach_square(seams[i], desired)
        } else {
            !shorter_by(reach_square(seams[i], desired), reach_square(best, desired), k)
        }
}

proof fn lemma_reach_square(c: Candidate, desired: Vec2I)
    ensures
        reach_square(c, desired) >= 0,
{
    let x = c.rest.dx - desired.x;
    let y = c.rest.dy - desired.y;
    assert(x * x >= 0 && y * y >= 0) by (nonlinear_arith);
}

proof fn lemma_best_unbeaten(seams: Seq<Candidate>, keep: bool, rules: Rules, desired: Vec2I)
    requires
        rules.min_seam >= 0,
    ensures
        seams.len() > 0 ==> best_seam(seams, keep, None, rules, desired) is Some,
        best_seam(seams, keep, None, rules, desired) matches Some(best) ==> unbeaten(
            seams,
            best,
            desired,
            quotient(rules.min_seam as int, 4),
        ),
    decreases seams.len(),
{
    if seams.len() > 0 {
        let front = seams.drop_last();
        let c = seams.last();
        let k = quotient(rules.min_seam as int, 4);
        assert(k >= 0);
        lemma_best_unbeaten(front, keep, rules, desired);
        let best = best_seam(seams, keep, None, rules, desired)->0;
        lemma_reach_square(c, desired);
        assert forall|i: int| 0 <= i < seams.len() && moves(#[trigger] seams[i]) implies if moves(
            best,
        ) {
            reach_square(best, desired) <= reach_square(seams[i], desired)
        } else {
            !shorter_by(reach_square(seams[i], desired), reach_square(best, desired), k)
        } by {
            let other = seams[i];
            lemma_reach_square(other, desired);
            lemma_reach_square(best, desired);
            if front.len() > 0 {
                let before = best_seam(front, keep, None, rules, desired)->0;
                lemma_reach_square(before, desired);
                shorter_by_nothing_compares_squares(
                    reach_square(c, desired),
                    reach_square(before, desired),
                );
                if i < front.len() {
                    assert(front[i] == other);
                    if best == c && ahead_of(c, before, None, rules, desired) {
                        lemma_passes_on(other, before, c, desired, k);
                    }
                } else {
                    assert(other == c);
                    shorter_by_nothing_compares_squares(
                        reach_square(c, desired),
                        reach_square(c, desired),
                    );
                }
            } else {
                assert(other == c && best == c);
            }
        }
    }
}

/// What an earlier best was not beaten by, does not beat the one that replaced it.
proof fn lemma_passes_on(
    other: Candidate,
    before: Candidate,
    best: Candidate,
    desired: Vec2I,
    k: int,
)
    requires
        k >= 0,
        moves(other),
        if moves(before) {
            reach_square(before, desired) <= reach_square(other, desired)
        } else {
            !shorter_by(reach_square(other, desired), reach_square(before, desired), k)
        },
        shorter_by(
            reach_square(best, desired),
            reach_square(before, desired),
            (if moves(before) {
                0
            } else {
                k
            }) - if moves(best) {
                0
            } else {
                k
            },
        ),
    ensures
        if moves(best) {
            reach_square(best, desired) <= reach_square(other, desired)
        } else {
            !shorter_by(reach_square(other, desired), reach_square(best, desired), k)
        },
{
    let o = reach_square(other, desired);
    let b = reach_square(before, desired);
    let n = reach_square(best, desired);
    lemma_reach_square(other, desired);
    lemma_reach_square(before, desired);
    lemma_reach_square(best, desired);
    if moves(before) && moves(best) {
        shorter_by_nothing_compares_squares(n, b);
    } else if moves(before) {
        assert((2 * k) * (2 * k) == (2 * -k) * (2 * -k) && k * k == -k * -k) by (nonlinear_arith);
        if shorter_by(o, n, k) {
            lemma_shorter_still(b, o, n, k);
            if k == 0 {
                shorter_by_nothing_compares_squares(n, b);
                shorter_by_nothing_compares_squares(b, n);
            }
        }
    } else if moves(best) {
        if o < n {
            lemma_shorter_still(o, n, b, k);
        }
    } else {
        shorter_by_nothing_compares_squares(n, b);
        if shorter_by(o, n, k) {
            assert(n < b);
            lemma_longer_still(o, n, b, k);
        }
    }
}

/// What is shorter by some length than another is so than any that is longer.
proof fn lemma_longer_still(a: int, b: int, c: int, k: int)
    requires
        0 <= a,
        b <= c,
        0 <= k,
        shorter_by(a, b, k),
    ensures
        shorter_by(a, c, k),
{
    let near = b - a - k * k;
    let far = c - a - k * k;
    assert(near * near <= far * far) by (nonlinear_arith)
        requires
            0 < near <= far,
    ;
}

/// The square of the distance between a translation and the one the pointer asks for.
pub open spec fn square_to(dx: int, dy: int, desired: Vec2I) -> int {
    (dx - desired.x) * (dx - desired.x) + (dy - desired.y) * (dy - desired.y)
}

/// A body that rests on no side yet, with nothing to line up with, comes to rest at the
/// nearest place there is: no translation that rests it against a target along a seam long
/// enough, clear of everything, is nearer to what the pointer asks for. Only staying put is
/// preferred to a nearer place, and only where that is nearer by a quarter of the shortest
/// seam at most.
pub proof fn no_resting_place_is_nearer(
    scene: Scene,
    targets: Seq<Seq<Bounds>>,
    placement: Placement,
    t: int,
    a: int,
    m: int,
    side: EdgeSide,
    along: int,
)
    requires
        sound(scene, targets),
        scene.rules.min_seam >= 0,
        scene.rules.align_tolerance == 0,
        placement_of(scene, targets, None) == Some(placement),
        within_translation(scene, targets, None),
        0 <= t < targets.len(),
        0 <= a < targets[t].len(),
        0 <= m < scene.moving.len(),
        seam_low(scene.rules, scene.moving[m].along(side), targets[t][a].along(side)) <= along
            <= seam_high(scene.rules, scene.moving[m].along(side), targets[t][a].along(side)),
        clear_at(
            scene,
            targets[t],
            side,
            cross_delta(scene.moving[m], targets[t][a], side),
            along,
        ),
    ensures
        ({
            let dx = step_x(side, cross_delta(scene.moving[m], targets[t][a], side), along);
            let dy = step_y(side, cross_delta(scene.moving[m], targets[t][a], side), along);
            let here = square_to(
                placement.delta.x as int,
                placement.delta.y as int,
                scene.desired,
            );
            if placement.delta == still() {
                !shorter_by(
                    square_to(dx, dy, scene.desired),
                    here,
                    quotient(scene.rules.min_seam as int, 4),
                )
            } else {
                here <= square_to(dx, dy, scene.desired)
            }
        }),
{
    let rect = scene.moving[m];
    let anchor = targets[t][a];
    let body = targets[t];
    assert(bounded(targets[t], REACH as int) && solid(targets[t]));
    lemma_rest_is_nearest(scene, rect, anchor, body, side, along);
    let rest = rest_of(scene, rect, anchor, body, side)->0;
    let c = Candidate { side, rest };
    let i: int = match side {
        EdgeSide::Left => 0,
        EdgeSide::Right => 1,
        EdgeSide::Top => 2,
        EdgeSide::Bottom => 3,
    };
    assert(side_at(i) == side);
    lemma_side_listed(scene, rect, anchor, body, 4, i, rest);
    lemma_rect_listed(scene, anchor, body, scene.moving.len(), m, c);
    lemma_body_listed(scene, body, body.len(), a, c);
    lemma_target_listed(scene, targets, targets.len(), t, c);
    let seams = target_seams(scene, targets, targets.len());
    let keep = kept_to_axis(seams, None, scene.desired);
    lemma_best_unbeaten(seams, keep, scene.rules, scene.desired);
    let best = best_seam(seams, keep, None, scene.rules, scene.desired)->0;
    let k = choose|k: int| 0 <= k < seams.len() && seams[k] == c;
    assert(placement.delta.x == best.rest.dx && placement.delta.y == best.rest.dy);
    if moves(best) && !moves(c) {
        lemma_best_prefers_staying(seams, keep, scene.rules, scene.desired, k);
    }
    if !moves(best) {
        let credit = quotient(scene.rules.min_seam as int, 4);
        let cross = cross_delta(rect, anchor, side);
        let there = square_to(step_x(side, cross, along), step_y(side, cross, along), scene.desired);
        let here = reach_square(best, scene.desired);
        lemma_reach_square(c, scene.desired);
        assert(credit * credit >= 0) by (nonlinear_arith);
        if shorter_by(there, here, credit) {
            lemma_shorter_still(reach_square(c, scene.desired), there, here, credit);
        }
    }
}

/// Where staying put is possible and something else is chosen, that is nearer.
proof fn lemma_best_prefers_staying(
    seams: Seq<Candidate>,
    keep: bool,
    rules: Rules,
    desired: Vec2I,
    i: int,
)
    requires
        rules.min_seam >= 0,
        0 <= i < seams.len(),
        !moves(seams[i]),
        moves(best_seam(seams, keep, None, rules, desired)->0),
    ensures
        reach_square(best_seam(seams, keep, None, rules, desired)->0, desired) <= reach_square(
            seams[i],
            desired,
        ),
    decreases seams.len(),
{
    let front = seams.drop_last();
    let c = seams.last();
    let k = quotient(rules.min_seam as int, 4);
    let best = best_seam(seams, keep, None, rules, desired)->0;
    lemma_best_unbeaten(front, keep, rules, desired);
    lemma_reach_square(best, desired);
    lemma_reach_square(seams[i], desired);
    if front.len() > 0 {
        let before = best_seam(front, keep, None, rules, desired)->0;
        lemma_reach_square(before, desired);
        lemma_reach_square(c, desired);
        if i < front.len() {
            assert(front[i] == seams[i]);
            if moves(before) {
                lemma_best_prefers_staying(front, keep, rules, desired, i);
                if best == c && ahead_of(c, before, None, rules, desired) {
                    shorter_by_nothing_compares_squares(
                        reach_square(c, desired),
                        reach_square(before, desired),
                    );
                }
            } else {
                assert(reach_square(before, desired) == reach_square(seams[i], desired));
                assert(best == c);
                assert(k * k >= 0) by (nonlinear_arith);
            }
        } else {
            assert(c == seams[i]);
            assert(best == before);
            lemma_stays_behind(reach_square(c, desired), reach_square(before, desired), k);
        }
    } else {
        assert(best == c && seams[i] == c);
    }
}

/// What is not shorter than another even when that is made longer is not shorter.
proof fn lemma_stays_behind(a: int, b: int, k: int)
    requires
        0 <= a,
        0 <= b,
        0 <= k,
        !shorter_by(a, b, -k),
    ensures
        b <= a,
{
    if k == 0 {
        shorter_by_nothing_compares_squares(a, b);
    } else {
        let rest = a - b - (-k) * (-k);
        assert((-k) * (-k) >= 0) by (nonlinear_arith);
    }
}

/// The frame of a drag, the largest cluster of the other bodies, never moves.
pub proof fn the_frame_never_moves(
    all: Seq<Seq<Bounds>>,
    dragged: usize,
    desired: Vec2I,
    vacated: Bounds,
    current: Option<EdgeSide>,
    rules: Rules,
    b: usize,
)
    requires
        all.len() <= usize::MAX,
        largest_cluster_of(all, bystanders(all.len(), dragged), rules).contains(b),
    ensures
        step_of(all, dragged, desired, vacated, current, rules) matches Some((deltas, _))
            ==> deltas.len() == all.len() && deltas[b as int] == still(),
{
    let frame = largest_cluster_of(all, bystanders(all.len(), dragged), rules);
    lemma_frame(all, dragged, rules);
    let i = choose|i: int| 0 <= i < frame.len() && frame[i] == b;
    assert(frame[i] < all.len());
    let pull = Pull { dragged, desired, vacated, frame, rules };
    lemma_rounds_keep(at_rest(all), pull, 0, current, b as int);
}

/// The rounds of a drag lead nowhere that a translation cannot say.
pub open spec fn rounds_fit(canvas: Canvas, pull: Pull, round: nat, side: Option<EdgeSide>) -> bool
    decreases SETTLE_ROUNDS - round,
{
    if round >= SETTLE_ROUNDS {
        true
    } else {
        match round_placement(canvas.placed, pull, round, side) {
            None => true,
            Some(placement) => {
                let after = settled_canvas(
                    shifted(canvas, seq![pull.dragged], placement.delta),
                    pull.dragged,
                    pull.frame,
                    pull.vacated,
                    placement.delta,
                    pull.rules,
                );
                let scene = round_scene(canvas.placed, pull, round);
                let targets = round_targets(canvas.placed, pull, round);
                &&& sound(scene, targets)
                &&& within_translation(scene, targets, side)
                &&& (placement.delta == still() && !after.stirred) || rounds_fit(
                    after.canvas,
                    pull,
                    round + 1,
                    Some(placement.side),
                )
            },
        }
    }
}

/// A displacement that a translation can say.
pub open spec fn sayable(delta: (int, int)) -> bool {
    i32::MIN <= delta.0 <= i32::MAX && i32::MIN <= delta.1 <= i32::MAX
}

/// The dragged body stands where its displacement puts it, clear of the frame.
spec fn off_the_frame(start: Seq<Bounds>, canvas: Canvas, pull: Pull) -> bool {
    let at = pull.dragged as int;
    &&& canvas.placed[at] == moved(start, canvas.deltas[at].0, canvas.deltas[at].1)
    &&& forall|i: int|
        0 <= i < pull.frame.len() ==> !overlapping(
            canvas.placed[at],
            canvas.placed[#[trigger] pull.frame[i] as int],
        )
}

/// Moving on from where a body was moved to.
proof fn lemma_moved_on(shape: Seq<Bounds>, dx: int, dy: int, x: int, y: int)
    requires
        bounded(shape, REACH as int),
        -REACH <= dx <= REACH,
        -REACH <= dy <= REACH,
        -REACH <= x <= REACH,
        -REACH <= y <= REACH,
    ensures
        moved(moved(shape, dx, dy), x, y) == moved(shape, dx + x, dy + y),
{
    assert forall|i: int| 0 <= i < shape.len() implies (#[trigger] moved(moved(shape, dx, dy), x, y)[i])
        == moved(shape, dx + x, dy + y)[i] by {
        assert(shape[i].bounded(REACH as int));
    }
    assert(moved(moved(shape, dx, dy), x, y) =~= moved(shape, dx + x, dy + y));
}

proof fn lemma_rounds_clear(
    start: Seq<Bounds>,
    canvas: Canvas,
    pull: Pull,
    round: nat,
    side: Option<EdgeSide>,
)
    requires
        bounded(start, REACH as int),
        canvas.placed.len() == canvas.deltas.len(),
        canvas.placed.len() <= usize::MAX,
        pull.dragged < canvas.placed.len(),
        indices_within(pull.frame, canvas.placed.len()),
        !pull.frame.contains(pull.dragged),
        rounds_fit(canvas, pull, round, side),
        round <= SETTLE_ROUNDS,
        canvas.placed[pull.dragged as int] == moved(
            start,
            canvas.deltas[pull.dragged as int].0,
            canvas.deltas[pull.dragged as int].1,
        ),
        -0x8000_0000 * round <= canvas.deltas[pull.dragged as int].0 <= 0x8000_0000 * round,
        -0x8000_0000 * round <= canvas.deltas[pull.dragged as int].1 <= 0x8000_0000 * round,
        round > 0 ==> off_the_frame(start, canvas, pull),
    ensures
        rounds(canvas, pull, round, side) matches Some((after, _)) ==> off_the_frame(
            start,
            after,
            pull,
        ),
    decreases SETTLE_ROUNDS - round,
{
    if round < SETTLE_ROUNDS {
        if let Some(placement) = round_placement(canvas.placed, pull, round, side) {
            let at = pull.dragged as int;
            let scene = round_scene(canvas.placed, pull, round);
            let targets = round_targets(canvas.placed, pull, round);
            a_placement_rests_and_overlaps_nothing(scene, targets, side, placement);
            let pushed = shifted(canvas, seq![pull.dragged], placement.delta);
            assert(seq![pull.dragged][0] == pull.dragged);
            assert(seq![pull.dragged].contains(at as usize));
            lemma_moved_on(
                start,
                canvas.deltas[at].0,
                canvas.deltas[at].1,
                placement.delta.x as int,
                placement.delta.y as int,
            );
            let after = settled_canvas(
                pushed,
                pull.dragged,
                pull.frame,
                pull.vacated,
                placement.delta,
                pull.rules,
            );
            lemma_settle_keeps(
                pushed,
                pull.dragged,
                pull.frame,
                pull.vacated,
                placement.delta,
                pull.rules,
                at,
            );
            assert forall|i: int| 0 <= i < pull.frame.len() implies !overlapping(
                after.canvas.placed[at],
                after.canvas.placed[#[trigger] pull.frame[i] as int],
            ) by {
                let b = pull.frame[i] as int;
                assert(pull.frame.contains(pull.frame[i]));
                lemma_settle_keeps(
                    pushed,
                    pull.dragged,
                    pull.frame,
                    pull.vacated,
                    placement.delta,
                    pull.rules,
                    b,
                );
                assert(b != at);
                assert(!seq![pull.dragged].contains(b as usize));
                assert(pushed.placed[b] == canvas.placed[b]);
                assert(scene.blocking[i] == canvas.placed[b]);
            }
            assert(off_the_frame(start, after.canvas, pull));
            if !(placement.delta == still() && !after.stirred) {
                lemma_rounds_clear(start, after.canvas, pull, round + 1, Some(placement.side));
            }
        }
    }
}

/// A drag step that is taken leaves the dragged body clear of the frame. Left out are drags
/// that lead farther than a translation can say.
pub proof fn the_dragged_body_stays_off_the_frame(
    all: Seq<Seq<Bounds>>,
    dragged: usize,
    desired: Vec2I,
    vacated: Bounds,
    current: Option<EdgeSide>,
    rules: Rules,
    b: usize,
)
    requires
        all.len() <= usize::MAX,
        dragged < all.len(),
        bounded(all[dragged as int], REACH as int),
        largest_cluster_of(all, bystanders(all.len(), dragged), rules).contains(b),
        ({
            let frame = largest_cluster_of(all, bystanders(all.len(), dragged), rules);
            let pull = Pull { dragged, desired, vacated, frame, rules };
            &&& rounds_fit(at_rest(all), pull, 0, current)
            &&& rounds(at_rest(all), pull, 0, current) matches Some((canvas, _)) ==> sayable(
                canvas.deltas[dragged as int],
            )
        }),
    ensures
        step_of(all, dragged, desired, vacated, current, rules) matches Some((deltas, _))
            ==> deltas == Seq::new(all.len(), |i: int| still()) || !overlapping(
            moved(
                all[dragged as int],
                deltas[dragged as int].x as int,
                deltas[dragged as int].y as int,
            ),
            all[b as int],
        ),
{
    let others = bystanders(all.len(), dragged);
    let frame = largest_cluster_of(all, others, rules);
    let pull = Pull { dragged, desired, vacated, frame, rules };
    lemma_frame(all, dragged, rules);
    let start = all[dragged as int];
    assert(moved(start, 0, 0) =~= start) by {
        assert forall|i: int| 0 <= i < start.len() implies (#[trigger] moved(start, 0, 0)[i])
            == start[i] by {
            assert(start[i].bounded(REACH as int));
        }
    }
    lemma_rounds_clear(start, at_rest(all), pull, 0, current);
    lemma_rounds_keep(at_rest(all), pull, 0, current, b as int);
    if let Some((canvas, _)) = rounds(at_rest(all), pull, 0, current) {
        let i = choose|i: int| 0 <= i < frame.len() && frame[i] == b;
        assert(!overlapping(canvas.placed[dragged as int], canvas.placed[frame[i] as int]));
        assert(as_translations(at_rest(all).deltas) =~= Seq::new(all.len(), |i: int| still()));
    }
}

/// The frame is made of other bodies.
pub(crate) proof fn lemma_frame(all: Seq<Seq<Bounds>>, dragged: usize, rules: Rules)
    requires
        all.len() <= usize::MAX,
    ensures
        indices_within(
            largest_cluster_of(all, bystanders(all.len(), dragged), rules),
            all.len(),
        ),
        !largest_cluster_of(all, bystanders(all.len(), dragged), rules).contains(dragged),
{
    let others = bystanders(all.len(), dragged);
    let frame = largest_cluster_of(all, others, rules);
    lemma_without(first_indices(all.len()), dragged);
    assert forall|i: int| 0 <= i < others.len() implies (#[trigger] others[i]) < all.len() by {
        let whole = first_indices(all.len());
        let j = choose|j: int| 0 <= j < whole.len() && whole[j] == others[i];
        assert(whole[j] == j);
    }
    lemma_clusters_listed(all, others, rules);
    let found = clusters_of(all, others, rules);
    lemma_largest(all, found);
    if let Some(best) = largest_index(all, found, found.len()) {
        assert(frame == found[best]);
        assert(indices_within(found[best], all.len()));
        if frame.contains(dragged) {
            let i = choose|i: int| 0 <= i < frame.len() && frame[i] == dragged;
            assert(others.contains(found[best][i]));
            let k = choose|k: int| 0 <= k < others.len() && others[k] == dragged;
            assert(others[k] != dragged);
        }
    }
}

/// A drag step never moves the dragged body against the pointer.
pub proof fn a_drag_step_never_moves_against_the_pointer(
    all: Seq<Seq<Bounds>>,
    dragged: usize,
    desired: Vec2I,
    vacated: Bounds,
    current: Option<EdgeSide>,
    rules: Rules,
)
    requires
        dragged < all.len(),
    ensures
        step_of(all, dragged, desired, vacated, current, rules) matches Some((deltas, _))
            ==> !against(deltas[dragged as int], desired),
{
    let zero = as_translations(at_rest(all).deltas)[dragged as int];
    assert(zero == still());
    assert(zero.x * desired.x + zero.y * desired.y == 0) by (nonlinear_arith)
        requires
            zero.x == 0,
            zero.y == 0,
    ;
}

} // verus!
