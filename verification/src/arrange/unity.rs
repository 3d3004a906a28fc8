//! A repaired arrangement is one connected cluster without overlaps.

use crate::arrange::bounds::{
    bounded, moved, overlapping, solid, Bounds, Rules, REACH,
};
use crate::arrange::cluster::{
    clusters_hang_together, clusters_of, clusters_partition_the_members, distinct, level_side,
    linked, seam_side_of, separate_clusters_do_not_touch, touches, touching_is_mutual,
};
use crate::arrange::laws::{
    a_body_rests_wherever_there_is_something, a_placement_rests_and_overlaps_nothing, apart,
    lemma_join_keeps, sound, within_translation,
};
use crate::arrange::place::{all_bounded, indices_within, picked, Scene};
use crate::arrange::settle::{
    arrangeable, as_translations, at_rest, clear_list, join_all, join_one, joined_canvas,
    largest_index, lemma_arrangeable, lemma_largest, lemma_merged, lemma_moved_bounded,
    lemma_room_kept, lemma_settle_clusters, lemma_singles, lemma_sorted_out, lemma_taken_out,
    lemma_wider, listed, merged_shape, misplaced, misplaced_list, nearest_join, next_join,
    obstacles, outsiders, reattachment, roomy, settle_clusters_of, shifted, singles, taken_out,
    Canvas, Joining, CANVAS, STRIDE,
};
use crate::geometry::Vec2I;
use vstd::prelude::*;

verus! {

/// Some of the bodies in a list are in `s`, and some are not.
pub open spec fn splits(list: Seq<usize>, s: Set<usize>) -> bool {
    exists|i: int, j: int|
        0 <= i < list.len() && 0 <= j < list.len() && s.contains(#[trigger] list[i])
            && !s.contains(#[trigger] list[j])
}

/// A body in `s` touches one that is not.
pub open spec fn bridged(
    all: Seq<Seq<Bounds>>,
    list: Seq<usize>,
    rules: Rules,
    s: Set<usize>,
) -> bool {
    exists|i: int, j: int|
        0 <= i < list.len() && 0 <= j < list.len() && s.contains(#[trigger] list[i])
            && !s.contains(#[trigger] list[j]) && touches(
            all[list[i] as int],
            all[list[j] as int],
            rules,
        )
}

/// However the bodies in a list are divided in two, the parts touch.
pub open spec fn connected(all: Seq<Seq<Bounds>>, list: Seq<usize>, rules: Rules) -> bool {
    forall|s: Set<usize>| #[trigger] splits(list, s) ==> bridged(all, list, rules, s)
}

/// Every shape is solid and within reach.
pub open spec fn tidy(all: Seq<Seq<Bounds>>) -> bool {
    &&& all_bounded(all, REACH as int)
    &&& forall|b: int| 0 <= b < all.len() ==> solid(#[trigger] all[b])
}

proof fn lemma_bridge(
    all: Seq<Seq<Bounds>>,
    list: Seq<usize>,
    rules: Rules,
    s: Set<usize>,
    i: int,
)
    requires
        tidy(all),
        indices_within(list, all.len()),
        linked(all, rules, list),
        0 <= i < list.len(),
        s.contains(list[0]) != s.contains(list[i]),
    ensures
        bridged(all, list, rules, s),
    decreases i,
{
    let j = choose|j: int|
        0 <= j < i && touches(all[#[trigger] list[j] as int], all[list[i] as int], rules);
    assert(list[i] < all.len() && list[j] < all.len());
    touching_is_mutual(all[list[j] as int], all[list[i] as int], rules);
    if s.contains(list[j]) == s.contains(list[i]) {
        lemma_bridge(all, list, rules, s, j);
    }
}

/// A list whose entries touch earlier ones is connected.
pub(crate) proof fn lemma_linked_connected(all: Seq<Seq<Bounds>>, list: Seq<usize>, rules: Rules)
    requires
        tidy(all),
        indices_within(list, all.len()),
        linked(all, rules, list),
    ensures
        connected(all, list, rules),
{
    assert forall|s: Set<usize>| #[trigger] splits(list, s) implies bridged(
        all,
        list,
        rules,
        s,
    ) by {
        let (i, j) = choose|i: int, j: int|
            0 <= i < list.len() && 0 <= j < list.len() && s.contains(#[trigger] list[i])
                && !s.contains(#[trigger] list[j]);
        if s.contains(list[0]) {
            lemma_bridge(all, list, rules, s, j);
        } else {
            lemma_bridge(all, list, rules, s, i);
        }
    }
}

/// Two connected lists that touch are connected together.
proof fn lemma_union_connected(
    all: Seq<Seq<Bounds>>,
    one: Seq<usize>,
    two: Seq<usize>,
    rules: Rules,
    a: int,
    b: int,
)
    requires
        tidy(all),
        indices_within(one, all.len()),
        indices_within(two, all.len()),
        connected(all, one, rules),
        connected(all, two, rules),
        0 <= a < one.len(),
        0 <= b < two.len(),
        touches(all[two[b] as int], all[one[a] as int], rules),
    ensures
        connected(all, one + two, rules),
{
    let both = one + two;
    assert forall|i: int| 0 <= i < one.len() implies both[i] == #[trigger] one[i] by {}
    assert forall|i: int| 0 <= i < two.len() implies both[one.len() + i] == #[trigger] two[i] by {}
    assert(one[a] < all.len() && two[b] < all.len());
    touching_is_mutual(all[two[b] as int], all[one[a] as int], rules);
    assert forall|s: Set<usize>| #[trigger] splits(both, s) implies bridged(
        all,
        both,
        rules,
        s,
    ) by {
        if splits(one, s) {
            assert(bridged(all, one, rules, s));
            let (i, j) = choose|i: int, j: int|
                0 <= i < one.len() && 0 <= j < one.len() && s.contains(#[trigger] one[i])
                    && !s.contains(#[trigger] one[j]) && touches(
                    all[one[i] as int],
                    all[one[j] as int],
                    rules,
                );
            assert(both[i] == one[i] && both[j] == one[j]);
        } else if splits(two, s) {
            assert(bridged(all, two, rules, s));
            let (i, j) = choose|i: int, j: int|
                0 <= i < two.len() && 0 <= j < two.len() && s.contains(#[trigger] two[i])
                    && !s.contains(#[trigger] two[j]) && touches(
                    all[two[i] as int],
                    all[two[j] as int],
                    rules,
                );
            assert(both[one.len() + i] == two[i] && both[one.len() + j] == two[j]);
        } else {
            let (i, j) = choose|i: int, j: int|
                0 <= i < both.len() && 0 <= j < both.len() && s.contains(#[trigger] both[i])
                    && !s.contains(#[trigger] both[j]);
            assert(both[a] == one[a] && both[one.len() + b] == two[b]);
            if i < one.len() {
                assert(both[i] == one[i]);
                assert(s.contains(one[a]));
                assert(j >= one.len());
                assert(both[j] == two[j - one.len()]);
                assert(!s.contains(two[b]));
            } else {
                assert(both[i] == two[i - one.len()]);
                assert(s.contains(two[b]));
                assert(j < one.len());
                assert(both[j] == one[j]);
                assert(!s.contains(one[a]));
            }
        }
    }
}

/// Connection depends only on what touches what.
pub(crate) proof fn lemma_connected_transfer(
    before: Seq<Seq<Bounds>>,
    after: Seq<Seq<Bounds>>,
    list: Seq<usize>,
    rules: Rules,
)
    requires
        connected(before, list, rules),
        forall|i: int, j: int|
            0 <= i < list.len() && 0 <= j < list.len() ==> touches(
                before[#[trigger] list[i] as int],
                before[#[trigger] list[j] as int],
                rules,
            ) == touches(after[list[i] as int], after[list[j] as int], rules),
    ensures
        connected(after, list, rules),
{
    assert forall|s: Set<usize>| #[trigger] splits(list, s) implies bridged(
        after,
        list,
        rules,
        s,
    ) by {
        assert(bridged(before, list, rules, s));
        let (i, j) = choose|i: int, j: int|
            0 <= i < list.len() && 0 <= j < list.len() && s.contains(#[trigger] list[i])
                && !s.contains(#[trigger] list[j]) && touches(
                before[list[i] as int],
                before[list[j] as int],
                rules,
            );
        assert(touches(after[list[i] as int], after[list[j] as int], rules));
    }
}

/// Moving two rectangles alike changes neither whether they overlap nor their seam.
proof fn lemma_rects_moved_alike(x: Bounds, y: Bounds, dx: int, dy: int, rules: Rules)
    requires
        x.bounded(CANVAS as int),
        y.bounded(CANVAS as int),
        -STRIDE <= dx <= STRIDE,
        -STRIDE <= dy <= STRIDE,
    ensures
        x.moved(dx, dy).crosses(y.moved(dx, dy)) == x.crosses(y),
        seam_side_of(x.moved(dx, dy), y.moved(dx, dy), rules) == seam_side_of(x, y, rules),
{
    let u = x.moved(dx, dy);
    let v = y.moved(dx, dy);
    assert(level_side(u, v) == level_side(x, y));
    if let Some(side) = level_side(x, y) {
        assert(u.along(side).common(v.along(side)).length() == x.along(side).common(
            y.along(side),
        ).length());
        assert(u.along(side).length() == x.along(side).length());
        assert(v.along(side).length() == y.along(side).length());
    }
}

/// Moving two shapes alike changes neither whether they overlap nor whether they touch.
proof fn lemma_moved_alike(a: Seq<Bounds>, b: Seq<Bounds>, delta: Vec2I, rules: Rules)
    requires
        bounded(a, CANVAS as int),
        bounded(b, CANVAS as int),
    ensures
        overlapping(
            moved(a, delta.x as int, delta.y as int),
            moved(b, delta.x as int, delta.y as int),
        ) == overlapping(a, b),
        touches(
            moved(a, delta.x as int, delta.y as int),
            moved(b, delta.x as int, delta.y as int),
            rules,
        ) == touches(a, b, rules),
{
    let dx = delta.x as int;
    let dy = delta.y as int;
    let ma = moved(a, dx, dy);
    let mb = moved(b, dx, dy);
    if overlapping(a, b) {
        let (i, j) = choose|i: int, j: int|
            0 <= i < a.len() && 0 <= j < b.len() && (#[trigger] a[i]).crosses(#[trigger] b[j]);
        assert(a[i].bounded(CANVAS as int) && b[j].bounded(CANVAS as int));
        assert(ma[i].crosses(mb[j]));
    }
    if overlapping(ma, mb) {
        let (i, j) = choose|i: int, j: int|
            0 <= i < ma.len() && 0 <= j < mb.len() && (#[trigger] ma[i]).crosses(#[trigger] mb[j]);
        assert(a[i].bounded(CANVAS as int) && b[j].bounded(CANVAS as int));
        assert(a[i].crosses(b[j]));
    }
    lemma_touch_moved_alike(a, b, delta, rules);
}

proof fn lemma_touch_moved_alike(a: Seq<Bounds>, b: Seq<Bounds>, delta: Vec2I, rules: Rules)
    requires
        bounded(a, CANVAS as int),
        bounded(b, CANVAS as int),
    ensures
        touches(
            moved(a, delta.x as int, delta.y as int),
            moved(b, delta.x as int, delta.y as int),
            rules,
        ) == touches(a, b, rules),
{
    let dx = delta.x as int;
    let dy = delta.y as int;
    let ma = moved(a, dx, dy);
    let mb = moved(b, dx, dy);
    if touches(a, b, rules) {
        let (i, j) = choose|i: int, j: int|
            0 <= i < a.len() && 0 <= j < b.len() && seam_side_of(
                #[trigger] a[i],
                #[trigger] b[j],
                rules,
            ) is Some;
        assert(a[i].bounded(CANVAS as int) && b[j].bounded(CANVAS as int));
        lemma_rects_moved_alike(a[i], b[j], dx, dy, rules);
        assert(ma[i] == a[i].moved(dx, dy) && mb[j] == b[j].moved(dx, dy));
    }
    if touches(ma, mb, rules) {
        let (i, j) = choose|i: int, j: int|
            0 <= i < ma.len() && 0 <= j < mb.len() && seam_side_of(
                #[trigger] ma[i],
                #[trigger] mb[j],
                rules,
            ) is Some;
        assert(a[i].bounded(CANVAS as int) && b[j].bounded(CANVAS as int));
        lemma_rects_moved_alike(a[i], b[j], dx, dy, rules);
        assert(ma[i] == a[i].moved(dx, dy) && mb[j] == b[j].moved(dx, dy));
    }
}

/// Every display of a listed body is in the merged shape.
proof fn lemma_merged_has(all: Seq<Seq<Bounds>>, list: Seq<usize>, m: int, r: int)
    requires
        0 <= m < list.len(),
        0 <= r < all[list[m] as int].len(),
    ensures
        exists|i: int|
            0 <= i < merged_shape(all, list).len() && #[trigger] merged_shape(all, list)[i]
                == all[list[m] as int][r],
    decreases list.len(),
{
    let front = list.drop_last();
    let head = merged_shape(all, front);
    if m == list.len() - 1 {
        assert(merged_shape(all, list)[head.len() + r] == all[list[m] as int][r]);
    } else {
        lemma_merged_has(all, front, m, r);
        assert(front[m] == list[m]);
        let i = choose|i: int|
            0 <= i < head.len() && #[trigger] head[i] == all[front[m] as int][r];
        assert(merged_shape(all, list)[i] == head[i]);
    }
}

/// Every rectangle of a merged shape is a display of a listed body.
proof fn lemma_merged_from(all: Seq<Seq<Bounds>>, list: Seq<usize>, i: int)
    requires
        0 <= i < merged_shape(all, list).len(),
    ensures
        exists|m: int, r: int|
            0 <= m < list.len() && 0 <= r < all[list[m] as int].len() && merged_shape(all, list)[i]
                == #[trigger] all[list[m] as int][r],
    decreases list.len(),
{
    let front = list.drop_last();
    let head = merged_shape(all, front);
    let last = list.len() - 1;
    if i < head.len() {
        lemma_merged_from(all, front, i);
        let (m, r) = choose|m: int, r: int|
            0 <= m < front.len() && 0 <= r < all[front[m] as int].len() && head[i]
                == #[trigger] all[front[m] as int][r];
        assert(list[m] == front[m]);
        assert(merged_shape(all, list)[i] == all[list[m] as int][r]);
    } else {
        assert(merged_shape(all, list)[i] == all[list[last] as int][i - head.len()]);
    }
}

proof fn lemma_nearest_join(
    placed: Seq<Seq<Bounds>>,
    pending: Seq<Seq<usize>>,
    settled: Seq<usize>,
    rules: Rules,
    loose: bool,
    n: nat,
)
    requires
        n <= pending.len(),
    ensures
        nearest_join(placed, pending, settled, rules, None, loose, n) matches Some((index, delta))
            ==> 0 <= index < n && reattachment(placed, pending[index], settled, rules, loose) is Some
            && reattachment(placed, pending[index], settled, rules, loose)->0.delta == delta,
        nearest_join(placed, pending, settled, rules, None, loose, n) is None ==> forall|k: int|
            0 <= k < n ==> reattachment(
                placed,
                #[trigger] pending[k],
                settled,
                rules,
                loose,
            ) is None,
    decreases n,
{
    if n > 0 {
        lemma_nearest_join(placed, pending, settled, rules, loose, (n - 1) as nat);
    }
}

/// No pending cluster has a place clear of all others.
pub open spec fn stuck(j: Joining, rules: Rules) -> bool {
    nearest_join(
        j.canvas.placed,
        j.pending,
        j.settled,
        rules,
        None,
        false,
        j.pending.len(),
    ) is None
}

/// Whoever is not in the list is an outsider.
proof fn lemma_outsiders(list: Seq<usize>, n: nat, b: int)
    requires
        0 <= b < n,
        n <= usize::MAX,
        !list.contains(b as usize),
    ensures
        outsiders(list, n).contains(b as usize),
        indices_within(outsiders(list, n), n),
    decreases n,
{
    let before = outsiders(list, (n - 1) as nat);
    let after = outsiders(list, n);
    if b == n - 1 {
        assert(after[before.len() as int] == b as usize);
    } else {
        lemma_outsiders(list, (n - 1) as nat, b);
        let i = choose|i: int| 0 <= i < before.len() && before[i] == b as usize;
        assert(after[i] == b as usize);
    }
    lemma_outsiders_within(list, n);
}

proof fn lemma_outsiders_within(list: Seq<usize>, n: nat)
    requires
        n <= usize::MAX,
    ensures
        indices_within(outsiders(list, n), n),
    decreases n,
{
    if n > 0 {
        lemma_outsiders_within(list, (n - 1) as nat);
        let before = outsiders(list, (n - 1) as nat);
        assert forall|i: int| 0 <= i < outsiders(list, n).len() implies (#[trigger] outsiders(
            list,
            n,
        )[i]) < n by {
            if i < before.len() {
                assert(outsiders(list, n)[i] == before[i]);
            }
        }
    }
}

/// The scene in which a pending cluster looks for its place.
pub open spec fn join_scene(j: Joining, index: int, rules: Rules, loose: bool) -> Scene {
    Scene {
        moving: merged_shape(j.canvas.placed, j.pending[index]),
        blocking: picked(
            j.canvas.placed,
            obstacles(j.pending[index], j.settled, j.canvas.placed.len(), loose),
        ),
        rules,
        desired: Vec2I { x: 0, y: 0 },
    }
}

/// No cluster joins from farther away than a translation can say.
pub open spec fn joins_fit(j: Joining, rules: Rules) -> bool
    decreases j.pending.len(),
{
    match next_join(j, None, rules, None) {
        Some((index, delta)) => if 0 <= index < j.pending.len() {
            within_translation(
                join_scene(j, index, rules, stuck(j, rules)),
                picked(j.canvas.placed, j.settled),
                None,
            ) && joins_fit(join_one(j, index, delta), rules)
        } else {
            true
        },
        None => true,
    }
}

/// What holds while clusters join: whatever stands is connected and overlaps nothing that
/// stands, and so is each cluster still apart.
pub open spec fn uniting(j: Joining, rules: Rules) -> bool {
    let all = j.canvas.placed;
    &&& all.len() <= usize::MAX
    &&& roomy(j.canvas, j.pending, CANVAS as int)
    &&& listed(j.pending, all.len())
    &&& tidy(all)
    &&& indices_within(j.settled, all.len())
    &&& j.settled.len() > 0
    &&& forall|i: int|
        0 <= i < j.settled.len() ==> apart(j.pending, #[trigger] j.settled[i] as int)
            && all[j.settled[i] as int].len() > 0
    &&& forall|k: int, p: int|
        0 <= k < j.pending.len() && 0 <= p < j.pending[k].len() ==> all[#[trigger] j.pending[k][p]
            as int].len() > 0
    &&& connected(all, j.settled, rules)
    &&& forall|k: int| 0 <= k < j.pending.len() ==> connected(all, #[trigger] j.pending[k], rules)
    &&& forall|b: int|
        0 <= b < all.len() && (#[trigger] all[b]).len() > 0 && apart(j.pending, b)
            ==> j.settled.contains(b as usize)
    &&& forall|a: int, b: int|
        0 <= a < all.len() && 0 <= b < all.len() && a != b && apart(j.pending, a) && apart(
            j.pending,
            b,
        ) ==> !overlapping(#[trigger] all[a], #[trigger] all[b])
    &&& forall|k: int, p: int, q: int|
        0 <= k < j.pending.len() && 0 <= p < j.pending[k].len() && 0 <= q < j.pending[k].len() && p
            != q ==> !overlapping(
            all[#[trigger] j.pending[k][p] as int],
            all[#[trigger] j.pending[k][q] as int],
        )
}

proof fn lemma_shift_roomy(
    before: Canvas,
    pending: Seq<Seq<usize>>,
    index: int,
    delta: Vec2I,
    cap: int,
)
    requires
        roomy(before, pending, cap),
        listed(pending, before.placed.len()),
        before.placed.len() <= usize::MAX,
        0 <= index < pending.len(),
        0 <= cap,
        cap + STRIDE <= REACH,
    ensures
        roomy(shifted(before, pending[index], delta), Seq::empty(), cap),
{
    let after = shifted(before, pending[index], delta);
    assert forall|b: int| 0 <= b < after.placed.len() implies bounded(
        #[trigger] after.placed[b],
        cap + STRIDE,
    ) && -(cap + STRIDE) <= after.deltas[b].0 <= cap + STRIDE
        && -(cap + STRIDE) <= after.deltas[b].1 <= cap + STRIDE by {
        assert(bounded(before.placed[b], cap + STRIDE));
        assert(-(cap + STRIDE) <= before.deltas[b].0 <= cap + STRIDE);
        if pending[index].contains(b as usize) {
            let i = choose|i: int|
                0 <= i < pending[index].len() && pending[index][i] == b as usize;
            assert(bounded(before.placed[pending[index][i] as int], cap));
            lemma_moved_bounded(before.placed[b], delta, cap);
        }
    }
    assert forall|b: int| 0 <= b < after.deltas.len() implies -(cap + STRIDE) <= (
    #[trigger] after.deltas[b]).0 <= cap + STRIDE && -(cap + STRIDE) <= after.deltas[b].1 <= cap
        + STRIDE by {
        assert(bounded(after.placed[b], cap + STRIDE));
    }
}

/// The place a joining cluster takes: clear of what stands, and touching it.
proof fn lemma_join_place(j: Joining, rules: Rules, index: int, delta: Vec2I, loose: bool)
    requires
        uniting(j, rules),
        0 <= index < j.pending.len(),
        reattachment(j.canvas.placed, j.pending[index], j.settled, rules, loose) is Some,
        reattachment(j.canvas.placed, j.pending[index], j.settled, rules, loose)->0.delta == delta,
        within_translation(
            join_scene(j, index, rules, loose),
            picked(j.canvas.placed, j.settled),
            None,
        ),
    ensures
        forall|p: int, b: int|
            0 <= p < j.pending[index].len() && 0 <= b < j.canvas.placed.len() && apart(
                j.pending,
                b,
            ) ==> !overlapping(
                moved(
                    j.canvas.placed[#[trigger] j.pending[index][p] as int],
                    delta.x as int,
                    delta.y as int,
                ),
                #[trigger] j.canvas.placed[b],
            ),
        exists|p: int, s: int|
            0 <= p < j.pending[index].len() && 0 <= s < j.settled.len() && touches(
                moved(
                    j.canvas.placed[#[trigger] j.pending[index][p] as int],
                    delta.x as int,
                    delta.y as int,
                ),
                j.canvas.placed[#[trigger] j.settled[s] as int],
                rules,
            ),
{
    let all = j.canvas.placed;
    let cluster = j.pending[index];
    let scene = join_scene(j, index, rules, loose);
    let blocks = obstacles(cluster, j.settled, all.len(), loose);
    let targets = picked(all, j.settled);
    let dx = delta.x as int;
    let dy = delta.y as int;
    let merged = scene.moving;
    assert(indices_within(cluster, all.len()));
    lemma_join_sound(j, rules, index, loose);
    lemma_outsiders_within(cluster, all.len());
    let placement = reattachment(all, cluster, j.settled, rules, loose)->0;
    a_placement_rests_and_overlaps_nothing(scene, targets, None, placement);
    assert forall|p: int, b: int|
        0 <= p < cluster.len() && 0 <= b < all.len() && apart(
            j.pending,
            b,
        ) implies !overlapping(
        moved(all[#[trigger] cluster[p] as int], dx, dy),
        #[trigger] all[b],
    ) by {
        let there = moved(all[cluster[p] as int], dx, dy);
        if overlapping(there, all[b]) {
            assert(!j.pending[index].contains(b as usize));
            lemma_outsiders(cluster, all.len(), b);
            assert(all[b].len() > 0);
            assert(j.settled.contains(b as usize));
            let k = choose|k: int| 0 <= k < blocks.len() && blocks[k] == b as usize;
            assert(scene.blocking[k] == all[b]);
            let (r, q) = choose|r: int, q: int|
                0 <= r < there.len() && 0 <= q < all[b].len() && (#[trigger] there[r]).crosses(
                    #[trigger] all[b][q],
                );
            lemma_merged_has(all, cluster, p, r);
            let i = choose|i: int|
                0 <= i < merged.len() && #[trigger] merged[i] == all[cluster[p] as int][r];
            assert(moved(merged, dx, dy)[i].crosses(all[b][q]));
            assert(overlapping(moved(merged, dx, dy), scene.blocking[k]));
        }
    }
    let (t, a, m) = choose|t: int, a: int, m: int|
        0 <= t < targets.len() && 0 <= a < targets[t].len() && 0 <= m < scene.moving.len()
            && seam_side_of(
            (#[trigger] scene.moving[m]).moved(
                placement.delta.x as int,
                placement.delta.y as int,
            ),
            #[trigger] targets[t][a],
            scene.rules,
        ) == Some(placement.side) && !overlapping(
            moved(scene.moving, placement.delta.x as int, placement.delta.y as int),
            targets[t],
        ) && touches(
            moved(scene.moving, placement.delta.x as int, placement.delta.y as int),
            targets[t],
            scene.rules,
        );
    lemma_merged_from(all, cluster, m);
    let (p, r) = choose|p: int, r: int|
        0 <= p < cluster.len() && 0 <= r < all[cluster[p] as int].len() && merged[m]
            == #[trigger] all[cluster[p] as int][r];
    let there = moved(all[cluster[p] as int], dx, dy);
    assert(there[r] == merged[m].moved(dx, dy));
    assert(seam_side_of(there[r], targets[t][a], rules) is Some);
    assert(targets[t] == all[j.settled[t] as int]);
    assert(touches(there, all[j.settled[t] as int], rules));
}

/// What is in none of the remaining lists, nor in the one taken out, was in none.
proof fn lemma_apart(pending: Seq<Seq<usize>>, index: int, b: int)
    requires
        0 <= index < pending.len(),
        apart(taken_out(pending, index), b),
        !pending[index].contains(b as usize),
    ensures
        apart(pending, b),
{
    let rest = taken_out(pending, index);
    let last = pending.len() - 1;
    assert forall|m: int| 0 <= m < pending.len() implies !(#[trigger] pending[m]).contains(
        b as usize,
    ) by {
        if m != index {
            let k = if m == last {
                index
            } else {
                m
            };
            assert(rest[k] == pending[m]);
            assert(!rest[k].contains(b as usize));
        }
    }
}

proof fn lemma_overlap_mutual(a: Seq<Bounds>, b: Seq<Bounds>)
    ensures
        overlapping(a, b) == overlapping(b, a),
{
    if overlapping(a, b) {
        let (i, j) = choose|i: int, j: int|
            0 <= i < a.len() && 0 <= j < b.len() && (#[trigger] a[i]).crosses(#[trigger] b[j]);
        assert(b[j].crosses(a[i]));
    }
    if overlapping(b, a) {
        let (i, j) = choose|i: int, j: int|
            0 <= i < b.len() && 0 <= j < a.len() && (#[trigger] b[i]).crosses(#[trigger] a[j]);
        assert(a[j].crosses(b[i]));
    }
}

/// What stands and the cluster that joins it are connected together.
proof fn lemma_settle_union(j: Joining, rules: Rules, index: int, delta: Vec2I)
    requires
        uniting(j, rules),
        0 <= index < j.pending.len(),
        tidy(join_one(j, index, delta).canvas.placed),
        exists|p: int, s: int|
            0 <= p < j.pending[index].len() && 0 <= s < j.settled.len() && touches(
                moved(
                    j.canvas.placed[#[trigger] j.pending[index][p] as int],
                    delta.x as int,
                    delta.y as int,
                ),
                j.canvas.placed[#[trigger] j.settled[s] as int],
                rules,
            ),
    ensures
        connected(join_one(j, index, delta).canvas.placed, j.settled + j.pending[index], rules),
{
    let all = j.canvas.placed;
    let after = join_one(j, index, delta).canvas.placed;
    let cluster = j.pending[index];
    let dx = delta.x as int;
    let dy = delta.y as int;
    assert(indices_within(cluster, all.len()));
    assert forall|i: int| 0 <= i < j.settled.len() implies after[#[trigger] j.settled[i] as int]
        == all[j.settled[i] as int] by {
        assert(apart(j.pending, j.settled[i] as int));
        assert(!j.pending[index].contains(j.settled[i]));
        assert(j.settled[i] < all.len());
    }
    assert forall|p: int| 0 <= p < cluster.len() implies after[#[trigger] cluster[p] as int]
        == moved(all[cluster[p] as int], dx, dy) by {
        assert(cluster.contains(cluster[p]));
        assert(cluster[p] < all.len());
    }
    lemma_connected_transfer(all, after, j.settled, rules);
    assert forall|p: int, q: int| 0 <= p < cluster.len() && 0 <= q < cluster.len() implies touches(
        all[#[trigger] cluster[p] as int],
        all[#[trigger] cluster[q] as int],
        rules,
    ) == touches(after[cluster[p] as int], after[cluster[q] as int], rules) by {
        assert(bounded(all[j.pending[index][p] as int], CANVAS as int));
        assert(bounded(all[j.pending[index][q] as int], CANVAS as int));
        lemma_moved_alike(
            all[cluster[p] as int],
            all[cluster[q] as int],
            delta,
            rules,
        );
    }
    assert(connected(all, j.pending[index], rules));
    lemma_connected_transfer(all, after, cluster, rules);
    let (p, s) = choose|p: int, s: int|
        0 <= p < j.pending[index].len() && 0 <= s < j.settled.len() && touches(
            moved(all[#[trigger] j.pending[index][p] as int], dx, dy),
            all[#[trigger] j.settled[s] as int],
            rules,
        );
    assert(cluster[p] == j.pending[index][p]);
    lemma_union_connected(after, j.settled, cluster, rules, s, p);
}

/// Two bodies that stand after a cluster joined do not overlap.
proof fn lemma_pair_clear(j: Joining, rules: Rules, index: int, delta: Vec2I, a: int, b: int)
    requires
        uniting(j, rules),
        0 <= index < j.pending.len(),
        forall|p: int, o: int|
            0 <= p < j.pending[index].len() && 0 <= o < j.canvas.placed.len() && apart(
                j.pending,
                o,
            ) ==> !overlapping(
                moved(
                    j.canvas.placed[#[trigger] j.pending[index][p] as int],
                    delta.x as int,
                    delta.y as int,
                ),
                #[trigger] j.canvas.placed[o],
            ),
        0 <= a < j.canvas.placed.len(),
        0 <= b < j.canvas.placed.len(),
        a != b,
        apart(taken_out(j.pending, index), a),
        apart(taken_out(j.pending, index), b),
    ensures
        !overlapping(
            join_one(j, index, delta).canvas.placed[a],
            join_one(j, index, delta).canvas.placed[b],
        ),
{
    let all = j.canvas.placed;
    let after = join_one(j, index, delta).canvas.placed;
    let cluster = j.pending[index];
    let dx = delta.x as int;
    let dy = delta.y as int;
    if cluster.contains(a as usize) && cluster.contains(b as usize) {
        let p = choose|p: int| 0 <= p < cluster.len() && cluster[p] == a as usize;
        let q = choose|q: int| 0 <= q < cluster.len() && cluster[q] == b as usize;
        assert(!overlapping(all[j.pending[index][p] as int], all[j.pending[index][q] as int]));
        assert(bounded(all[j.pending[index][p] as int], CANVAS as int));
        assert(bounded(all[j.pending[index][q] as int], CANVAS as int));
        lemma_moved_alike(all[a], all[b], delta, rules);
    } else if cluster.contains(a as usize) {
        let p = choose|p: int| 0 <= p < cluster.len() && cluster[p] == a as usize;
        lemma_apart(j.pending, index, b);
        assert(!overlapping(moved(all[j.pending[index][p] as int], dx, dy), all[b]));
    } else if cluster.contains(b as usize) {
        let p = choose|p: int| 0 <= p < cluster.len() && cluster[p] == b as usize;
        lemma_apart(j.pending, index, a);
        assert(!overlapping(moved(all[j.pending[index][p] as int], dx, dy), all[a]));
        lemma_overlap_mutual(after[a], after[b]);
    } else {
        lemma_apart(j.pending, index, a);
        lemma_apart(j.pending, index, b);
        assert(!overlapping(all[a], all[b]));
    }
}

/// A cluster that joins keeps the arrangement united.
#[verifier::rlimit(40)]
proof fn lemma_join_unites(j: Joining, rules: Rules, index: int, delta: Vec2I, loose: bool)
    requires
        uniting(j, rules),
        0 <= index < j.pending.len(),
        reattachment(j.canvas.placed, j.pending[index], j.settled, rules, loose) is Some,
        reattachment(j.canvas.placed, j.pending[index], j.settled, rules, loose)->0.delta == delta,
        within_translation(
            join_scene(j, index, rules, loose),
            picked(j.canvas.placed, j.settled),
            None,
        ),
    ensures
        uniting(join_one(j, index, delta), rules),
{
    let next = join_one(j, index, delta);
    let all = j.canvas.placed;
    let after = next.canvas.placed;
    let cluster = j.pending[index];
    let cap = CANVAS as int;
    let dx = delta.x as int;
    let dy = delta.y as int;
    lemma_taken_out(j.pending, index, all.len());
    lemma_shift_roomy(j.canvas, j.pending, index, delta, cap);
    lemma_room_kept(j.canvas, next.canvas, j.pending, index, delta, cap);
    lemma_join_place(j, rules, index, delta, loose);
    lemma_wider(after, cap + STRIDE, REACH as int);
    assert(indices_within(cluster, all.len()));
    assert forall|p: int| 0 <= p < cluster.len() implies bounded(
        all[#[trigger] cluster[p] as int],
        cap,
    ) && cluster[p] < all.len() && after[cluster[p] as int] == moved(
        all[cluster[p] as int],
        dx,
        dy,
    ) by {
        assert(cluster.contains(cluster[p]));
        assert(j.pending[index][p] == cluster[p]);
    }
    assert forall|b: int| 0 <= b < after.len() implies solid(#[trigger] after[b]) by {
        assert(solid(all[b]));
        if cluster.contains(b as usize) {
            let p = choose|p: int| 0 <= p < cluster.len() && cluster[p] == b as usize;
            assert(bounded(all[cluster[p] as int], cap));
            assert forall|r: int| 0 <= r < after[b].len() implies (#[trigger] after[b][r]).solid() by {
                assert(all[b][r].solid() && all[b][r].bounded(cap));
            }
        }
    }
    assert(tidy(after));
    assert forall|i: int| 0 <= i < j.settled.len() implies (#[trigger] j.settled[i]) < all.len() by {}
    assert(indices_within(next.settled, all.len())) by {
        assert forall|i: int| 0 <= i < next.settled.len() implies (#[trigger] next.settled[i])
            < all.len() by {
            if i < j.settled.len() {
                assert(next.settled[i] == j.settled[i]);
            } else {
                assert(next.settled[i] == cluster[i - j.settled.len()]);
            }
        }
    }
    lemma_settle_union(j, rules, index, delta);
    assert forall|k: int, p: int|
        0 <= k < next.pending.len() && 0 <= p < next.pending[k].len() implies after[
        #[trigger] next.pending[k][p] as int].len() > 0 by {
        let m = choose|m: int|
            0 <= m < j.pending.len() && m != index && #[trigger] j.pending[m] == next.pending[k];
        assert(indices_within(j.pending[m], all.len()));
        assert(j.pending[m][p] == next.pending[k][p]);
    }
    assert forall|i: int| 0 <= i < next.settled.len() implies apart(
        next.pending,
        #[trigger] next.settled[i] as int,
    ) && after[next.settled[i] as int].len() > 0 by {
        let b = next.settled[i];
        if i < j.settled.len() {
            assert(j.settled[i] == b && all[b as int].len() > 0);
        } else {
            assert(j.pending[index][i - j.settled.len()] == b);
            assert(all[b as int].len() > 0);
        }
        assert forall|k: int| 0 <= k < next.pending.len() implies !(
        #[trigger] next.pending[k]).contains(b) by {
            let m = choose|m: int|
                0 <= m < j.pending.len() && m != index && #[trigger] j.pending[m]
                    == next.pending[k];
            if i < j.settled.len() {
                assert(j.settled[i] == b);
                assert(apart(j.pending, b as int));
                assert(!j.pending[m].contains(b));
            } else {
                let p = i - j.settled.len();
                assert(cluster[p] == b);
                if next.pending[k].contains(b) {
                    let q = choose|q: int|
                        0 <= q < next.pending[k].len() && next.pending[k][q] == b;
                    assert(j.pending[m][q] == j.pending[index][p]);
                }
            }
        }
    }
    assert forall|k: int| 0 <= k < next.pending.len() implies connected(
        after,
        #[trigger] next.pending[k],
        rules,
    ) by {
        let m = choose|m: int|
            0 <= m < j.pending.len() && m != index && #[trigger] j.pending[m] == next.pending[k];
        assert(connected(all, j.pending[m], rules));
        assert forall|p: int| 0 <= p < j.pending[m].len() implies after[#[trigger] j.pending[m][p]
            as int] == all[j.pending[m][p] as int] by {
            assert(indices_within(j.pending[m], all.len()));
            assert(next.pending[k][p] == j.pending[m][p]);
            assert(!cluster.contains(next.pending[k][p]));
        }
        lemma_connected_transfer(all, after, j.pending[m], rules);
    }
    assert forall|b: int|
        0 <= b < after.len() && (#[trigger] after[b]).len() > 0 && apart(
            next.pending,
            b,
        ) implies next.settled.contains(b as usize) by {
        if cluster.contains(b as usize) {
            let p = choose|p: int| 0 <= p < cluster.len() && cluster[p] == b as usize;
            assert(next.settled[j.settled.len() + p] == b as usize);
        } else {
            lemma_apart(j.pending, index, b);
            assert(all[b].len() > 0);
            let i = choose|i: int| 0 <= i < j.settled.len() && j.settled[i] == b as usize;
            assert(next.settled[i] == b as usize);
        }
    }
    assert forall|a: int, b: int|
        0 <= a < after.len() && 0 <= b < after.len() && a != b && apart(next.pending, a) && apart(
            next.pending,
            b,
        ) implies !overlapping(#[trigger] after[a], #[trigger] after[b]) by {
        lemma_pair_clear(j, rules, index, delta, a, b);
    }
    assert forall|k: int, p: int, q: int|
        0 <= k < next.pending.len() && 0 <= p < next.pending[k].len() && 0 <= q
            < next.pending[k].len() && p != q implies !overlapping(
        after[#[trigger] next.pending[k][p] as int],
        after[#[trigger] next.pending[k][q] as int],
    ) by {
        let m = choose|m: int|
            0 <= m < j.pending.len() && m != index && #[trigger] j.pending[m] == next.pending[k];
        assert(indices_within(j.pending[m], all.len()));
        assert(next.pending[k][p] == j.pending[m][p] && next.pending[k][q] == j.pending[m][q]);
        assert(!cluster.contains(next.pending[k][p]) && !cluster.contains(next.pending[k][q]));
    }
}

/// As long as a cluster waits, one joins.
proof fn lemma_somebody_joins(j: Joining, rules: Rules)
    requires
        uniting(j, rules),
    ensures
        j.pending.len() > 0 ==> next_join(j, None, rules, None) is Some,
        next_join(j, None, rules, None) matches Some((index, delta)) ==> 0 <= index
            < j.pending.len() && reattachment(
            j.canvas.placed,
            j.pending[index],
            j.settled,
            rules,
            stuck(j, rules),
        ) is Some && reattachment(
            j.canvas.placed,
            j.pending[index],
            j.settled,
            rules,
            stuck(j, rules),
        )->0.delta == delta,
{
    let all = j.canvas.placed;
    let n = j.pending.len();
    lemma_nearest_join(all, j.pending, j.settled, rules, false, n);
    lemma_nearest_join(all, j.pending, j.settled, rules, true, n);
    if n > 0 {
        let cluster = j.pending[0];
        let scene = join_scene(j, 0, rules, true);
        let targets = picked(all, j.settled);
        lemma_join_sound(j, rules, 0, true);
        assert(all[j.pending[0][0] as int].len() > 0);
        lemma_merged_has(all, cluster, 0, 0);
        assert(scene.moving.len() > 0);
        assert(targets[0].len() > 0) by {
            assert(all[j.settled[0] as int].len() > 0);
        }
        a_body_rests_wherever_there_is_something(scene, targets, None);
    }
}

/// A cluster that joins stands in a scene of solid shapes.
proof fn lemma_join_sound(j: Joining, rules: Rules, index: int, loose: bool)
    requires
        uniting(j, rules),
        0 <= index < j.pending.len(),
    ensures
        sound(join_scene(j, index, rules, loose), picked(j.canvas.placed, j.settled)),
{
    let all = j.canvas.placed;
    let cluster = j.pending[index];
    let scene = join_scene(j, index, rules, loose);
    let blocks = obstacles(cluster, j.settled, all.len(), loose);
    let targets = picked(all, j.settled);
    let merged = scene.moving;
    assert(indices_within(cluster, all.len()));
    assert forall|i: int| 0 <= i < cluster.len() implies bounded(
        all[#[trigger] cluster[i] as int],
        REACH as int,
    ) by {
        assert(cluster[i] < all.len());
    }
    lemma_merged(all, cluster, REACH as int);
    assert(solid(merged)) by {
        assert forall|i: int| 0 <= i < merged.len() implies (#[trigger] merged[i]).solid() by {
            lemma_merged_from(all, cluster, i);
            let (m, r) = choose|m: int, r: int|
                0 <= m < cluster.len() && 0 <= r < all[cluster[m] as int].len() && merged[i]
                    == #[trigger] all[cluster[m] as int][r];
            assert(cluster[m] < all.len());
            assert(solid(all[cluster[m] as int]));
        }
    }
    lemma_outsiders_within(cluster, all.len());
    assert(sound(scene, targets)) by {
        assert forall|t: int| 0 <= t < targets.len() implies bounded(
            #[trigger] targets[t],
            REACH as int,
        ) && solid(targets[t]) by {
            assert(j.settled[t] < all.len());
            assert(bounded(all[j.settled[t] as int], REACH as int));
            assert(solid(all[j.settled[t] as int]));
        }
        assert forall|k: int| 0 <= k < scene.blocking.len() implies bounded(
            #[trigger] scene.blocking[k],
            REACH as int,
        ) by {
            assert(blocks[k] < all.len());
            assert(bounded(all[blocks[k] as int], REACH as int));
        }
    }
}

proof fn lemma_join_all_unites(j: Joining, rules: Rules)
    requires
        uniting(j, rules),
        joins_fit(j, rules),
    ensures
        uniting(join_all(j, None, rules, None), rules),
        join_all(j, None, rules, None).pending.len() == 0,
    decreases j.pending.len(),
{
    lemma_somebody_joins(j, rules);
    if let Some((index, delta)) = next_join(j, None, rules, None) {
        lemma_join_unites(j, rules, index, delta, stuck(j, rules));
        lemma_join_all_unites(join_one(j, index, delta), rules);
    }
}

/// Bodies in one cluster for settling do not overlap each other.
proof fn lemma_cluster_clear(all: Seq<Seq<Bounds>>, rules: Rules, k: int, p: int, q: int)
    requires
        all.len() <= usize::MAX,
        0 <= k < settle_clusters_of(all, None, rules).len(),
        0 <= p < settle_clusters_of(all, None, rules)[k].len(),
        0 <= q < settle_clusters_of(all, None, rules)[k].len(),
        p != q,
    ensures
        !overlapping(
            all[settle_clusters_of(all, None, rules)[k][p] as int],
            all[settle_clusters_of(all, None, rules)[k][q] as int],
        ),
{
    let stuck = misplaced_list(all, None, all.len());
    let free = clear_list(all, None, all.len());
    lemma_sorted_out(all, None, all.len());
    lemma_singles(all, stuck, stuck.len());
    lemma_settle_clusters(all, None, rules);
    clusters_partition_the_members(all, free, rules);
    let joined = clusters_of(all, free, rules);
    let alone = singles(all, stuck, stuck.len());
    let found = settle_clusters_of(all, None, rules);
    if k < joined.len() {
        assert(found[k] == joined[k]);
        assert(free.contains(joined[k][p]));
        let m = choose|m: int| 0 <= m < free.len() && free[m] == joined[k][p];
        assert(!misplaced(all, None, free[m] as int));
        assert(distinct(found[k]));
        assert(found[k][p] != found[k][q]);
        assert(indices_within(found[k], all.len()));
        assert(found[k][q] < all.len());
        assert(all[found[k][q] as int] == all[found[k][q] as int]);
    } else {
        assert(found[k] == alone[k - joined.len()]);
    }
}

/// Every body with displays is in a cluster for settling.
proof fn lemma_everyone_clustered(all: Seq<Seq<Bounds>>, rules: Rules, b: int)
    requires
        all.len() <= usize::MAX,
        0 <= b < all.len(),
        all[b].len() > 0,
    ensures
        !apart(settle_clusters_of(all, None, rules), b),
{
    let stuck = misplaced_list(all, None, all.len());
    let free = clear_list(all, None, all.len());
    lemma_sorted_out(all, None, all.len());
    clusters_partition_the_members(all, free, rules);
    let joined = clusters_of(all, free, rules);
    let alone = singles(all, stuck, stuck.len());
    let found = settle_clusters_of(all, None, rules);
    if free.contains(b as usize) {
        let m = choose|m: int| 0 <= m < free.len() && free[m] == b as usize;
        let (k, i) = choose|k: int, i: int|
            0 <= k < joined.len() && 0 <= i < joined[k].len() && #[trigger] joined[k][i] == free[m];
        assert(found[k] == joined[k]);
        assert(found[k][i] == b as usize);
        assert(found[k].contains(b as usize));
    } else {
        assert(stuck.contains(b as usize));
        let m = choose|m: int| 0 <= m < stuck.len() && stuck[m] == b as usize;
        lemma_single_of(all, stuck, stuck.len(), m);
        let k = choose|k: int| 0 <= k < alone.len() && (#[trigger] alone[k]) == seq![stuck[m]];
        assert(found[joined.len() + k] == alone[k]);
        assert(found[joined.len() + k][0] == b as usize);
        assert(found[joined.len() + k].contains(b as usize));
    }
}

proof fn lemma_single_of(all: Seq<Seq<Bounds>>, indices: Seq<usize>, n: nat, m: int)
    requires
        0 <= m < n <= indices.len(),
        all[indices[m] as int].len() > 0,
    ensures
        exists|k: int|
            0 <= k < singles(all, indices, n).len() && (#[trigger] singles(all, indices, n)[k])
                == seq![indices[m]],
    decreases n,
{
    let before = singles(all, indices, (n - 1) as nat);
    let after = singles(all, indices, n);
    if m == n - 1 {
        assert(after[before.len() as int] == seq![indices[m]]);
    } else {
        lemma_single_of(all, indices, (n - 1) as nat, m);
        let k = choose|k: int| 0 <= k < before.len() && (#[trigger] before[k]) == seq![indices[m]];
        assert(after[k] == before[k]);
    }
}

/// Where repairing an arrangement starts: the largest cluster stands.
pub open spec fn opening(all: Seq<Seq<Bounds>>, rules: Rules, best: int) -> Joining {
    let pending = settle_clusters_of(all, None, rules);
    Joining {
        canvas: at_rest(all),
        pending: taken_out(pending, best),
        settled: pending[best],
    }
}

proof fn lemma_opening_unites(all: Seq<Seq<Bounds>>, rules: Rules, best: int)
    requires
        all.len() <= usize::MAX,
        arrangeable(all),
        forall|b: int| 0 <= b < all.len() ==> solid(#[trigger] all[b]),
        0 <= best < settle_clusters_of(all, None, rules).len(),
    ensures
        uniting(opening(all, rules, best), rules),
{
    let found = settle_clusters_of(all, None, rules);
    let j = opening(all, rules, best);
    lemma_settle_clusters(all, None, rules);
    lemma_taken_out(found, best, all.len());
    lemma_arrangeable(all, j.pending, CANVAS as int);
    lemma_wider(all, CANVAS as int, REACH as int);
    assert(tidy(all));
    assert forall|k: int| 0 <= k < found.len() implies connected(all, #[trigger] found[k], rules) by {
        lemma_found_connected(all, rules, k);
    }
    assert forall|k: int| 0 <= k < j.pending.len() implies connected(
        all,
        #[trigger] j.pending[k],
        rules,
    ) by {
        let m = choose|m: int|
            0 <= m < found.len() && m != best && #[trigger] found[m] == j.pending[k];
    }
    assert forall|k: int, p: int| 0 <= k < found.len() && 0 <= p < found[k].len() implies all[
    #[trigger] found[k][p] as int].len() > 0 by {
        lemma_found_shown(all, rules, k, p);
    }
    assert forall|k: int, p: int|
        0 <= k < j.pending.len() && 0 <= p < j.pending[k].len() implies all[
    #[trigger] j.pending[k][p] as int].len() > 0 by {
        let m = choose|m: int|
            0 <= m < found.len() && m != best && #[trigger] found[m] == j.pending[k];
        assert(found[m][p] == j.pending[k][p]);
    }
    assert forall|i: int| 0 <= i < j.settled.len() implies apart(
        j.pending,
        #[trigger] j.settled[i] as int,
    ) && all[j.settled[i] as int].len() > 0 by {
        assert(found[best][i] == j.settled[i]);
        assert forall|k: int| 0 <= k < j.pending.len() implies !(#[trigger] j.pending[k]).contains(
            j.settled[i],
        ) by {
            if j.pending[k].contains(j.settled[i]) {
                let p = choose|p: int|
                    0 <= p < j.pending[k].len() && j.pending[k][p] == j.settled[i];
                assert(!found[best].contains(j.pending[k][p]));
                assert(found[best][i] == j.settled[i]);
            }
        }
    }
    assert forall|b: int|
        0 <= b < all.len() && (#[trigger] all[b]).len() > 0 && apart(
            j.pending,
            b,
        ) implies j.settled.contains(b as usize) by {
        lemma_everyone_clustered(all, rules, b);
        if !found[best].contains(b as usize) {
            lemma_apart(found, best, b);
        }
    }
    assert forall|a: int, b: int|
        0 <= a < all.len() && 0 <= b < all.len() && a != b && apart(j.pending, a) && apart(
            j.pending,
            b,
        ) implies !overlapping(#[trigger] all[a], #[trigger] all[b]) by {
        if all[a].len() > 0 && all[b].len() > 0 {
            assert(j.settled.contains(a as usize) && j.settled.contains(b as usize));
            let p = choose|p: int| 0 <= p < found[best].len() && found[best][p] == a as usize;
            let q = choose|q: int| 0 <= q < found[best].len() && found[best][q] == b as usize;
            lemma_cluster_clear(all, rules, best, p, q);
        }
    }
    assert forall|k: int, p: int, q: int|
        0 <= k < j.pending.len() && 0 <= p < j.pending[k].len() && 0 <= q < j.pending[k].len() && p
            != q implies !overlapping(
        all[#[trigger] j.pending[k][p] as int],
        all[#[trigger] j.pending[k][q] as int],
    ) by {
        let m = choose|m: int|
            0 <= m < found.len() && m != best && #[trigger] found[m] == j.pending[k];
        lemma_cluster_clear(all, rules, m, p, q);
    }
}

/// Bodies in a cluster for settling have displays.
proof fn lemma_found_shown(all: Seq<Seq<Bounds>>, rules: Rules, k: int, p: int)
    requires
        all.len() <= usize::MAX,
        0 <= k < settle_clusters_of(all, None, rules).len(),
        0 <= p < settle_clusters_of(all, None, rules)[k].len(),
    ensures
        all[settle_clusters_of(all, None, rules)[k][p] as int].len() > 0,
{
    let stuck = misplaced_list(all, None, all.len());
    let free = clear_list(all, None, all.len());
    lemma_sorted_out(all, None, all.len());
    clusters_partition_the_members(all, free, rules);
    let joined = clusters_of(all, free, rules);
    let found = settle_clusters_of(all, None, rules);
    if k < joined.len() {
        assert(found[k][p] == joined[k][p]);
    } else {
        lemma_single_shown(all, stuck, stuck.len(), k - joined.len());
        lemma_singles(all, stuck, stuck.len());
        assert(found[k] == singles(all, stuck, stuck.len())[k - joined.len()]);
    }
}

proof fn lemma_single_shown(all: Seq<Seq<Bounds>>, indices: Seq<usize>, n: nat, k: int)
    requires
        n <= indices.len(),
        0 <= k < singles(all, indices, n).len(),
    ensures
        singles(all, indices, n)[k].len() == 1,
        all[singles(all, indices, n)[k][0] as int].len() > 0,
    decreases n,
{
    if n > 0 {
        let before = singles(all, indices, (n - 1) as nat);
        if k < before.len() {
            lemma_single_shown(all, indices, (n - 1) as nat, k);
        }
    }
}

proof fn lemma_found_connected(all: Seq<Seq<Bounds>>, rules: Rules, k: int)
    requires
        all.len() <= usize::MAX,
        tidy(all),
        0 <= k < settle_clusters_of(all, None, rules).len(),
    ensures
        connected(all, settle_clusters_of(all, None, rules)[k], rules),
{
    let stuck = misplaced_list(all, None, all.len());
    let free = clear_list(all, None, all.len());
    lemma_sorted_out(all, None, all.len());
    lemma_singles(all, stuck, stuck.len());
    lemma_settle_clusters(all, None, rules);
    clusters_hang_together(all, free, rules);
    let joined = clusters_of(all, free, rules);
    let alone = singles(all, stuck, stuck.len());
    let found = settle_clusters_of(all, None, rules);
    assert(indices_within(found[k], all.len()));
    if k < joined.len() {
        assert(found[k] == joined[k]);
        lemma_linked_connected(all, found[k], rules);
    } else {
        assert(found[k] == alone[k - joined.len()]);
        assert(linked(all, rules, found[k]));
        lemma_linked_connected(all, found[k], rules);
    }
}

/// Repairing any arrangement makes it one connected cluster without overlaps: every cluster
/// joins, no two bodies overlap, and the bodies that have displays cannot be divided in two
/// without cutting through a seam. Left out are places too far away for a translation.
pub proof fn a_repaired_arrangement_is_one_cluster(
    all: Seq<Seq<Bounds>>,
    rules: Rules,
    best: int,
    shown: Seq<usize>,
)
    requires
        all.len() <= usize::MAX,
        arrangeable(all),
        forall|b: int| 0 <= b < all.len() ==> solid(#[trigger] all[b]),
        largest_index(
            all,
            settle_clusters_of(all, None, rules),
            settle_clusters_of(all, None, rules).len(),
        ) == Some(best),
        joins_fit(opening(all, rules, best), rules),
        forall|b: usize|
            #[trigger] shown.contains(b) <==> b < all.len() && all[b as int].len() > 0,
    ensures
        forall|a: int, b: int|
            0 <= a < all.len() && 0 <= b < all.len() && a != b ==> !overlapping(
                #[trigger] joined_canvas(all, rules).placed[a],
                #[trigger] joined_canvas(all, rules).placed[b],
            ),
        connected(joined_canvas(all, rules).placed, shown, rules),
        ({
            let by = as_translations(joined_canvas(all, rules).deltas);
            forall|b: int|
                0 <= b < all.len() ==> (#[trigger] joined_canvas(all, rules).placed[b]) == moved(
                    all[b],
                    by[b].x as int,
                    by[b].y as int,
                )
        }),
{
    assert forall|b: int| 0 <= b < all.len() implies (#[trigger] joined_canvas(
        all,
        rules,
    ).placed[b]) == moved(
        all[b],
        as_translations(joined_canvas(all, rules).deltas)[b].x as int,
        as_translations(joined_canvas(all, rules).deltas)[b].y as int,
    ) by {
        lemma_wider(all, CANVAS as int, REACH as int);
        assert(bounded(all[b], REACH as int));
        translations_lead_to_the_repair(all, rules, b);
    }
    let found = settle_clusters_of(all, None, rules);
    lemma_largest(all, found);
    let start = opening(all, rules, best);
    lemma_opening_unites(all, rules, best);
    lemma_join_all_unites(start, rules);
    let end = join_all(start, None, rules, None);
    let placed = end.canvas.placed;
    assert(placed == joined_canvas(all, rules).placed);
    lemma_join_keeps_size(start, rules);
    assert forall|b: int| 0 <= b < placed.len() implies apart(end.pending, b) by {}
    assert forall|b: usize| shown.contains(b) == #[trigger] end.settled.contains(b) by {
        if shown.contains(b) {
            assert(placed[b as int].len() == all[b as int].len());
            assert(apart(end.pending, b as int));
        }
        if end.settled.contains(b) {
            let i = choose|i: int| 0 <= i < end.settled.len() && end.settled[i] == b;
            assert(placed[end.settled[i] as int].len() > 0);
            assert(placed[b as int].len() == all[b as int].len());
        }
    }
    lemma_connected_set(placed, end.settled, shown, rules);
}

/// Connection depends only on which bodies are listed.
proof fn lemma_connected_set(
    all: Seq<Seq<Bounds>>,
    one: Seq<usize>,
    two: Seq<usize>,
    rules: Rules,
)
    requires
        connected(all, one, rules),
        forall|b: usize| two.contains(b) == #[trigger] one.contains(b),
    ensures
        connected(all, two, rules),
{
    assert forall|s: Set<usize>| #[trigger] splits(two, s) implies bridged(all, two, rules, s) by {
        let (i, j) = choose|i: int, j: int|
            0 <= i < two.len() && 0 <= j < two.len() && s.contains(#[trigger] two[i])
                && !s.contains(#[trigger] two[j]);
        assert(one.contains(two[i]) && one.contains(two[j]));
        let p = choose|p: int| 0 <= p < one.len() && one[p] == two[i];
        let q = choose|q: int| 0 <= q < one.len() && one[q] == two[j];
        assert(s.contains(one[p]) && !s.contains(one[q]));
        assert(splits(one, s));
        assert(bridged(all, one, rules, s));
        let (u, v) = choose|u: int, v: int|
            0 <= u < one.len() && 0 <= v < one.len() && s.contains(#[trigger] one[u])
                && !s.contains(#[trigger] one[v]) && touches(
                all[one[u] as int],
                all[one[v] as int],
                rules,
            );
        assert(one.contains(one[u]) && one.contains(one[v]));
        let x = choose|x: int| 0 <= x < two.len() && two[x] == one[u];
        let y = choose|y: int| 0 <= y < two.len() && two[y] == one[v];
        assert(s.contains(two[x]) && !s.contains(two[y]));
    }
}

/// Bodies that form one connected cluster without overlaps are one cluster for settling.
proof fn lemma_one_cluster(all: Seq<Seq<Bounds>>, rules: Rules, shown: Seq<usize>)
    requires
        all.len() <= usize::MAX,
        tidy(all),
        forall|a: int, b: int|
            0 <= a < all.len() && 0 <= b < all.len() && a != b ==> !overlapping(
                #[trigger] all[a],
                #[trigger] all[b],
            ),
        forall|b: usize|
            #[trigger] shown.contains(b) <==> b < all.len() && all[b as int].len() > 0,
        connected(all, shown, rules),
    ensures
        settle_clusters_of(all, None, rules).len() <= 1,
{
    let stuck = misplaced_list(all, None, all.len());
    let free = clear_list(all, None, all.len());
    lemma_sorted_out(all, None, all.len());
    if stuck.len() > 0 {
        assert(misplaced(all, None, stuck[0] as int));
    }
    let found = settle_clusters_of(all, None, rules);
    assert(found =~= clusters_of(all, free, rules));
    clusters_partition_the_members(all, free, rules);
    if found.len() > 1 {
        let s = Set::new(|b: usize| found[0].contains(b));
        let first = found[0][0];
        let second = found[1][0];
        assert(free.contains(first) && free.contains(second));
        lemma_found_shown(all, rules, 0, 0);
        lemma_found_shown(all, rules, 1, 0);
        assert(shown.contains(first) && shown.contains(second));
        let x = choose|x: int| 0 <= x < shown.len() && shown[x] == first;
        let y = choose|y: int| 0 <= y < shown.len() && shown[y] == second;
        assert(found[0].contains(first));
        if found[0].contains(second) {
            let k = choose|k: int| 0 <= k < found[0].len() && found[0][k] == second;
            assert(found[0][k] != found[1][0]);
        }
        assert(s.contains(shown[x]) && !s.contains(shown[y]));
        assert(splits(shown, s));
        let (i, j) = choose|i: int, j: int|
            0 <= i < shown.len() && 0 <= j < shown.len() && s.contains(#[trigger] shown[i])
                && !s.contains(#[trigger] shown[j]) && touches(
                all[shown[i] as int],
                all[shown[j] as int],
                rules,
            );
        assert(shown.contains(shown[j]));
        lemma_everyone_clustered(all, rules, shown[j] as int);
        let d = choose|d: int| 0 <= d < found.len() && (#[trigger] found[d]).contains(shown[j]);
        let p = choose|p: int| 0 <= p < found[0].len() && found[0][p] == shown[i];
        let q = choose|q: int| 0 <= q < found[d].len() && found[d][q] == shown[j];
        separate_clusters_do_not_touch(all, free, rules, 0, d, p, q);
    }
}

/// An arrangement that is one connected cluster without overlaps is left alone.
pub proof fn a_sound_arrangement_is_left_alone(
    all: Seq<Seq<Bounds>>,
    rules: Rules,
    shown: Seq<usize>,
)
    requires
        all.len() <= usize::MAX,
        arrangeable(all),
        forall|b: int| 0 <= b < all.len() ==> solid(#[trigger] all[b]),
        forall|a: int, b: int|
            0 <= a < all.len() && 0 <= b < all.len() && a != b ==> !overlapping(
                #[trigger] all[a],
                #[trigger] all[b],
            ),
        forall|b: usize|
            #[trigger] shown.contains(b) <==> b < all.len() && all[b as int].len() > 0,
        connected(all, shown, rules),
    ensures
        as_translations(joined_canvas(all, rules).deltas) == Seq::new(
            all.len(),
            |i: int| Vec2I { x: 0, y: 0 },
        ),
{
    lemma_wider(all, CANVAS as int, REACH as int);
    lemma_one_cluster(all, rules, shown);
    let found = settle_clusters_of(all, None, rules);
    lemma_largest(all, found);
    if found.len() > 0 {
        assert(taken_out(found, 0).len() == 0);
    }
    assert(joined_canvas(all, rules) == at_rest(all));
    assert(as_translations(at_rest(all).deltas) =~= Seq::new(
        all.len(),
        |i: int| Vec2I { x: 0, y: 0 },
    ));
}

/// A repair is not repeated: what it made, it leaves alone. Left out are places too far away
/// for a translation, and repairs that lead off the canvas.
pub proof fn a_repair_is_not_repeated(
    all: Seq<Seq<Bounds>>,
    rules: Rules,
    best: int,
    shown: Seq<usize>,
)
    requires
        all.len() <= usize::MAX,
        arrangeable(all),
        forall|b: int| 0 <= b < all.len() ==> solid(#[trigger] all[b]),
        largest_index(
            all,
            settle_clusters_of(all, None, rules),
            settle_clusters_of(all, None, rules).len(),
        ) == Some(best),
        joins_fit(opening(all, rules, best), rules),
        forall|b: usize|
            #[trigger] shown.contains(b) <==> b < all.len() && all[b as int].len() > 0,
        arrangeable(joined_canvas(all, rules).placed),
    ensures
        as_translations(joined_canvas(joined_canvas(all, rules).placed, rules).deltas) == Seq::new(
            all.len(),
            |i: int| Vec2I { x: 0, y: 0 },
        ),
{
    let start = opening(all, rules, best);
    let placed = joined_canvas(all, rules).placed;
    a_repaired_arrangement_is_one_cluster(all, rules, best, shown);
    lemma_largest(all, settle_clusters_of(all, None, rules));
    lemma_opening_unites(all, rules, best);
    lemma_join_all_unites(start, rules);
    lemma_join_keeps_size(start, rules);
    assert(tidy(placed));
    assert(placed.len() == all.len());
    assert forall|b: usize| #[trigger] shown.contains(b) <==> b < placed.len() && placed[b as int].len()
        > 0 by {
        if b < all.len() {
            assert(placed[b as int].len() == all[b as int].len());
        }
    }
    a_sound_arrangement_is_left_alone(placed, rules, shown);
}

/// A cluster that has not joined yet moves once, by what is counted for it.
proof fn lemma_join_counts(j: Joining, rules: Rules, len: nat, b: int)
    requires
        listed(j.pending, len),
        len == j.canvas.placed.len(),
        len == j.canvas.deltas.len(),
        len <= usize::MAX,
        0 <= b < len,
        j.canvas.deltas[b] == (0int, 0int),
    ensures
        ({
            let end = join_all(j, None, rules, None).canvas;
            &&& end.placed.len() == len
            &&& end.deltas.len() == len
            &&& (end.placed[b] == j.canvas.placed[b] && end.deltas[b] == (0int, 0int)) || exists|
                d: Vec2I,
            |
                end.placed[b] == #[trigger] moved(j.canvas.placed[b], d.x as int, d.y as int)
                    && end.deltas[b] == (d.x as int, d.y as int)
        }),
    decreases j.pending.len(),
{
    if let Some((index, delta)) = next_join(j, None, rules, None) {
        if 0 <= index < j.pending.len() {
            let next = join_one(j, index, delta);
            lemma_taken_out(j.pending, index, len);
            if j.pending[index].contains(b as usize) {
                assert(next.canvas.placed[b] == moved(
                    j.canvas.placed[b],
                    delta.x as int,
                    delta.y as int,
                ));
                assert(apart(next.pending, b)) by {
                    assert forall|k: int| 0 <= k < next.pending.len() implies !(
                    #[trigger] next.pending[k]).contains(b as usize) by {
                        if next.pending[k].contains(b as usize) {
                            let i = choose|i: int|
                                0 <= i < next.pending[k].len() && next.pending[k][i] == b as usize;
                            assert(!j.pending[index].contains(next.pending[k][i]));
                        }
                    }
                }
                lemma_join_keeps(next, None, rules, None, len, b);
            } else {
                lemma_join_counts(next, rules, len, b);
            }
        }
    }
}

/// The translations that a repair gives lead every body to where the repair puts it.
pub proof fn translations_lead_to_the_repair(all: Seq<Seq<Bounds>>, rules: Rules, b: int)
    requires
        all.len() <= usize::MAX,
        0 <= b < all.len(),
        bounded(all[b], REACH as int),
    ensures
        joined_canvas(all, rules).placed.len() == all.len(),
        joined_canvas(all, rules).deltas.len() == all.len(),
        ({
            let by = as_translations(joined_canvas(all, rules).deltas)[b];
            joined_canvas(all, rules).placed[b] == moved(all[b], by.x as int, by.y as int)
        }),
{
    let found = settle_clusters_of(all, None, rules);
    let end = joined_canvas(all, rules);
    assert(moved(all[b], 0, 0) =~= all[b]) by {
        assert forall|i: int| 0 <= i < all[b].len() implies (#[trigger] moved(all[b], 0, 0)[i])
            == all[b][i] by {
            assert(all[b][i].bounded(REACH as int));
        }
    }
    lemma_largest(all, found);
    if let Some(best) = largest_index(all, found, found.len()) {
        lemma_settle_clusters(all, None, rules);
        lemma_taken_out(found, best, all.len());
        lemma_join_counts(opening(all, rules, best), rules, all.len(), b);
        if !(end.placed[b] == all[b] && end.deltas[b] == (0int, 0int)) {
            let d = choose|d: Vec2I|
                end.placed[b] == #[trigger] moved(all[b], d.x as int, d.y as int) && end.deltas[b]
                    == (d.x as int, d.y as int);
            assert(as_translations(end.deltas)[b] == d);
        }
    }
}

/// Repairing an arrangement moves the largest cluster not at all.
pub proof fn the_largest_cluster_stays_put(
    all: Seq<Seq<Bounds>>,
    rules: Rules,
    best: int,
    b: usize,
)
    requires
        all.len() <= usize::MAX,
        largest_index(
            all,
            settle_clusters_of(all, None, rules),
            settle_clusters_of(all, None, rules).len(),
        ) == Some(best),
        settle_clusters_of(all, None, rules)[best].contains(b),
    ensures
        as_translations(joined_canvas(all, rules).deltas)[b as int] == (Vec2I { x: 0, y: 0 }),
{
    let found = settle_clusters_of(all, None, rules);
    lemma_largest(all, found);
    lemma_settle_clusters(all, None, rules);
    lemma_taken_out(found, best, all.len());
    let start = opening(all, rules, best);
    let i = choose|i: int| 0 <= i < found[best].len() && found[best][i] == b;
    assert(indices_within(found[best], all.len()));
    assert(found[best][i] < all.len());
    assert(apart(start.pending, b as int)) by {
        assert forall|k: int| 0 <= k < start.pending.len() implies !(
        #[trigger] start.pending[k]).contains(b) by {
            if start.pending[k].contains(b) {
                let p = choose|p: int|
                    0 <= p < start.pending[k].len() && start.pending[k][p] == b;
                assert(!found[best].contains(start.pending[k][p]));
            }
        }
    }
    lemma_join_keeps(start, None, rules, None, all.len(), b as int);
}

proof fn lemma_join_keeps_size(j: Joining, rules: Rules)
    ensures
        join_all(j, None, rules, None).canvas.placed.len() == j.canvas.placed.len(),
        forall|b: int|
            0 <= b < j.canvas.placed.len() ==> (#[trigger] join_all(
                j,
                None,
                rules,
                None,
            ).canvas.placed[b]).len() == j.canvas.placed[b].len(),
    decreases j.pending.len(),
{
    if let Some((index, delta)) = next_join(j, None, rules, None) {
        if 0 <= index < j.pending.len() {
            let next = join_one(j, index, delta);
            lemma_join_keeps_size(next, rules);
            assert forall|b: int| 0 <= b < j.canvas.placed.len() implies (#[trigger] join_all(
                j,
                None,
                rules,
                None,
            ).canvas.placed[b]).len() == j.canvas.placed[b].len() by {
                assert(join_all(next, None, rules, None).canvas.placed[b].len()
                    == next.canvas.placed[b].len());
            }
        }
    }
}

} // verus!
