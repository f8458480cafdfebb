//! What a drag does to the placements of a rule: each selected placement is
//! set to its transform from the start of the drag, translated by the way the
//! pointer has gone since; a snap then translates the selection once more.

use crate::geometry::{difference, point_difference, then_translate, transform_shifted};
use crate::selection::{all_below, among};
use crate::snap::{
    closest_snap_pair, lemma_no_snap_out_of_reach, lemma_single_pair_snaps, movable_points,
    pair_distance, snap_choice, target_points, SNAP_DISTANCE_SQUARED,
};
use crate::tiling::{rules_closed, RuleModel, StepModel, TilePlacement, TilingStep};
use kurbo::{Affine, Point, Vec2};
use vstd::prelude::*;

verus! {

/// `placement` with another transform.
pub open spec fn replaced(placement: TilePlacement, transform: Affine) -> TilePlacement {
    TilePlacement { tile_id: placement.tile_id, transform }
}

/// `placements` after each of `shapes` was set, in their order, to its
/// snapshot translated by `by`. The snapshot of the `k`-th of `shapes` is the
/// `k`-th of `snapshots`; what the placement was before plays no part.
pub open spec fn moved(
    placements: Seq<TilePlacement>,
    shapes: Seq<usize>,
    snapshots: Seq<Affine>,
    by: Vec2,
) -> Seq<TilePlacement>
    decreases shapes.len(),
{
    if shapes.len() == 0 {
        placements
    } else {
        let before = moved(placements, shapes.drop_last(), snapshots, by);
        let k = shapes.len() - 1;
        before.update(
            shapes[k] as int,
            replaced(before[shapes[k] as int], transform_shifted(snapshots[k], by)),
        )
    }
}

/// `placements` after each of `shapes` was translated by `by`, in their
/// order.
pub open spec fn shifted(placements: Seq<TilePlacement>, shapes: Seq<usize>, by: Vec2) -> Seq<
    TilePlacement,
>
    decreases shapes.len(),
{
    if shapes.len() == 0 {
        placements
    } else {
        let before = shifted(placements, shapes.drop_last(), by);
        let shape = shapes.last() as int;
        before.update(shape, replaced(before[shape], transform_shifted(before[shape].transform, by)))
    }
}

/// The rule set with other placements in the rule `tile`.
pub open spec fn with_placements(step: StepModel, tile: int, placements: Seq<TilePlacement>) -> StepModel {
    StepModel {
        rules: step.rules.update(tile, RuleModel { corners: step.rules[tile].corners, result: placements }),
        expansion_factor: step.expansion_factor,
    }
}

/// Whether `after` holds the tiles of `before`, placement by placement.
pub open spec fn same_tiles(before: Seq<TilePlacement>, after: Seq<TilePlacement>) -> bool {
    &&& after.len() == before.len()
    &&& forall|i: int| 0 <= i < before.len() ==> (#[trigger] after[i]).tile_id == before[i].tile_id
}

/// What the snap after a drag of `shapes` joins: the closest pair of a point
/// that stays and a point that was moved, if it lies within the snap distance.
pub open spec fn snap_pair(rules: Seq<RuleModel>, tile: int, shapes: Seq<usize>) -> Option<
    (Point, Point),
> {
    snap_choice(target_points(rules, tile, shapes), movable_points(rules, rules[tile].result, shapes))
}

/// The placements of the rule `tile` after the snap: where a pair is
/// joined, each of `shapes` is translated by the way from the moved point of
/// the pair to its target.
pub open spec fn snapped(rules: Seq<RuleModel>, tile: int, shapes: Seq<usize>) -> Seq<TilePlacement> {
    match snap_pair(rules, tile, shapes) {
        Some((target, movable)) => shifted(rules[tile].result, shapes, point_difference(target, movable)),
        None => rules[tile].result,
    }
}

/// The point that the snap joins the selection to, if it joins any.
pub open spec fn snap_target(rules: Seq<RuleModel>, tile: int, shapes: Seq<usize>) -> Option<Point> {
    match snap_pair(rules, tile, shapes) {
        Some((target, movable)) => Some(target),
        None => None,
    }
}

/// A drag changes transforms only: the placements stay as many and keep
/// their tiles.
pub proof fn lemma_moved_same_tiles(
    placements: Seq<TilePlacement>,
    shapes: Seq<usize>,
    snapshots: Seq<Affine>,
    by: Vec2,
)
    requires
        all_below(shapes, placements.len()),
    ensures
        same_tiles(placements, moved(placements, shapes, snapshots, by)),
    decreases shapes.len(),
{
    if shapes.len() > 0 {
        lemma_all_below_shorter(shapes, placements.len());
        lemma_moved_same_tiles(placements, shapes.drop_last(), snapshots, by);
        assert(shapes[shapes.len() - 1] < placements.len());
    }
}

/// A snap changes transforms only: the placements stay as many and keep
/// their tiles.
pub proof fn lemma_shifted_same_tiles(placements: Seq<TilePlacement>, shapes: Seq<usize>, by: Vec2)
    requires
        all_below(shapes, placements.len()),
    ensures
        same_tiles(placements, shifted(placements, shapes, by)),
    decreases shapes.len(),
{
    if shapes.len() > 0 {
        lemma_all_below_shorter(shapes, placements.len());
        lemma_shifted_same_tiles(placements, shapes.drop_last(), by);
        assert(shapes[shapes.len() - 1] < placements.len());
    }
}

/// A rule set that refers to its own tiles only still does so when the
/// placements of one rule are exchanged for others with the same tiles.
pub proof fn lemma_same_tiles_closed(step: StepModel, tile: int, placements: Seq<TilePlacement>)
    requires
        rules_closed(step.rules),
        0 <= tile < step.rules.len(),
        same_tiles(step.rules[tile].result, placements),
    ensures
        rules_closed(with_placements(step, tile, placements).rules),
        with_placements(step, tile, placements).rules.len() == step.rules.len(),
        with_placements(step, tile, placements).rules[tile].result == placements,
{
    let after = with_placements(step, tile, placements).rules;
    assert forall|r: int, k: int| 0 <= r < after.len() && 0 <= k < after[r].result.len() implies (
    #[trigger] after[r].result[k]).tile_id < after.len() by {
        if r == tile {
            assert(placements[k].tile_id == step.rules[tile].result[k].tile_id);
        } else {
            assert(after[r].result[k] == step.rules[r].result[k]);
        }
    }
}

/// A drag leaves a placement that is not among `shapes` as it was.
pub proof fn lemma_moved_elsewhere(
    placements: Seq<TilePlacement>,
    shapes: Seq<usize>,
    snapshots: Seq<Affine>,
    by: Vec2,
    i: int,
)
    requires
        all_below(shapes, placements.len()),
        0 <= i < placements.len(),
        !among(shapes, i),
    ensures
        moved(placements, shapes, snapshots, by)[i] == placements[i],
    decreases shapes.len(),
{
    if shapes.len() > 0 {
        let shorter = shapes.drop_last();
        lemma_all_below_shorter(shapes, placements.len());
        assert(!among(shorter, i)) by {
            if among(shorter, i) {
                let k = choose|k: int| 0 <= k < shorter.len() && #[trigger] shorter[k] == i;
                assert(shapes[k] == i);
            }
        }
        lemma_moved_elsewhere(placements, shorter, snapshots, by, i);
        lemma_moved_same_tiles(placements, shorter, snapshots, by);
        assert(shapes[shapes.len() - 1] != i);
        assert(shapes[shapes.len() - 1] < placements.len());
    }
}

/// Where no placement is selected twice, a drag sets each selected placement
/// to its own snapshot, translated.
pub proof fn lemma_moved_sets_each(
    placements: Seq<TilePlacement>,
    shapes: Seq<usize>,
    snapshots: Seq<Affine>,
    by: Vec2,
    k: int,
)
    requires
        all_below(shapes, placements.len()),
        shapes.no_duplicates(),
        0 <= k < shapes.len(),
    ensures
        moved(placements, shapes, snapshots, by)[shapes[k] as int] == replaced(
            placements[shapes[k] as int],
            transform_shifted(snapshots[k], by),
        ),
    decreases shapes.len(),
{
    let shorter = shapes.drop_last();
    lemma_all_below_shorter(shapes, placements.len());
    lemma_moved_same_tiles(placements, shorter, snapshots, by);
    assert(shapes[k] < placements.len());
    if k < shapes.len() - 1 {
        assert(shorter.no_duplicates());
        assert(shorter[k] == shapes[k]);
        lemma_moved_sets_each(placements, shorter, snapshots, by, k);
        assert(shapes[shapes.len() - 1] != shapes[k]);
    }
}

/// Where no placement is selected twice, a snap translates each selected
/// placement once.
pub proof fn lemma_shifted_sets_each(placements: Seq<TilePlacement>, shapes: Seq<usize>, by: Vec2, k: int)
    requires
        all_below(shapes, placements.len()),
        shapes.no_duplicates(),
        0 <= k < shapes.len(),
    ensures
        shifted(placements, shapes, by)[shapes[k] as int] == replaced(
            placements[shapes[k] as int],
            transform_shifted(placements[shapes[k] as int].transform, by),
        ),
    decreases shapes.len(),
{
    let shorter = shapes.drop_last();
    lemma_all_below_shorter(shapes, placements.len());
    lemma_shifted_same_tiles(placements, shorter, by);
    assert(shapes[k] < placements.len());
    if k < shapes.len() - 1 {
        assert(shorter.no_duplicates());
        assert(shorter[k] == shapes[k]);
        lemma_shifted_sets_each(placements, shorter, by, k);
        assert(shapes[shapes.len() - 1] != shapes[k]);
    } else {
        assert(!among(shorter, shapes[k] as int)) by {
            if among(shorter, shapes[k] as int) {
                let j = choose|j: int| 0 <= j < shorter.len() && #[trigger] shorter[j] == shapes[k] as int;
                assert(shapes[j] == shapes[k]);
            }
        }
        lemma_shifted_elsewhere(placements, shorter, by, shapes[k] as int);
    }
}

/// A snap leaves a placement that is not among `shapes` as it was.
pub proof fn lemma_shifted_elsewhere(placements: Seq<TilePlacement>, shapes: Seq<usize>, by: Vec2, i: int)
    requires
        all_below(shapes, placements.len()),
        0 <= i < placements.len(),
        !among(shapes, i),
    ensures
        shifted(placements, shapes, by)[i] == placements[i],
    decreases shapes.len(),
{
    if shapes.len() > 0 {
        let shorter = shapes.drop_last();
        lemma_all_below_shorter(shapes, placements.len());
        assert(!among(shorter, i)) by {
            if among(shorter, i) {
                let k = choose|k: int| 0 <= k < shorter.len() && #[trigger] shorter[k] == i;
                assert(shapes[k] == i);
            }
        }
        lemma_shifted_elsewhere(placements, shorter, by, i);
        lemma_shifted_same_tiles(placements, shorter, by);
        assert(shapes[shapes.len() - 1] != i);
    }
}

/// Whatever holds of all of `shapes` holds of the first `n` of them.
proof fn lemma_all_below_part(shapes: Seq<usize>, count: nat, n: int)
    requires
        0 <= n <= shapes.len(),
        all_below(shapes, count),
    ensures
        all_below(shapes.take(n), count),
{
    assert forall|k: int| 0 <= k < shapes.take(n).len() implies (#[trigger] shapes.take(n)[k]) < count by {
        assert(shapes[k] < count);
    }
}

/// Whatever holds of all of `shapes` holds of all but the last.
proof fn lemma_all_below_shorter(shapes: Seq<usize>, count: nat)
    requires
        shapes.len() > 0,
        all_below(shapes, count),
    ensures
        all_below(shapes.drop_last(), count),
        shapes.last() < count,
{
    assert forall|k: int| 0 <= k < shapes.drop_last().len() implies (#[trigger] shapes.drop_last()[k])
        < count by {
        assert(shapes[k] < count);
    }
    assert(shapes[shapes.len() - 1] < count);
}

/// A drag sets each of `shapes` to the same placement on two lists that hold
/// the same tiles, and leaves alike what was alike.
proof fn lemma_moved_alike(
    placements: Seq<TilePlacement>,
    others: Seq<TilePlacement>,
    shapes: Seq<usize>,
    snapshots: Seq<Affine>,
    by: Vec2,
    i: int,
)
    requires
        all_below(shapes, placements.len()),
        same_tiles(placements, others),
        0 <= i < placements.len(),
        among(shapes, i) || others[i] == placements[i],
    ensures
        moved(others, shapes, snapshots, by)[i] == moved(placements, shapes, snapshots, by)[i],
    decreases shapes.len(),
{
    if shapes.len() > 0 {
        let shorter = shapes.drop_last();
        let last = shapes.last();
        lemma_all_below_shorter(shapes, placements.len());
        lemma_moved_same_tiles(placements, shorter, snapshots, by);
        lemma_moved_same_tiles(others, shorter, snapshots, by);
        let a = moved(others, shorter, snapshots, by);
        let b = moved(placements, shorter, snapshots, by);
        assert(a[last as int].tile_id == others[last as int].tile_id);
        assert(b[last as int].tile_id == placements[last as int].tile_id);
        if i != last {
            if among(shapes, i) {
                let k = choose|k: int| 0 <= k < shapes.len() && #[trigger] shapes[k] == i;
                assert(shorter[k] == i);
            }
            lemma_moved_alike(placements, others, shorter, snapshots, by, i);
        }
    }
}

/// A drag that is applied again, from the same snapshots, forgets the way it
/// went before: what counts is the way the pointer has gone since the start.
pub proof fn lemma_moved_again(
    placements: Seq<TilePlacement>,
    shapes: Seq<usize>,
    snapshots: Seq<Affine>,
    first: Vec2,
    second: Vec2,
)
    requires
        all_below(shapes, placements.len()),
    ensures
        moved(moved(placements, shapes, snapshots, first), shapes, snapshots, second) == moved(
            placements,
            shapes,
            snapshots,
            second,
        ),
{
    let once = moved(placements, shapes, snapshots, first);
    lemma_moved_same_tiles(placements, shapes, snapshots, first);
    lemma_moved_same_tiles(placements, shapes, snapshots, second);
    lemma_moved_same_tiles(once, shapes, snapshots, second);
    let a = moved(once, shapes, snapshots, second);
    let b = moved(placements, shapes, snapshots, second);
    assert forall|i: int| 0 <= i < a.len() implies a[i] == b[i] by {
        if !among(shapes, i) {
            lemma_moved_elsewhere(placements, shapes, snapshots, first, i);
        }
        lemma_moved_alike(placements, once, shapes, snapshots, second, i);
    }
    assert(a =~= b);
}

impl TilingStep {
    /// Gives the placement `k` of the rule `tile` another transform.
    fn set_transform(&mut self, tile: usize, k: usize, transform: Affine)
        requires
            tile < old(self)@.rules.len(),
            k < old(self)@.rules[tile as int].result.len(),
        ensures
            final(self)@ == with_placements(
                old(self)@,
                tile as int,
                old(self)@.rules[tile as int].result.update(
                    k as int,
                    replaced(old(self)@.rules[tile as int].result[k as int], transform),
                ),
            ),
    {
        assert(old(self)@.rules[tile as int].result == old(self).rules@[tile as int].result@);
        self.rules[tile].result[k].transform = transform;
        assert(self@.rules =~= with_placements(
            old(self)@,
            tile as int,
            old(self)@.rules[tile as int].result.update(
                k as int,
                replaced(old(self)@.rules[tile as int].result[k as int], transform),
            ),
        ).rules) by {
            assert(self.rules@.len() == old(self).rules@.len());
            assert forall|r: int| 0 <= r < self.rules@.len() implies self@.rules[r] == with_placements(
                old(self)@,
                tile as int,
                old(self)@.rules[tile as int].result.update(
                    k as int,
                    replaced(old(self)@.rules[tile as int].result[k as int], transform),
                ),
            ).rules[r] by {
                if r == tile {
                    assert(self.rules@[r].result@ =~= old(self).rules@[r].result@.update(
                        k as int,
                        replaced(old(self).rules@[r].result@[k as int], transform),
                    ));
                    assert(self.rules@[r].tile == old(self).rules@[r].tile);
                } else {
                    assert(self.rules@[r] == old(self).rules@[r]);
                }
            }
        }
    }

    /// Sets each of the placements `shapes` of the rule `tile` to its
    /// snapshot translated by `by`.
    pub fn move_placements(&mut self, tile: usize, shapes: &Vec<usize>, snapshots: &Vec<Affine>, by: &Vec2)
        requires
            tile < old(self)@.rules.len(),
            all_below(shapes@, old(self)@.rules[tile as int].result.len()),
            shapes@.len() <= snapshots@.len(),
        ensures
            final(self)@ == with_placements(
                old(self)@,
                tile as int,
                moved(old(self)@.rules[tile as int].result, shapes@, snapshots@, *by),
            ),
    {
        let ghost start = self@;
        let ghost placements = self@.rules[tile as int].result;
        let mut k: usize = 0;
        assert(shapes@.take(0) == Seq::<usize>::empty());
        assert(self@ == with_placements(start, tile as int, placements)) by {
            assert(self@.rules =~= with_placements(start, tile as int, placements).rules);
        }
        while k < shapes.len()
            invariant
                k <= shapes.len(),
                shapes@.len() <= snapshots@.len(),
                tile < start.rules.len(),
                placements == start.rules[tile as int].result,
                all_below(shapes@, placements.len()),
                self@ == with_placements(
                    start,
                    tile as int,
                    moved(placements, shapes@.take(k as int), snapshots@, *by),
                ),
            decreases shapes.len() - k,
        {
            let ghost part = shapes@.take(k as int);
            proof {
                lemma_all_below_part(shapes@, placements.len(), k as int);
                lemma_moved_same_tiles(placements, part, snapshots@, *by);
                assert(shapes@[k as int] < placements.len());
                assert(shapes@.take(k + 1).drop_last() == part);
            }
            let ghost before = self@;
            let transform = then_translate(&snapshots[k], by);
            self.set_transform(tile, shapes[k], transform);
            proof {
                let now = moved(placements, shapes@.take(k + 1), snapshots@, *by);
                assert(before.rules[tile as int].result == moved(placements, part, snapshots@, *by));
                assert(self@.rules =~= with_placements(start, tile as int, now).rules);
            }
            k += 1;
        }
        assert(shapes@.take(k as int) == shapes@);
    }

    /// Translates each of the placements `shapes` of the rule `tile` by `by`.
    pub fn shift_placements(&mut self, tile: usize, shapes: &Vec<usize>, by: &Vec2)
        requires
            tile < old(self)@.rules.len(),
            all_below(shapes@, old(self)@.rules[tile as int].result.len()),
        ensures
            final(self)@ == with_placements(
                old(self)@,
                tile as int,
                shifted(old(self)@.rules[tile as int].result, shapes@, *by),
            ),
    {
        let ghost start = self@;
        let ghost placements = self@.rules[tile as int].result;
        let mut k: usize = 0;
        assert(shapes@.take(0) == Seq::<usize>::empty());
        assert(self@ == with_placements(start, tile as int, placements)) by {
            assert(self@.rules =~= with_placements(start, tile as int, placements).rules);
        }
        while k < shapes.len()
            invariant
                k <= shapes.len(),
                tile < start.rules.len(),
                tile < self.rules.len(),
                placements == start.rules[tile as int].result,
                all_below(shapes@, placements.len()),
                self@ == with_placements(start, tile as int, shifted(placements, shapes@.take(k as int), *by)),
            decreases shapes.len() - k,
        {
            let ghost part = shapes@.take(k as int);
            proof {
                lemma_all_below_part(shapes@, placements.len(), k as int);
                lemma_shifted_same_tiles(placements, part, *by);
                assert(shapes@[k as int] < placements.len());
                assert(shapes@.take(k + 1).drop_last() == part);
            }
            let ghost before = self@;
            assert(before.rules[tile as int].result == self.rules@[tile as int].result@);
            let shape = shapes[k];
            let transform = then_translate(&self.rules[tile].result[shape].transform, by);
            self.set_transform(tile, shape, transform);
            proof {
                let now = shifted(placements, shapes@.take(k + 1), *by);
                assert(before.rules[tile as int].result == shifted(placements, part, *by));
                assert(self@.rules =~= with_placements(start, tile as int, now).rules);
            }
            k += 1;
        }
        assert(shapes@.take(k as int) == shapes@);
    }

    /// Snaps the placements `shapes` of the rule `tile`: where a point of
    /// theirs lies within the snap distance of a point that stays, all of
    /// them are translated by the way between the closest such pair. Returns
    /// the point that the selection was joined to.
    pub fn snap_placements(&mut self, tile: usize, shapes: &Vec<usize>) -> (target: Option<Point>)
        requires
            old(self).wf(),
            tile < old(self)@.rules.len(),
            all_below(shapes@, old(self)@.rules[tile as int].result.len()),
        ensures
            final(self)@ == with_placements(
                old(self)@,
                tile as int,
                snapped(old(self)@.rules, tile as int, shapes@),
            ),
            target == snap_target(old(self)@.rules, tile as int, shapes@),
    {
        let snap_points = self.snap_targets(tile, shapes);
        let movable_points = self.rule_points(tile, shapes);
        match closest_snap_pair(&snap_points, &movable_points) {
            Some((t, f)) => {
                let movement = difference(&t, &f);
                self.shift_placements(tile, shapes, &movement);
                Some(t)
            },
            None => {
                assert(self@.rules =~= with_placements(
                    self@,
                    tile as int,
                    self@.rules[tile as int].result,
                ).rules);
                None
            },
        }
    }
}

/// Where no point that was moved lies within the snap distance of a point
/// that stays, the snap changes nothing.
pub proof fn lemma_snap_out_of_reach(rules: Seq<RuleModel>, tile: int, shapes: Seq<usize>)
    requires
        forall|i: int, j: int|
            0 <= i < target_points(rules, tile, shapes).len() && 0 <= j < movable_points(
                rules,
                rules[tile].result,
                shapes,
            ).len() ==> #[trigger] pair_distance(
                target_points(rules, tile, shapes),
                movable_points(rules, rules[tile].result, shapes),
                i,
                j,
            ) >= SNAP_DISTANCE_SQUARED,
    ensures
        snap_target(rules, tile, shapes) is None,
        snapped(rules, tile, shapes) == rules[tile].result,
{
    lemma_no_snap_out_of_reach(
        target_points(rules, tile, shapes),
        movable_points(rules, rules[tile].result, shapes),
    );
}

/// Where exactly one pair of a point that stays and a point that was moved
/// lies within the snap distance, the snap joins that pair: each selected
/// placement is translated by the way from the moved point to its target.
pub proof fn lemma_snap_joins_single_pair(
    rules: Seq<RuleModel>,
    tile: int,
    shapes: Seq<usize>,
    i: int,
    j: int,
)
    requires
        0 <= i < target_points(rules, tile, shapes).len(),
        0 <= j < movable_points(rules, rules[tile].result, shapes).len(),
        pair_distance(
            target_points(rules, tile, shapes),
            movable_points(rules, rules[tile].result, shapes),
            i,
            j,
        ) < SNAP_DISTANCE_SQUARED,
        forall|i2: int, j2: int|
            0 <= i2 < target_points(rules, tile, shapes).len() && 0 <= j2 < movable_points(
                rules,
                rules[tile].result,
                shapes,
            ).len() && (i2 != i || j2 != j) ==> #[trigger] pair_distance(
                target_points(rules, tile, shapes),
                movable_points(rules, rules[tile].result, shapes),
                i2,
                j2,
            ) >= SNAP_DISTANCE_SQUARED,
    ensures
        snap_target(rules, tile, shapes) == Some(target_points(rules, tile, shapes)[i]),
        snapped(rules, tile, shapes) == shifted(
            rules[tile].result,
            shapes,
            point_difference(
                target_points(rules, tile, shapes)[i],
                movable_points(rules, rules[tile].result, shapes)[j],
            ),
        ),
{
    lemma_single_pair_snaps(
        target_points(rules, tile, shapes),
        movable_points(rules, rules[tile].result, shapes),
        i,
        j,
    );
}

} // verus!
