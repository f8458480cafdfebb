//! Snapping: among the points a drag moves and the points that stay, the pair
//! that lies closest together, if it lies within the snap distance.

use crate::geometry::{
    difference, length_squared, point_difference, rank_of, vector_length_squared,
};
use crate::outline::images;
use crate::selection::{among, contains};
use crate::tiling::{RuleModel, TilePlacement, TilingStep};
use kurbo::Point;
use vstd::prelude::*;

verus! {

/// The square of the snap distance, 0.04 in the coordinates of the rule, as
/// the rank of the double `0.04 * 0.04`.
pub const SNAP_DISTANCE_SQUARED: u64 = 0x3F5A_36E2_EB1C_432D;

/// The squared distance between two points, as the rank of the double that
/// holds it. The ranks are ordered as the distances are; the distance to a
/// point that is no number ranks above all others.
pub open spec fn squared_distance(target: Point, movable: Point) -> u64 {
    vector_length_squared(point_difference(target, movable))
}

/// The squared distance between the target `i` and the movable point `j`.
pub open spec fn pair_distance(targets: Seq<Point>, movables: Seq<Point>, i: int, j: int) -> u64 {
    squared_distance(targets[i], movables[j])
}

/// Whether the pair `(i2, j2)` comes before `(i, j)` when the pairs are gone
/// through target by target.
pub open spec fn comes_before(i2: int, j2: int, i: int, j: int) -> bool {
    i2 < i || (i2 == i && j2 < j)
}

/// Whether the target `i` and the movable point `j` are the pair that a snap
/// joins: they lie within the snap distance, no pair lies closer, and no
/// earlier pair lies as close.
pub open spec fn snaps(targets: Seq<Point>, movables: Seq<Point>, i: int, j: int) -> bool {
    &&& 0 <= i < targets.len()
    &&& 0 <= j < movables.len()
    &&& pair_distance(targets, movables, i, j) < SNAP_DISTANCE_SQUARED
    &&& forall|i2: int, j2: int|
        0 <= i2 < targets.len() && 0 <= j2 < movables.len() ==> {
            &&& pair_distance(targets, movables, i, j) <= #[trigger] pair_distance(targets, movables, i2, j2)
            &&& comes_before(i2, j2, i, j) ==> pair_distance(targets, movables, i, j) < pair_distance(
                targets,
                movables,
                i2,
                j2,
            )
        }
}

/// The target and the movable point that a snap joins, if any pair lies
/// within the snap distance.
pub open spec fn snap_choice(targets: Seq<Point>, movables: Seq<Point>) -> Option<(Point, Point)> {
    if exists|i: int, j: int| snaps(targets, movables, i, j) {
        let (i, j) = choose|i: int, j: int| snaps(targets, movables, i, j);
        Some((targets[i], movables[j]))
    } else {
        None
    }
}

/// The corners of each selected placement as it is placed, in the order of
/// the selection.
pub open spec fn movable_points(
    rules: Seq<RuleModel>,
    placements: Seq<TilePlacement>,
    shapes: Seq<usize>,
) -> Seq<Point>
    decreases shapes.len(),
{
    if shapes.len() == 0 {
        Seq::empty()
    } else {
        let placement = placements[shapes.last() as int];
        movable_points(rules, placements, shapes.drop_last()) + images(
            placement.transform,
            rules[placement.tile_id as int].corners,
        )
    }
}

/// The corners of each of the first `count` placements that is not selected,
/// as it is placed.
pub open spec fn resting_points(
    rules: Seq<RuleModel>,
    placements: Seq<TilePlacement>,
    shapes: Seq<usize>,
    count: nat,
) -> Seq<Point>
    decreases count,
{
    if count == 0 {
        Seq::empty()
    } else {
        let j = (count - 1) as nat;
        let before = resting_points(rules, placements, shapes, j);
        if among(shapes, j as int) {
            before
        } else {
            before + images(placements[j as int].transform, rules[placements[j as int].tile_id as int].corners)
        }
    }
}

/// The points that a drag of `shapes` in the rule `tile` may snap to: the
/// corners of the rule's own tile, then those of each placement that is not
/// selected.
pub open spec fn target_points(rules: Seq<RuleModel>, tile: int, shapes: Seq<usize>) -> Seq<Point> {
    rules[tile].corners + resting_points(rules, rules[tile].result, shapes, rules[tile].result.len())
}

/// One pair at most meets `snaps`, so that `snap_choice` names it.
pub proof fn lemma_snap_pair_is_unique(
    targets: Seq<Point>,
    movables: Seq<Point>,
    i: int,
    j: int,
    i2: int,
    j2: int,
)
    requires
        snaps(targets, movables, i, j),
        snaps(targets, movables, i2, j2),
    ensures
        i == i2,
        j == j2,
{
    let d = pair_distance(targets, movables, i, j);
    let d2 = pair_distance(targets, movables, i2, j2);
    assert(d <= d2);
    assert(d2 <= d);
    if comes_before(i2, j2, i, j) {
        assert(d < d2);
    }
    if comes_before(i, j, i2, j2) {
        assert(d2 < d);
    }
}

/// Where a pair meets `snaps`, the snap joins that pair.
pub proof fn lemma_snap_choice_is(targets: Seq<Point>, movables: Seq<Point>, i: int, j: int)
    requires
        snaps(targets, movables, i, j),
    ensures
        snap_choice(targets, movables) == Some((targets[i], movables[j])),
{
    let (ci, cj) = choose|ci: int, cj: int| snaps(targets, movables, ci, cj);
    lemma_snap_pair_is_unique(targets, movables, i, j, ci, cj);
}

/// Where no pair lies within the snap distance, nothing snaps.
pub proof fn lemma_no_snap_out_of_reach(targets: Seq<Point>, movables: Seq<Point>)
    requires
        forall|i: int, j: int|
            0 <= i < targets.len() && 0 <= j < movables.len() ==> #[trigger] pair_distance(
                targets,
                movables,
                i,
                j,
            ) >= SNAP_DISTANCE_SQUARED,
    ensures
        snap_choice(targets, movables) is None,
{
    assert forall|i: int, j: int| !snaps(targets, movables, i, j) by {
        if 0 <= i < targets.len() && 0 <= j < movables.len() {
            assert(pair_distance(targets, movables, i, j) >= SNAP_DISTANCE_SQUARED);
        }
    }
}

/// Where exactly one pair lies within the snap distance, the snap joins that
/// pair.
pub proof fn lemma_single_pair_snaps(targets: Seq<Point>, movables: Seq<Point>, i: int, j: int)
    requires
        0 <= i < targets.len(),
        0 <= j < movables.len(),
        pair_distance(targets, movables, i, j) < SNAP_DISTANCE_SQUARED,
        forall|i2: int, j2: int|
            0 <= i2 < targets.len() && 0 <= j2 < movables.len() && (i2 != i || j2 != j)
                ==> #[trigger] pair_distance(targets, movables, i2, j2) >= SNAP_DISTANCE_SQUARED,
    ensures
        snap_choice(targets, movables) == Some((targets[i], movables[j])),
{
    assert(snaps(targets, movables, i, j));
    lemma_snap_choice_is(targets, movables, i, j);
}

/// The target and the movable point that a snap joins: the closest pair
/// within the snap distance, and of several equally close pairs the first,
/// going through the targets in order and for each through the movable
/// points.
pub fn closest_snap_pair(targets: &Vec<Point>, movables: &Vec<Point>) -> (best: Option<(Point, Point)>)
    ensures
        best == snap_choice(targets@, movables@),
{
    let mut best: Option<(Point, Point)> = None;
    let mut best_distance: u64 = 0;
    let ghost mut bi: int = 0;
    let ghost mut bj: int = 0;
    let mut i: usize = 0;
    while i < targets.len()
        invariant
            i <= targets.len(),
            best is None ==> forall|i2: int, j2: int|
                0 <= i2 < i && 0 <= j2 < movables.len() ==> #[trigger] pair_distance(
                    targets@,
                    movables@,
                    i2,
                    j2,
                ) >= SNAP_DISTANCE_SQUARED,
            best is Some ==> {
                &&& 0 <= bi < i
                &&& 0 <= bj < movables.len()
                &&& best == Some((targets@[bi], movables@[bj]))
                &&& best_distance == pair_distance(targets@, movables@, bi, bj)
                &&& best_distance < SNAP_DISTANCE_SQUARED
                &&& forall|i2: int, j2: int|
                    0 <= i2 < i && 0 <= j2 < movables.len() ==> {
                        &&& best_distance <= #[trigger] pair_distance(targets@, movables@, i2, j2)
                        &&& comes_before(i2, j2, bi, bj) ==> best_distance < pair_distance(
                            targets@,
                            movables@,
                            i2,
                            j2,
                        )
                    }
            },
        decreases targets.len() - i,
    {
        let mut j: usize = 0;
        while j < movables.len()
            invariant
                i < targets.len(),
                j <= movables.len(),
                best is None ==> forall|i2: int, j2: int|
                    0 <= i2 <= i && 0 <= j2 < movables.len() && comes_before(i2, j2, i as int, j as int)
                        ==> #[trigger] pair_distance(targets@, movables@, i2, j2) >= SNAP_DISTANCE_SQUARED,
                best is Some ==> {
                    &&& 0 <= bi <= i
                    &&& 0 <= bj < movables.len()
                    &&& comes_before(bi, bj, i as int, j as int)
                    &&& best == Some((targets@[bi], movables@[bj]))
                    &&& best_distance == pair_distance(targets@, movables@, bi, bj)
                    &&& best_distance < SNAP_DISTANCE_SQUARED
                    &&& forall|i2: int, j2: int|
                        0 <= i2 <= i && 0 <= j2 < movables.len() && comes_before(i2, j2, i as int, j as int)
                            ==> {
                            &&& best_distance <= #[trigger] pair_distance(targets@, movables@, i2, j2)
                            &&& comes_before(i2, j2, bi, bj) ==> best_distance < pair_distance(
                                targets@,
                                movables@,
                                i2,
                                j2,
                            )
                        }
                },
            decreases movables.len() - j,
        {
            let dis = rank_of(length_squared(&difference(&targets[i], &movables[j])));
            assert(dis == pair_distance(targets@, movables@, i as int, j as int));
            let closer = match best {
                None => true,
                Some(_) => dis < best_distance,
            };
            if dis < SNAP_DISTANCE_SQUARED && closer {
                best_distance = dis;
                best = Some((targets[i], movables[j]));
                proof {
                    bi = i as int;
                    bj = j as int;
                }
            }
            j += 1;
        }
        i += 1;
    }
    proof {
        if best is Some {
            assert(snaps(targets@, movables@, bi, bj));
            lemma_snap_choice_is(targets@, movables@, bi, bj);
        } else {
            lemma_no_snap_out_of_reach(targets@, movables@);
        }
    }
    best
}

impl TilingStep {
    /// Adds to `out` the corners of `placement` as it is placed.
    fn add_points(&self, placement: &TilePlacement, out: &mut Vec<Point>)
        requires
            placement.tile_id < self@.rules.len(),
        ensures
            final(out)@ == old(out)@ + images(
                placement.transform,
                self@.rules[placement.tile_id as int].corners,
            ),
    {
        let tile = &self.rules[placement.tile_id].tile;
        assert(self@.rules[placement.tile_id as int].corners == tile@);
        let mut placed = tile.corners_under(&placement.transform);
        out.append(&mut placed);
    }

    /// The points that a drag of the placements `shapes` of the rule
    /// `current_tile` moves: the corners of each of them as it is placed.
    pub fn rule_points(&self, current_tile: usize, shapes: &Vec<usize>) -> (points: Vec<Point>)
        requires
            self.wf(),
            current_tile < self@.rules.len(),
            forall|k: int|
                0 <= k < shapes@.len() ==> (#[trigger] shapes@[k]) < self@.rules[current_tile as int].result.len(),
        ensures
            points@ == movable_points(self@.rules, self@.rules[current_tile as int].result, shapes@),
    {
        let rule = &self.rules[current_tile];
        let ghost placements = self@.rules[current_tile as int].result;
        assert(placements == rule.result@);
        let mut points: Vec<Point> = Vec::new();
        let mut k: usize = 0;
        assert(shapes@.take(0) == Seq::<usize>::empty());
        while k < shapes.len()
            invariant
                k <= shapes.len(),
                self.wf(),
                current_tile < self@.rules.len(),
                placements == self@.rules[current_tile as int].result,
                placements == rule.result@,
                forall|n: int| 0 <= n < shapes@.len() ==> (#[trigger] shapes@[n]) < placements.len(),
                points@ == movable_points(self@.rules, placements, shapes@.take(k as int)),
            decreases shapes.len() - k,
        {
            let placement = &rule.result[shapes[k]];
            assert(placement.tile_id < self@.rules.len()) by {
                assert(self@.rules[current_tile as int].result[shapes@[k as int] as int] == *placement);
            }
            self.add_points(placement, &mut points);
            assert(shapes@.take(k + 1).drop_last() == shapes@.take(k as int));
            k += 1;
        }
        assert(shapes@.take(k as int) == shapes@);
        points
    }

    /// The points that a drag of the placements `shapes` of the rule
    /// `current_tile` may snap to: the corners of the rule's own tile, then
    /// those of each placement that is not among `shapes`.
    pub fn snap_targets(&self, current_tile: usize, shapes: &Vec<usize>) -> (points: Vec<Point>)
        requires
            self.wf(),
            current_tile < self@.rules.len(),
        ensures
            points@ == target_points(self@.rules, current_tile as int, shapes@),
    {
        let rule = &self.rules[current_tile];
        let ghost placements = self@.rules[current_tile as int].result;
        assert(placements == rule.result@);
        assert(self@.rules[current_tile as int].corners == rule.tile.corners@);
        let mut points: Vec<Point> = Vec::new();
        let mut c: usize = 0;
        while c < rule.tile.corners.len()
            invariant
                c <= rule.tile.corners.len(),
                points@ == rule.tile.corners@.take(c as int),
            decreases rule.tile.corners.len() - c,
        {
            points.push(rule.tile.corners[c]);
            c += 1;
            assert(points@ == rule.tile.corners@.take(c as int));
        }
        assert(rule.tile.corners@.take(c as int) == rule.tile.corners@);
        let mut j: usize = 0;
        assert(points@ == rule.tile.corners@ + resting_points(self@.rules, placements, shapes@, 0));
        while j < rule.result.len()
            invariant
                j <= rule.result.len(),
                self.wf(),
                current_tile < self@.rules.len(),
                placements == self@.rules[current_tile as int].result,
                placements == rule.result@,
                points@ == rule.tile.corners@ + resting_points(self@.rules, placements, shapes@, j as nat),
            decreases rule.result.len() - j,
        {
            if !contains(shapes, j) {
                let placement = &rule.result[j];
                assert(placement.tile_id < self@.rules.len()) by {
                    assert(self@.rules[current_tile as int].result[j as int] == *placement);
                }
                self.add_points(placement, &mut points);
                assert(points@ == rule.tile.corners@ + (resting_points(
                    self@.rules,
                    placements,
                    shapes@,
                    j as nat,
                ) + images(placement.transform, self@.rules[placement.tile_id as int].corners)));
            }
            j += 1;
        }
        points
    }
}

} // verus!
