//! The expansion engine: every placement of one generation is replaced by the
//! placements its rule lists, each carried along by the transform of the
//! placement it replaces. A bound prunes what lies outside a region, and a
//! limit on the number of placements cuts a generation short.

use crate::geometry::{
    apply, compose, inflate_by_larger_side, intersect, is_flat, point_rect, rect_at, rect_is_flat,
    rect_overlap, rect_padded, rect_with_point, to_point, transform_offset, transform_point,
    transform_product, translation, union_pt, vector_point,
};
use crate::tiling::{placements_valid, rules_closed, RuleModel, TilePlacement, TilingStep};
use kurbo::{Affine, Point, Rect};
use vstd::prelude::*;

verus! {

/// The number of placements beyond which `expand_0_levels` cuts a generation
/// short.
pub const DEFAULT_POLYGON_LIMIT: usize = 1000000;

/// The tile that `expand_0_levels` starts from.
pub const ROOT_TILE: usize = 1;

/// `relative`, a placement in the frame of `parent`, seen from the frame that
/// `parent` is placed in: the relative transform is applied first, the
/// parent's second.
pub open spec fn child(parent: TilePlacement, relative: TilePlacement) -> TilePlacement {
    TilePlacement {
        tile_id: relative.tile_id,
        transform: transform_product(parent.transform, relative.transform),
    }
}

/// The placements that replace `parent`, in the order of its rule.
pub open spec fn children(rules: Seq<RuleModel>, parent: TilePlacement) -> Seq<TilePlacement> {
    let listed = rules[parent.tile_id as int].result;
    Seq::new(listed.len(), |k: int| child(parent, listed[k]))
}

/// The smallest rectangle that holds the image of each of `corners` under
/// `t`. Where there are no corners, it is the rectangle without extent at the
/// place that `t` carries the origin to.
pub open spec fn corner_box(t: Affine, corners: Seq<Point>) -> Rect
    decreases corners.len(),
{
    if corners.len() == 0 {
        point_rect(vector_point(transform_offset(t)))
    } else if corners.len() == 1 {
        point_rect(transform_point(t, corners[0]))
    } else {
        rect_with_point(corner_box(t, corners.drop_last()), transform_point(t, corners.last()))
    }
}

/// The region that a placement and what grows out of it is taken to cover:
/// the box of its corners, padded on every side by the larger side of the box.
pub open spec fn estimated_bounds(rules: Seq<RuleModel>, p: TilePlacement) -> Rect {
    rect_padded(corner_box(p.transform, rules[p.tile_id as int].corners))
}

/// Whether a placement is expanded: always without a bound, and with a bound
/// where its estimated region overlaps the bound in more than a line.
pub open spec fn kept(rules: Seq<RuleModel>, p: TilePlacement, bounds: Option<Rect>) -> bool {
    match bounds {
        None => true,
        Some(region) => !rect_is_flat(rect_overlap(estimated_bounds(rules, p), region)),
    }
}

/// The children of those of `parents` that are kept, parent after parent.
pub open spec fn offspring(
    rules: Seq<RuleModel>,
    parents: Seq<TilePlacement>,
    bounds: Option<Rect>,
) -> Seq<TilePlacement>
    decreases parents.len(),
{
    if parents.len() == 0 {
        Seq::empty()
    } else if kept(rules, parents.last(), bounds) {
        offspring(rules, parents.drop_last(), bounds) + children(rules, parents.last())
    } else {
        offspring(rules, parents.drop_last(), bounds)
    }
}

/// Whether `count` placements are more than the limit allows.
pub open spec fn over_limit(count: nat, max_tiles: Option<usize>) -> bool {
    match max_tiles {
        None => false,
        Some(most) => most < count,
    }
}

/// How many of `parents`, from the front, one generation gets to: all of
/// them, or as many as it takes for their offspring to exceed the limit.
pub open spec fn reached(
    rules: Seq<RuleModel>,
    parents: Seq<TilePlacement>,
    bounds: Option<Rect>,
    max_tiles: Option<usize>,
) -> nat
    decreases parents.len(),
{
    if parents.len() == 0 {
        0
    } else {
        let before = parents.drop_last();
        if reached(rules, before, bounds, max_tiles) == before.len() && !over_limit(
            offspring(rules, before, bounds).len(),
            max_tiles,
        ) {
            parents.len()
        } else {
            reached(rules, before, bounds, max_tiles)
        }
    }
}

/// The generation after `parents`.
pub open spec fn generation(
    rules: Seq<RuleModel>,
    parents: Seq<TilePlacement>,
    bounds: Option<Rect>,
    max_tiles: Option<usize>,
) -> Seq<TilePlacement> {
    offspring(rules, parents.take(reached(rules, parents, bounds, max_tiles) as int), bounds)
}

/// The generation `levels` steps after `input`. Generations in between are
/// not part of it.
pub open spec fn generations(
    rules: Seq<RuleModel>,
    input: Seq<TilePlacement>,
    levels: nat,
    bounds: Option<Rect>,
    max_tiles: Option<usize>,
) -> Seq<TilePlacement>
    decreases levels,
{
    if levels == 0 {
        input
    } else {
        generation(rules, generations(rules, input, (levels - 1) as nat, bounds, max_tiles), bounds, max_tiles)
    }
}

/// Whether one of the first `levels` generations after `input` exceeded the
/// limit, so that it was, or may have been, cut short.
pub open spec fn limit_hit(
    rules: Seq<RuleModel>,
    input: Seq<TilePlacement>,
    levels: nat,
    bounds: Option<Rect>,
    max_tiles: Option<usize>,
) -> bool
    decreases levels,
{
    levels > 0 && (limit_hit(rules, input, (levels - 1) as nat, bounds, max_tiles) || over_limit(
        generations(rules, input, levels, bounds, max_tiles).len(),
        max_tiles,
    ))
}

/// The children of a valid placement are valid.
pub proof fn lemma_children_valid(rules: Seq<RuleModel>, parent: TilePlacement)
    requires
        rules_closed(rules),
        parent.tile_id < rules.len(),
    ensures
        placements_valid(rules, children(rules, parent)),
{
    let listed = rules[parent.tile_id as int].result;
    assert forall|k: int| 0 <= k < children(rules, parent).len() implies (#[trigger] children(
        rules,
        parent,
    )[k]).tile_id < rules.len() by {
        assert(listed[k].tile_id < rules.len());
    }
}

/// The offspring of valid placements are valid.
pub proof fn lemma_offspring_valid(
    rules: Seq<RuleModel>,
    parents: Seq<TilePlacement>,
    bounds: Option<Rect>,
)
    requires
        rules_closed(rules),
        placements_valid(rules, parents),
    ensures
        placements_valid(rules, offspring(rules, parents, bounds)),
    decreases parents.len(),
{
    if parents.len() > 0 {
        lemma_offspring_valid(rules, parents.drop_last(), bounds);
        lemma_children_valid(rules, parents.last());
    }
}

/// Once the offspring of the first `n` parents exceed the limit, a
/// generation gets to those `n` and no further.
pub proof fn lemma_reached_stops(
    rules: Seq<RuleModel>,
    parents: Seq<TilePlacement>,
    bounds: Option<Rect>,
    max_tiles: Option<usize>,
    n: int,
)
    requires
        0 <= n <= parents.len(),
        reached(rules, parents.take(n), bounds, max_tiles) == n,
        over_limit(offspring(rules, parents.take(n), bounds).len(), max_tiles),
    ensures
        reached(rules, parents, bounds, max_tiles) == n,
    decreases parents.len() - n,
{
    if n < parents.len() {
        let before = parents.drop_last();
        assert(before.take(n) == parents.take(n));
        lemma_reached_stops(rules, before, bounds, max_tiles, n);
    } else {
        assert(parents.take(n) == parents);
    }
}

impl TilingStep {
    /// Adds to `output` the placements that replace `placed_tile`.
    pub fn expand_tile(&self, placed_tile: &TilePlacement, output: &mut Vec<TilePlacement>)
        requires
            placed_tile.tile_id < self@.rules.len(),
        ensures
            final(output)@ == old(output)@ + children(self@.rules, *placed_tile),
    {
        let rule = &self.rules[placed_tile.tile_id];
        let ghost listed = self@.rules[placed_tile.tile_id as int].result;
        assert(listed == rule.result@);
        let mut k: usize = 0;
        while k < rule.result.len()
            invariant
                k <= rule.result.len(),
                listed == rule.result@,
                output@ == old(output)@ + Seq::new(k as nat, |j: int| child(*placed_tile, listed[j])),
            decreases rule.result.len() - k,
        {
            let item = &rule.result[k];
            let new_tile = TilePlacement {
                tile_id: item.tile_id,
                transform: compose(&placed_tile.transform, &item.transform),
            };
            output.push(new_tile);
            k += 1;
            assert(output@ == old(output)@ + Seq::new(k as nat, |j: int| child(*placed_tile, listed[j])));
        }
        assert(output@ == old(output)@ + children(self@.rules, *placed_tile));
    }

    /// The region that `placed_tile` and what grows out of it is taken to
    /// cover: the tight box of its corners as they are placed, grown on
    /// every side by the larger side of that box. It is an estimate and no
    /// bound: a rule may place a tile outside of it.
    pub fn estimate_bounds(&self, placed_tile: &TilePlacement) -> (region: Rect)
        requires
            placed_tile.tile_id < self@.rules.len(),
        ensures
            region == estimated_bounds(self@.rules, *placed_tile),
    {
        let tile = &self.rules[placed_tile.tile_id].tile;
        let ghost corners = self@.rules[placed_tile.tile_id as int].corners;
        assert(corners == tile.corners@);
        if tile.corners.len() == 0 {
            let origin = to_point(&translation(&placed_tile.transform));
            return inflate_by_larger_side(&rect_at(&origin));
        }
        let first = apply(&placed_tile.transform, &tile.corners[0]);
        let mut result = rect_at(&first);
        let mut i: usize = 1;
        assert(corners.take(1).len() == 1);
        assert(corners.take(1)[0] == corners[0]);
        while i < tile.corners.len()
            invariant
                1 <= i <= tile.corners.len(),
                corners == tile.corners@,
                result == corner_box(placed_tile.transform, corners.take(i as int)),
            decreases tile.corners.len() - i,
        {
            let placed = apply(&placed_tile.transform, &tile.corners[i]);
            result = union_pt(&result, &placed);
            assert(corners.take(i + 1).drop_last() == corners.take(i as int));
            i += 1;
        }
        assert(corners.take(i as int) == corners);
        inflate_by_larger_side(&result)
    }

    /// Whether a generation expands `placed_tile`.
    fn keeps(&self, placed_tile: &TilePlacement, bounds: &Option<Rect>) -> (keep: bool)
        requires
            placed_tile.tile_id < self@.rules.len(),
        ensures
            keep == kept(self@.rules, *placed_tile, *bounds),
    {
        match bounds {
            None => true,
            Some(region) => {
                let tile_bounds = self.estimate_bounds(placed_tile);
                !is_flat(&intersect(&tile_bounds, region))
            },
        }
    }

    /// The generation after `parents`.
    fn next_generation(
        &self,
        parents: &Vec<TilePlacement>,
        bounds: &Option<Rect>,
        max_tiles: Option<usize>,
    ) -> (next: Vec<TilePlacement>)
        requires
            self.wf(),
            placements_valid(self@.rules, parents@),
        ensures
            next@ == generation(self@.rules, parents@, *bounds, max_tiles),
    {
        let ghost rules = self@.rules;
        let mut next: Vec<TilePlacement> = Vec::new();
        let mut i: usize = 0;
        assert(parents@.take(0).len() == 0);
        assert(parents@.take(parents@.len() as int) == parents@);
        while i < parents.len()
            invariant_except_break
                i <= parents.len(),
                parents@.take(parents@.len() as int) == parents@,
                next@ == offspring(rules, parents@.take(i as int), *bounds),
                reached(rules, parents@.take(i as int), *bounds, max_tiles) == i,
                !over_limit(next@.len(), max_tiles),
            invariant
                rules == self@.rules,
                self.wf(),
                placements_valid(rules, parents@),
            ensures
                next@ == generation(rules, parents@, *bounds, max_tiles),
            decreases parents.len() - i,
        {
            let tile = &parents[i];
            assert(parents@.take(i + 1).drop_last() == parents@.take(i as int));
            assert(parents@.take(i + 1).last() == *tile);
            if self.keeps(tile, bounds) {
                self.expand_tile(tile, &mut next);
            }
            i += 1;
            let over = match max_tiles {
                Some(most) => most < next.len(),
                None => false,
            };
            if over {
                proof {
                    lemma_reached_stops(rules, parents@, *bounds, max_tiles, i as int);
                }
                break;
            }
        }
        next
    }

    /// `levels` generations from `input`, with or without a bound.
    fn run(
        &self,
        input: &Vec<TilePlacement>,
        levels: usize,
        bounds: &Option<Rect>,
        output: &mut Vec<TilePlacement>,
        max_tiles: Option<usize>,
    ) -> (truncated: bool)
        requires
            self.wf(),
            placements_valid(self@.rules, input@),
        ensures
            final(output)@ == old(output)@ + generations(
                self@.rules,
                input@,
                levels as nat,
                *bounds,
                max_tiles,
            ),
            truncated == limit_hit(self@.rules, input@, levels as nat, *bounds, max_tiles),
            placements_valid(
                self@.rules,
                generations(self@.rules, input@, levels as nat, *bounds, max_tiles),
            ),
    {
        let ghost rules = self@.rules;
        let mut a: Vec<TilePlacement> = Vec::new();
        let mut i: usize = 0;
        while i < input.len()
            invariant
                i <= input.len(),
                a@ == input@.take(i as int),
            decreases input.len() - i,
        {
            a.push(input[i]);
            i += 1;
            assert(a@ == input@.take(i as int));
        }
        assert(input@.take(i as int) == input@);
        let mut truncated = false;
        let mut level: usize = 0;
        while level < levels
            invariant
                level <= levels,
                rules == self@.rules,
                self.wf(),
                placements_valid(rules, input@),
                placements_valid(rules, a@),
                a@ == generations(rules, input@, level as nat, *bounds, max_tiles),
                truncated == limit_hit(rules, input@, level as nat, *bounds, max_tiles),
            decreases levels - level,
        {
            let b = self.next_generation(&a, bounds, max_tiles);
            proof {
                lemma_generations_valid(rules, input@, (level + 1) as nat, *bounds, max_tiles);
            }
            let over = match max_tiles {
                Some(most) => most < b.len(),
                None => false,
            };
            truncated = truncated || over;
            a = b;
            level += 1;
        }
        output.append(&mut a);
        truncated
    }

    /// Adds to `output` the generation `levels` steps after `input`. A
    /// generation stops growing once it holds more than `max_tiles`
    /// placements; the result says whether one did.
    pub fn expand_levels(
        &self,
        input: &Vec<TilePlacement>,
        levels: usize,
        output: &mut Vec<TilePlacement>,
        max_tiles: Option<usize>,
    ) -> (truncated: bool)
        requires
            self.wf(),
            placements_valid(self@.rules, input@),
        ensures
            final(output)@ == old(output)@ + generations(
                self@.rules,
                input@,
                levels as nat,
                None,
                max_tiles,
            ),
            truncated == limit_hit(self@.rules, input@, levels as nat, None, max_tiles),
            placements_valid(self@.rules, generations(self@.rules, input@, levels as nat, None, max_tiles)),
    {
        self.run(input, levels, &None, output, max_tiles)
    }

    /// As `expand_levels`, but a placement whose estimated region does not
    /// overlap `bounds` is dropped, and its descendants with it.
    pub fn expand_bound(
        &self,
        input: &Vec<TilePlacement>,
        levels: usize,
        bounds: Rect,
        output: &mut Vec<TilePlacement>,
        max_tiles: Option<usize>,
    ) -> (truncated: bool)
        requires
            self.wf(),
            placements_valid(self@.rules, input@),
        ensures
            final(output)@ == old(output)@ + generations(
                self@.rules,
                input@,
                levels as nat,
                Some(bounds),
                max_tiles,
            ),
            truncated == limit_hit(self@.rules, input@, levels as nat, Some(bounds), max_tiles),
            placements_valid(
                self@.rules,
                generations(self@.rules, input@, levels as nat, Some(bounds), max_tiles),
            ),
    {
        self.run(input, levels, &Some(bounds), output, max_tiles)
    }

    /// Adds to `output` the generation `levels` steps after a single
    /// placement of the root tile under `initial`, with the default limit.
    pub fn expand_0_levels(
        &self,
        levels: usize,
        initial: Affine,
        bounds: Option<Rect>,
        output: &mut Vec<TilePlacement>,
    ) -> (truncated: bool)
        requires
            self.wf(),
            ROOT_TILE < self@.rules.len(),
        ensures
            final(output)@ == old(output)@ + generations(
                self@.rules,
                seq![TilePlacement { tile_id: ROOT_TILE, transform: initial }],
                levels as nat,
                bounds,
                Some(DEFAULT_POLYGON_LIMIT),
            ),
            truncated == limit_hit(
                self@.rules,
                seq![TilePlacement { tile_id: ROOT_TILE, transform: initial }],
                levels as nat,
                bounds,
                Some(DEFAULT_POLYGON_LIMIT),
            ),
            placements_valid(
                self@.rules,
                generations(
                    self@.rules,
                    seq![TilePlacement { tile_id: ROOT_TILE, transform: initial }],
                    levels as nat,
                    bounds,
                    Some(DEFAULT_POLYGON_LIMIT),
                ),
            ),
    {
        let mut input: Vec<TilePlacement> = Vec::new();
        input.push(TilePlacement { tile_id: ROOT_TILE, transform: initial });
        assert(input@ == seq![TilePlacement { tile_id: ROOT_TILE, transform: initial }]);
        if let Some(bounds) = bounds {
            self.expand_bound(&input, levels, bounds, output, Some(DEFAULT_POLYGON_LIMIT))
        } else {
            self.expand_levels(&input, levels, output, Some(DEFAULT_POLYGON_LIMIT))
        }
    }
}

/// A generation gets to no more parents than there are.
pub proof fn lemma_reached_bounded(
    rules: Seq<RuleModel>,
    parents: Seq<TilePlacement>,
    bounds: Option<Rect>,
    max_tiles: Option<usize>,
)
    ensures
        reached(rules, parents, bounds, max_tiles) <= parents.len(),
    decreases parents.len(),
{
    if parents.len() > 0 {
        lemma_reached_bounded(rules, parents.drop_last(), bounds, max_tiles);
    }
}

/// Where a generation stops: it gets to the first `n` parents, where `n` is
/// the least number of parents whose offspring exceed the limit, or to all of
/// them where there is no such number.
pub proof fn lemma_reached_is_first_excess(
    rules: Seq<RuleModel>,
    parents: Seq<TilePlacement>,
    bounds: Option<Rect>,
    max_tiles: Option<usize>,
)
    ensures
        reached(rules, parents, bounds, max_tiles) <= parents.len(),
        forall|j: int|
            0 <= j < reached(rules, parents, bounds, max_tiles) ==> !over_limit(
                offspring(rules, #[trigger] parents.take(j), bounds).len(),
                max_tiles,
            ),
        reached(rules, parents, bounds, max_tiles) < parents.len() ==> over_limit(
            offspring(
                rules,
                parents.take(reached(rules, parents, bounds, max_tiles) as int),
                bounds,
            ).len(),
            max_tiles,
        ),
    decreases parents.len(),
{
    if parents.len() > 0 {
        let before = parents.drop_last();
        let r = reached(rules, before, bounds, max_tiles);
        lemma_reached_is_first_excess(rules, before, bounds, max_tiles);
        assert(before.take(before.len() as int) == before);
        assert(parents.take(before.len() as int) == before);
        assert forall|j: int| 0 <= j < reached(rules, parents, bounds, max_tiles) implies !over_limit(
            offspring(rules, #[trigger] parents.take(j), bounds).len(),
            max_tiles,
        ) by {
            if j < before.len() {
                assert(parents.take(j) == before.take(j));
            }
        }
        if r < before.len() {
            assert(parents.take(r as int) == before.take(r as int));
        }
    }
}

/// The number of placements that the rules list for `parents`, all told.
pub open spec fn fan_out(rules: Seq<RuleModel>, parents: Seq<TilePlacement>) -> nat
    decreases parents.len(),
{
    if parents.len() == 0 {
        0
    } else {
        fan_out(rules, parents.drop_last()) + rules[parents.last().tile_id as int].result.len()
    }
}

/// `base` to the power of `exponent`.
pub open spec fn power(base: nat, exponent: nat) -> nat
    decreases exponent,
{
    if exponent == 0 {
        1
    } else {
        base * power(base, (exponent - 1) as nat)
    }
}

/// Whether each rule lists `count` placements.
pub open spec fn uniform_fan_out(rules: Seq<RuleModel>, count: nat) -> bool {
    forall|r: int| 0 <= r < rules.len() ==> (#[trigger] rules[r]).result.len() == count
}

/// Whether `p` is one of `placements`.
pub open spec fn holds(placements: Seq<TilePlacement>, p: TilePlacement) -> bool {
    exists|i: int| 0 <= i < placements.len() && #[trigger] placements[i] == p
}

/// Without a limit a generation gets to all its parents.
pub proof fn lemma_unlimited_reaches_all(
    rules: Seq<RuleModel>,
    parents: Seq<TilePlacement>,
    bounds: Option<Rect>,
)
    ensures
        reached(rules, parents, bounds, None) == parents.len(),
        generation(rules, parents, bounds, None) == offspring(rules, parents, bounds),
    decreases parents.len(),
{
    if parents.len() > 0 {
        lemma_unlimited_reaches_all(rules, parents.drop_last(), bounds);
    }
    assert(parents.take(parents.len() as int) == parents);
}

/// Without bound and limit, what replaces some placements is as many as
/// their rules list.
pub proof fn lemma_offspring_count(rules: Seq<RuleModel>, parents: Seq<TilePlacement>)
    ensures
        offspring(rules, parents, None).len() == fan_out(rules, parents),
    decreases parents.len(),
{
    if parents.len() > 0 {
        lemma_offspring_count(rules, parents.drop_last());
    }
}

/// Without bound and limit, each generation is as large as the rules of the
/// generation before it list placements.
pub proof fn lemma_generation_count(rules: Seq<RuleModel>, input: Seq<TilePlacement>, levels: nat)
    ensures
        generations(rules, input, levels + 1, None, None).len() == fan_out(
            rules,
            generations(rules, input, levels, None, None),
        ),
{
    let before = generations(rules, input, levels, None, None);
    assert(generations(rules, input, levels + 1, None, None) == generation(rules, before, None, None));
    lemma_unlimited_reaches_all(rules, before, None);
    lemma_offspring_count(rules, before);
}

/// Where each rule lists `count` placements, valid parents are replaced by
/// `count` times as many.
pub proof fn lemma_uniform_fan_out(rules: Seq<RuleModel>, parents: Seq<TilePlacement>, count: nat)
    requires
        placements_valid(rules, parents),
        uniform_fan_out(rules, count),
    ensures
        fan_out(rules, parents) == parents.len() * count,
    decreases parents.len(),
{
    if parents.len() > 0 {
        let before = parents.drop_last();
        assert forall|i: int| 0 <= i < before.len() implies (#[trigger] before[i]).tile_id < rules.len() by {
            assert(before[i] == parents[i]);
        }
        lemma_uniform_fan_out(rules, before, count);
        assert(parents[parents.len() - 1].tile_id < rules.len());
        assert(rules[parents.last().tile_id as int].result.len() == count);
        assert((before.len() + 1) * count == before.len() * count + count) by (nonlinear_arith);
    }
}

/// The generations of valid placements under a closed rule set are valid.
pub proof fn lemma_generations_valid(
    rules: Seq<RuleModel>,
    input: Seq<TilePlacement>,
    levels: nat,
    bounds: Option<Rect>,
    max_tiles: Option<usize>,
)
    requires
        rules_closed(rules),
        placements_valid(rules, input),
    ensures
        placements_valid(rules, generations(rules, input, levels, bounds, max_tiles)),
    decreases levels,
{
    if levels > 0 {
        let before = generations(rules, input, (levels - 1) as nat, bounds, max_tiles);
        lemma_generations_valid(rules, input, (levels - 1) as nat, bounds, max_tiles);
        let n = reached(rules, before, bounds, max_tiles) as int;
        lemma_reached_bounded(rules, before, bounds, max_tiles);
        assert forall|j: int| 0 <= j < before.take(n).len() implies (#[trigger] before.take(n)[j]).tile_id
            < rules.len() by {
            assert(before.take(n)[j] == before[j]);
        }
        lemma_offspring_valid(rules, before.take(n), bounds);
    }
}

/// Where each rule lists `count` placements, expanding `levels` generations
/// without bound and limit yields `count` to the power of `levels` placements
/// for each placement of the input.
pub proof fn lemma_uniform_count(
    rules: Seq<RuleModel>,
    input: Seq<TilePlacement>,
    levels: nat,
    count: nat,
)
    requires
        rules_closed(rules),
        placements_valid(rules, input),
        uniform_fan_out(rules, count),
    ensures
        generations(rules, input, levels, None, None).len() == input.len() * power(count, levels),
    decreases levels,
{
    if levels == 0 {
        assert(input.len() * 1 == input.len());
    } else {
        let before = generations(rules, input, (levels - 1) as nat, None, None);
        lemma_uniform_count(rules, input, (levels - 1) as nat, count);
        lemma_generations_valid(rules, input, (levels - 1) as nat, None, None);
        lemma_generation_count(rules, input, (levels - 1) as nat);
        lemma_uniform_fan_out(rules, before, count);
        let p = power(count, (levels - 1) as nat);
        assert((input.len() * p) * count == input.len() * (count * p)) by (nonlinear_arith);
    }
}

/// Where the children of one parent stand among the offspring: behind the
/// offspring of the parents before it, in the order of its rule.
pub proof fn lemma_offspring_index(
    rules: Seq<RuleModel>,
    parents: Seq<TilePlacement>,
    bounds: Option<Rect>,
    i: int,
    k: int,
)
    requires
        0 <= i < parents.len(),
        kept(rules, parents[i], bounds),
        0 <= k < children(rules, parents[i]).len(),
    ensures
        offspring(rules, parents.take(i), bounds).len() + k < offspring(rules, parents, bounds).len(),
        offspring(rules, parents, bounds)[offspring(rules, parents.take(i), bounds).len() + k] == children(
            rules,
            parents[i],
        )[k],
    decreases parents.len(),
{
    let before = parents.drop_last();
    if i == parents.len() - 1 {
        assert(parents.take(i) == before);
    } else {
        assert(before.take(i) == parents.take(i));
        lemma_offspring_index(rules, before, bounds, i, k);
    }
}

/// The order of composition over two generations: the grandchild that the
/// rule of `root` lists at `c` and the rule of that child lists at `g` has
/// the transform of `root`, times that of the child, times its own, so that
/// its own is applied first and that of `root` last.
pub proof fn lemma_grandchild_transform(rules: Seq<RuleModel>, root: TilePlacement, c: int, g: int)
    requires
        root.tile_id < rules.len(),
        0 <= c < rules[root.tile_id as int].result.len(),
        rules[root.tile_id as int].result[c].tile_id < rules.len(),
        0 <= g < rules[rules[root.tile_id as int].result[c].tile_id as int].result.len(),
    ensures
        ({
            let relative = rules[root.tile_id as int].result[c];
            let second = rules[relative.tile_id as int].result[g];
            let at = offspring(rules, children(rules, root).take(c), None).len() + g;
            let all = generations(rules, seq![root], 2, None, None);
            &&& at < all.len()
            &&& all[at].tile_id == second.tile_id
            &&& all[at].transform == transform_product(
                transform_product(root.transform, relative.transform),
                second.transform,
            )
        }),
{
    let first = generations(rules, seq![root], 1, None, None);
    assert(generations(rules, seq![root], 0, None, None) == seq![root]);
    lemma_unlimited_reaches_all(rules, seq![root], None);
    assert(seq![root].drop_last() == Seq::<TilePlacement>::empty());
    assert(first == children(rules, root)) by {
        assert(offspring(rules, seq![root], None) == Seq::<TilePlacement>::empty() + children(rules, root));
    }
    assert(generations(rules, seq![root], 2, None, None) == generation(rules, first, None, None));
    lemma_unlimited_reaches_all(rules, first, None);
    lemma_offspring_index(rules, first, None, c, g);
}

/// What is among the offspring is a child of a parent that was kept.
pub proof fn lemma_offspring_holds(
    rules: Seq<RuleModel>,
    parents: Seq<TilePlacement>,
    bounds: Option<Rect>,
    p: TilePlacement,
)
    ensures
        holds(offspring(rules, parents, bounds), p) <==> exists|i: int|
            0 <= i < parents.len() && kept(rules, #[trigger] parents[i], bounds) && holds(
                children(rules, parents[i]),
                p,
            ),
    decreases parents.len(),
{
    let all = offspring(rules, parents, bounds);
    if parents.len() > 0 {
        let before = parents.drop_last();
        let rest = offspring(rules, before, bounds);
        let last = parents.last();
        lemma_offspring_holds(rules, before, bounds, p);
        if holds(all, p) {
            let n = choose|n: int| 0 <= n < all.len() && all[n] == p;
            if n < rest.len() {
                assert(rest[n] == p);
                let i = choose|i: int|
                    0 <= i < before.len() && kept(rules, #[trigger] before[i], bounds) && holds(
                        children(rules, before[i]),
                        p,
                    );
                assert(parents[i] == before[i]);
            } else {
                assert(kept(rules, last, bounds));
                assert(children(rules, last)[n - rest.len()] == p);
                assert(parents[parents.len() - 1] == last);
            }
        }
        if exists|i: int|
            0 <= i < parents.len() && kept(rules, #[trigger] parents[i], bounds) && holds(
                children(rules, parents[i]),
                p,
            ) {
            let i = choose|i: int|
                0 <= i < parents.len() && kept(rules, #[trigger] parents[i], bounds) && holds(
                    children(rules, parents[i]),
                    p,
                );
            if i < before.len() {
                assert(before[i] == parents[i]);
                assert(holds(rest, p));
                let n = choose|n: int| 0 <= n < rest.len() && rest[n] == p;
                assert(all[n] == p);
            } else {
                let k = choose|k: int|
                    0 <= k < children(rules, last).len() && children(rules, last)[k] == p;
                assert(all[rest.len() + k] == p);
            }
        }
    }
}

/// With a bound, with a limit or with both, a generation holds nothing that
/// it would not hold without them, provided that the same goes for the
/// generation before it.
pub proof fn lemma_generation_within(
    rules: Seq<RuleModel>,
    pruned: Seq<TilePlacement>,
    full: Seq<TilePlacement>,
    bounds: Option<Rect>,
    max_tiles: Option<usize>,
    p: TilePlacement,
)
    requires
        forall|q: TilePlacement| holds(pruned, q) ==> holds(full, q),
        holds(generation(rules, pruned, bounds, max_tiles), p),
    ensures
        holds(generation(rules, full, None, None), p),
{
    let n = reached(rules, pruned, bounds, max_tiles) as int;
    lemma_reached_bounded(rules, pruned, bounds, max_tiles);
    let part = pruned.take(n);
    lemma_offspring_holds(rules, part, bounds, p);
    let i = choose|i: int|
        0 <= i < part.len() && kept(rules, #[trigger] part[i], bounds) && holds(
            children(rules, part[i]),
            p,
        );
    assert(pruned[i] == part[i]);
    assert(holds(pruned, part[i]));
    let j = choose|j: int| 0 <= j < full.len() && full[j] == part[i];
    lemma_unlimited_reaches_all(rules, full, None);
    lemma_offspring_holds(rules, full, None, p);
    assert(kept(rules, full[j], None));
}

/// Expanding with a bound, with a limit or with both yields nothing that
/// expanding as many levels without them does not yield: what is there has
/// come down through placements that were kept at every level.
pub proof fn lemma_bounded_within_unbounded(
    rules: Seq<RuleModel>,
    input: Seq<TilePlacement>,
    levels: nat,
    bounds: Option<Rect>,
    max_tiles: Option<usize>,
    p: TilePlacement,
)
    requires
        holds(generations(rules, input, levels, bounds, max_tiles), p),
    ensures
        holds(generations(rules, input, levels, None, None), p),
    decreases levels,
{
    if levels > 0 {
        let pruned = generations(rules, input, (levels - 1) as nat, bounds, max_tiles);
        let full = generations(rules, input, (levels - 1) as nat, None, None);
        assert forall|q: TilePlacement| holds(pruned, q) implies holds(full, q) by {
            lemma_bounded_within_unbounded(rules, input, (levels - 1) as nat, bounds, max_tiles, q);
        }
        lemma_generation_within(rules, pruned, full, bounds, max_tiles, p);
    }
}

/// With a bound and without a limit, a placement is in a generation exactly
/// if it is a child of a placement of the generation before whose estimated
/// region overlaps the bound.
pub proof fn lemma_bounded_generation_holds(
    rules: Seq<RuleModel>,
    parents: Seq<TilePlacement>,
    region: Rect,
    p: TilePlacement,
)
    ensures
        holds(generation(rules, parents, Some(region), None), p) <==> exists|i: int|
            0 <= i < parents.len() && kept(rules, #[trigger] parents[i], Some(region)) && holds(
                children(rules, parents[i]),
                p,
            ),
{
    lemma_unlimited_reaches_all(rules, parents, Some(region));
    lemma_offspring_holds(rules, parents, Some(region), p);
}

} // verus!
