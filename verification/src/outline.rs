//! The outlines of placed tiles as one path: a closed loop for each
//! placement whose tile has corners, in the order of the placements.

use crate::geometry::{
    apply, close_path, line_to, move_to, new_path, path_elements, path_starts_well, transform_point, PathElement,
};
use crate::tiling::{placements_valid, RuleModel, Tile, TilePlacement, TilingStep};
use kurbo::{Affine, BezPath, Point};
use vstd::prelude::*;

verus! {

/// The images of `corners` under `t`, in their order.
pub open spec fn images(t: Affine, corners: Seq<Point>) -> Seq<Point> {
    Seq::new(corners.len(), |c: int| transform_point(t, corners[c]))
}

/// The closed loop through `points`: a move to the first, a line to each of
/// the others in turn, and a closing. No points give no loop.
pub open spec fn outline(points: Seq<Point>) -> Seq<PathElement> {
    if points.len() == 0 {
        Seq::empty()
    } else {
        Seq::new(
            points.len() + 1,
            |k: int|
                if k == 0 {
                    PathElement::MoveTo(points[0])
                } else if k < points.len() {
                    PathElement::LineTo(points[k])
                } else {
                    PathElement::ClosePath
                },
        )
    }
}

/// The loop of one placement: the outline of its tile, carried along by its
/// transform.
pub open spec fn placed_outline(rules: Seq<RuleModel>, p: TilePlacement) -> Seq<PathElement> {
    outline(images(p.transform, rules[p.tile_id as int].corners))
}

/// The loops of `placements`, one after the other.
pub open spec fn outlines(rules: Seq<RuleModel>, placements: Seq<TilePlacement>) -> Seq<PathElement>
    decreases placements.len(),
{
    if placements.len() == 0 {
        Seq::empty()
    } else {
        outlines(rules, placements.drop_last()) + placed_outline(rules, placements.last())
    }
}

/// How many closings `elements` holds.
pub open spec fn closings(elements: Seq<PathElement>) -> nat
    decreases elements.len(),
{
    if elements.len() == 0 {
        0
    } else if elements.last() is ClosePath {
        closings(elements.drop_last()) + 1
    } else {
        closings(elements.drop_last())
    }
}

/// How many of `placements` have a tile with at least one corner.
pub open spec fn drawn(rules: Seq<RuleModel>, placements: Seq<TilePlacement>) -> nat
    decreases placements.len(),
{
    if placements.len() == 0 {
        0
    } else if rules[placements.last().tile_id as int].corners.len() > 0 {
        drawn(rules, placements.drop_last()) + 1
    } else {
        drawn(rules, placements.drop_last())
    }
}

/// The closings of two paths joined are those of the one and of the other.
pub proof fn lemma_closings_add(a: Seq<PathElement>, b: Seq<PathElement>)
    ensures
        closings(a + b) == closings(a) + closings(b),
    decreases b.len(),
{
    if b.len() == 0 {
        assert(a + b == a);
    } else {
        assert((a + b).drop_last() == a + b.drop_last());
        assert((a + b).last() == b.last());
        lemma_closings_add(a, b.drop_last());
    }
}

/// Up to its last line a loop holds no closing.
proof fn lemma_open_part(points: Seq<Point>, n: int)
    requires
        points.len() > 0,
        0 <= n <= points.len(),
    ensures
        closings(outline(points).take(n)) == 0,
    decreases n,
{
    if n > 0 {
        assert(outline(points).take(n).drop_last() == outline(points).take(n - 1));
        lemma_open_part(points, n - 1);
    }
}

/// The loop through at least one point has one element more than there are
/// points: it starts with a move, ends with its only closing, and has lines
/// in between.
pub proof fn lemma_outline_shape(points: Seq<Point>)
    requires
        points.len() > 0,
    ensures
        outline(points).len() == points.len() + 1,
        outline(points)[0] == PathElement::MoveTo(points[0]),
        forall|k: int| 0 < k < points.len() ==> outline(points)[k] == PathElement::LineTo(points[k]),
        outline(points).last() == PathElement::ClosePath,
        closings(outline(points)) == 1,
{
    lemma_open_part(points, points.len() as int);
    assert(outline(points).drop_last() == outline(points).take(points.len() as int));
}

/// The path of `placements` holds exactly one closed loop for each placement
/// whose tile has a corner, and nothing for the others.
pub proof fn lemma_one_loop_per_drawn_placement(rules: Seq<RuleModel>, placements: Seq<TilePlacement>)
    ensures
        closings(outlines(rules, placements)) == drawn(rules, placements),
    decreases placements.len(),
{
    if placements.len() > 0 {
        let last = placements.last();
        let corners = rules[last.tile_id as int].corners;
        lemma_one_loop_per_drawn_placement(rules, placements.drop_last());
        lemma_closings_add(outlines(rules, placements.drop_last()), placed_outline(rules, last));
        if corners.len() > 0 {
            lemma_outline_shape(images(last.transform, corners));
        }
    }
}

/// Adds the loop through `points` to `out`.
fn add_loop(points: &Vec<Point>, out: &mut BezPath)
    requires
        path_starts_well(path_elements(*old(out))),
    ensures
        path_elements(*final(out)) == path_elements(*old(out)) + outline(points@),
        path_starts_well(path_elements(*final(out))),
{
    if points.len() == 0 {
        assert(path_elements(*out) + outline(points@) == path_elements(*out));
        return ;
    }
    let ghost before = path_elements(*out);
    let ghost whole = outline(points@);
    move_to(out, &points[0]);
    assert(path_elements(*out) == before + whole.take(1));
    let mut k: usize = 1;
    while k < points.len()
        invariant
            1 <= k <= points.len(),
            whole == outline(points@),
            path_starts_well(before),
            path_elements(*out) == before + whole.take(k as int),
        decreases points.len() - k,
    {
        assert((before + whole.take(k as int)).last() == whole[k - 1]);
        assert((before + whole.take(k as int))[0] == if before.len() > 0 {
            before[0]
        } else {
            whole[0]
        });
        line_to(out, &points[k]);
        k += 1;
        assert(path_elements(*out) == before + whole.take(k as int));
    }
    assert((before + whole.take(k as int)).last() == whole[k - 1]);
    assert((before + whole.take(k as int))[0] == if before.len() > 0 {
        before[0]
    } else {
        whole[0]
    });
    close_path(out);
    assert(path_elements(*out) == before + whole);
    assert((before + whole)[0] == if before.len() > 0 {
        before[0]
    } else {
        whole[0]
    });
}

/// A path that holds nothing yet, for the outlines of tiles to be added to.
pub fn empty_path() -> (path: BezPath)
    ensures
        path_elements(path) == Seq::<PathElement>::empty(),
        path_starts_well(path_elements(path)),
{
    new_path()
}

impl Tile {
    /// The corners of the tile as `transform` places them.
    pub fn corners_under(&self, transform: &Affine) -> (placed: Vec<Point>)
        ensures
            placed@ == images(*transform, self@),
    {
        let mut placed: Vec<Point> = Vec::new();
        let mut c: usize = 0;
        while c < self.corners.len()
            invariant
                c <= self.corners.len(),
                placed@ == images(*transform, self@).take(c as int),
            decreases self.corners.len() - c,
        {
            placed.push(apply(transform, &self.corners[c]));
            c += 1;
            assert(placed@ == images(*transform, self@).take(c as int));
        }
        assert(images(*transform, self@).take(c as int) == images(*transform, self@));
        placed
    }

    /// Adds the outline of the tile to `out`, as one closed loop. A tile
    /// without corners adds nothing.
    pub fn add_to_path(&self, out: &mut BezPath)
        requires
            path_starts_well(path_elements(*old(out))),
        ensures
            path_elements(*final(out)) == path_elements(*old(out)) + outline(self@),
            path_starts_well(path_elements(*final(out))),
    {
        add_loop(&self.corners, out)
    }

    /// Adds the outline of the tile as `transform` places it to `out`, as one
    /// closed loop. A tile without corners adds nothing.
    pub fn add_to_path_t(&self, out: &mut BezPath, transform: &Affine)
        requires
            path_starts_well(path_elements(*old(out))),
        ensures
            path_elements(*final(out)) == path_elements(*old(out)) + outline(images(*transform, self@)),
            path_starts_well(path_elements(*final(out))),
    {
        let placed = self.corners_under(transform);
        add_loop(&placed, out)
    }

    /// The outline of the tile as a path of its own.
    pub fn to_path(&self) -> (path: BezPath)
        ensures
            path_elements(path) == outline(self@),
    {
        let mut result = new_path();
        self.add_to_path(&mut result);
        assert(Seq::<PathElement>::empty() + outline(self@) == outline(self@));
        result
    }
}

impl TilingStep {
    /// The outlines of `tiles` as one path, loop after loop in the order of
    /// `tiles`. Loops share nothing and may lie on top of each other.
    pub fn to_bez_path(&self, tiles: &Vec<TilePlacement>) -> (path: BezPath)
        requires
            placements_valid(self@.rules, tiles@),
        ensures
            path_elements(path) == outlines(self@.rules, tiles@),
    {
        let mut result = new_path();
        let mut i: usize = 0;
        assert(tiles@.take(0) == Seq::<TilePlacement>::empty());
        while i < tiles.len()
            invariant
                i <= tiles.len(),
                placements_valid(self@.rules, tiles@),
                path_starts_well(path_elements(result)),
                path_elements(result) == outlines(self@.rules, tiles@.take(i as int)),
            decreases tiles.len() - i,
        {
            let tile = &tiles[i];
            let info = &self.rules[tile.tile_id];
            assert(self@.rules[tile.tile_id as int].corners == info.tile@);
            info.tile.add_to_path_t(&mut result, &tile.transform);
            assert(tiles@.take(i + 1).drop_last() == tiles@.take(i as int));
            i += 1;
        }
        assert(tiles@.take(i as int) == tiles@);
        result
    }
}

} // verus!
