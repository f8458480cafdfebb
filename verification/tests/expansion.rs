use kurbo::{Affine, Point, Rect, Vec2};
use tiling::expansion::{DEFAULT_POLYGON_LIMIT, ROOT_TILE};
use tiling::tiling::UNIT_FACTOR;
use tiling::{Tile, TilePlacement, TilingRule, TilingStep};

fn unit_square() -> Tile {
    Tile {
        corners: vec![
            Point::new(0.0, 0.0),
            Point::new(0.0, 1.0),
            Point::new(1.0, 1.0),
            Point::new(1.0, 0.0),
        ],
    }
}

fn quarters() -> Vec<TilePlacement> {
    let half = Affine::scale(0.5);
    vec![
        TilePlacement { tile_id: 0, transform: half.pre_translate(Vec2::new(0.0, 0.0)) },
        TilePlacement { tile_id: 0, transform: half.then_translate(Vec2::new(0.5, 0.0)) },
        TilePlacement { tile_id: 0, transform: half.then_translate(Vec2::new(0.0, 0.5)) },
        TilePlacement { tile_id: 0, transform: half.then_translate(Vec2::new(0.5, 0.5)) },
    ]
}

fn square_grid() -> TilingStep {
    TilingStep {
        rules: vec![TilingRule { tile: unit_square(), result: quarters() }],
        expansion_factor: 2.0f64.to_bits(),
    }
}

/// Two tiles: the first is replaced by one of each, the second by two of the
/// first and one of itself.
fn two_tiles() -> TilingStep {
    TilingStep {
        rules: vec![
            TilingRule {
                tile: unit_square(),
                result: vec![
                    TilePlacement { tile_id: 0, transform: Affine::scale(0.5) },
                    TilePlacement { tile_id: 1, transform: Affine::translate((3.0, 0.0)) },
                ],
            },
            TilingRule {
                tile: Tile { corners: Vec::new() },
                result: vec![
                    TilePlacement { tile_id: 0, transform: Affine::translate((0.0, 1.0)) },
                    TilePlacement { tile_id: 0, transform: Affine::translate((0.0, 2.0)) },
                    TilePlacement { tile_id: 1, transform: Affine::scale(2.0) },
                ],
            },
        ],
        expansion_factor: UNIT_FACTOR,
    }
}

fn root(tile_id: usize) -> Vec<TilePlacement> {
    vec![TilePlacement { tile_id, transform: Affine::IDENTITY }]
}

fn same(a: &[TilePlacement], b: &[TilePlacement]) -> bool {
    a.len() == b.len()
        && a.iter().zip(b.iter()).all(|(p, q)| p.tile_id == q.tile_id && p.transform == q.transform)
}

#[test]
fn new_step_is_empty_with_unit_factor() {
    let step = TilingStep::new();
    assert!(step.rules.is_empty());
    assert_eq!(step.expansion_factor, 1.0f64.to_bits());
    assert_eq!(UNIT_FACTOR, 1.0f64.to_bits());
    assert!(step.is_well_formed());
}

#[test]
fn well_formed_tells_a_dangling_tile_id() {
    assert!(square_grid().is_well_formed());
    assert!(two_tiles().is_well_formed());
    let mut broken = two_tiles();
    broken.rules[1].result[2].tile_id = 2;
    assert!(!broken.is_well_formed());
}

#[test]
fn accepts_tells_an_unknown_tile() {
    let step = two_tiles();
    assert!(step.accepts(&root(0)));
    assert!(step.accepts(&root(1)));
    assert!(!step.accepts(&root(2)));
    assert!(step.accepts(&Vec::new()));
}

#[test]
fn expand_tile_composes_parent_then_child() {
    let step = two_tiles();
    let parent = TilePlacement { tile_id: 1, transform: Affine::scale(3.0) };
    let mut out = vec![TilePlacement { tile_id: 7, transform: Affine::IDENTITY }];
    step.expand_tile(&parent, &mut out);
    assert_eq!(out.len(), 4);
    assert_eq!(out[0].tile_id, 7);
    assert_eq!(out[1].tile_id, 0);
    assert_eq!(out[1].transform, Affine::new([3.0, 0.0, 0.0, 3.0, 0.0, 3.0]));
    assert_eq!(out[2].tile_id, 0);
    assert_eq!(out[2].transform, Affine::new([3.0, 0.0, 0.0, 3.0, 0.0, 6.0]));
    assert_eq!(out[3].tile_id, 1);
    assert_eq!(out[3].transform, Affine::scale(6.0));
}

#[test]
fn zero_levels_hand_the_input_on() {
    let step = square_grid();
    let input = quarters();
    let mut out = Vec::new();
    let truncated = step.expand_levels(&input, 0, &mut out, Some(1));
    assert!(!truncated);
    assert!(same(&out, &input));
}

#[test]
fn output_is_appended_to() {
    let step = square_grid();
    let mut out = root(0);
    step.expand_levels(&root(0), 1, &mut out, None);
    assert_eq!(out.len(), 5);
    assert_eq!(out[0].transform, Affine::IDENTITY);
    assert!(same(&out[1..], &quarters()));
}

#[test]
fn square_grid_two_levels_gives_sixteen_quarter_tiles() {
    let step = square_grid();
    let mut out = Vec::new();
    let truncated = step.expand_levels(&root(0), 2, &mut out, None);
    assert!(!truncated);
    assert_eq!(out.len(), 16);
    let mut offsets: Vec<(i64, i64)> = Vec::new();
    for p in &out {
        assert_eq!(p.tile_id, 0);
        let c = p.transform.as_coeffs();
        assert_eq!([c[0], c[1], c[2], c[3]], [0.25, 0.0, 0.0, 0.25]);
        assert_eq!((c[4] * 4.0).fract(), 0.0);
        assert_eq!((c[5] * 4.0).fract(), 0.0);
        offsets.push(((c[4] * 4.0) as i64, (c[5] * 4.0) as i64));
    }
    offsets.sort();
    let mut expected = Vec::new();
    for x in 0..4 {
        for y in 0..4 {
            expected.push((x as i64, y as i64));
        }
    }
    assert_eq!(offsets, expected);
}

#[test]
fn count_is_the_product_of_the_fan_outs() {
    let step = square_grid();
    for levels in 0..5 {
        let mut out = Vec::new();
        step.expand_levels(&quarters(), levels, &mut out, None);
        assert_eq!(out.len(), 4 * 4usize.pow(levels as u32));
    }
    // One of tile 0 gives 2, of which tile 0 gives 2 again and tile 1 gives 3.
    let mixed = two_tiles();
    let mut out = Vec::new();
    mixed.expand_levels(&root(0), 2, &mut out, None);
    assert_eq!(out.len(), 2 + 3);
    let mut out = Vec::new();
    mixed.expand_levels(&root(0), 3, &mut out, None);
    assert_eq!(out.len(), (2 + 3) + (2 + 2 + 3));
}

#[test]
fn expansion_is_reproducible() {
    let step = two_tiles();
    let mut first = Vec::new();
    let mut second = Vec::new();
    step.expand_levels(&root(1), 4, &mut first, None);
    step.expand_levels(&root(1), 4, &mut second, None);
    assert!(same(&first, &second));
}

#[test]
fn grandchild_is_parent_times_child_times_grandchild() {
    let step = two_tiles();
    let start = TilePlacement { tile_id: 0, transform: Affine::rotate(0.5) };
    let mut out = Vec::new();
    step.expand_levels(&vec![start], 2, &mut out, None);
    // Children of tile 0: tile 0 (2 grandchildren), then tile 1 (3 grandchildren).
    let child = step.rules[0].result[1];
    let grandchild = step.rules[1].result[2];
    let found = out[2 + 2];
    assert_eq!(found.tile_id, grandchild.tile_id);
    assert_eq!(found.transform, (start.transform * child.transform) * grandchild.transform);
    let local = Point::new(0.25, 0.75);
    let direct = start.transform * (child.transform * (grandchild.transform * local));
    assert!((found.transform * local - direct).hypot() < 1e-12);
}

#[test]
fn limit_cuts_a_generation_once_it_is_exceeded() {
    let step = square_grid();
    let mut out = Vec::new();
    let truncated = step.expand_levels(&root(0), 1, &mut out, Some(5));
    assert!(!truncated);
    assert_eq!(out.len(), 4);
    let mut out = Vec::new();
    let truncated = step.expand_levels(&root(0), 2, &mut out, Some(5));
    assert!(truncated);
    assert_eq!(out.len(), 8);
    let mut full = Vec::new();
    step.expand_levels(&root(0), 2, &mut full, None);
    assert!(same(&out, &full[..8]));
    let mut out = Vec::new();
    let truncated = step.expand_levels(&root(0), 4, &mut out, Some(5));
    assert!(truncated);
    assert_eq!(out.len(), 8);
}

#[test]
fn limit_that_is_met_exactly_cuts_nothing() {
    let step = square_grid();
    let mut out = Vec::new();
    let truncated = step.expand_levels(&root(0), 2, &mut out, Some(16));
    assert!(!truncated);
    assert_eq!(out.len(), 16);
    let mut out = Vec::new();
    let truncated = step.expand_levels(&root(0), 2, &mut out, Some(15));
    assert!(truncated);
    assert_eq!(out.len(), 16);
}

#[test]
fn limit_zero_stops_after_the_first_parent_with_children() {
    let step = square_grid();
    let mut out = Vec::new();
    let truncated = step.expand_levels(&quarters(), 1, &mut out, Some(0));
    assert!(truncated);
    assert_eq!(out.len(), 4);
}

#[test]
fn estimate_pads_the_corner_box_by_its_larger_side() {
    let step = square_grid();
    let placed = TilePlacement {
        tile_id: 0,
        transform: Affine::scale_non_uniform(2.0, 1.0).then_translate(Vec2::new(10.0, 20.0)),
    };
    assert_eq!(step.estimate_bounds(&placed), Rect::new(8.0, 18.0, 14.0, 23.0));
}

#[test]
fn estimate_of_a_tile_without_corners_is_its_origin() {
    let step = two_tiles();
    let placed = TilePlacement { tile_id: 1, transform: Affine::translate((3.0, -4.0)) };
    assert_eq!(step.estimate_bounds(&placed), Rect::new(3.0, -4.0, 3.0, -4.0));
}

#[test]
fn estimate_is_the_tight_box_of_the_corners_padded() {
    let step = TilingStep {
        rules: vec![
            TilingRule {
                tile: Tile { corners: vec![Point::new(2.0, 2.0), Point::new(3.0, 2.0), Point::new(3.0, 4.0)] },
                result: Vec::new(),
            },
            TilingRule {
                tile: Tile {
                    corners: vec![
                        Point::new(1.0, 1.0),
                        Point::new(1.0, 2.0),
                        Point::new(2.0, 2.0),
                        Point::new(2.0, 1.0),
                    ],
                },
                result: Vec::new(),
            },
            TilingRule { tile: Tile { corners: vec![Point::new(5.0, 7.0)] }, result: Vec::new() },
        ],
        expansion_factor: UNIT_FACTOR,
    };
    // Box from (2, 2) to (3, 4), padded by 2: the origin of the placement is
    // no part of the box.
    let placed = TilePlacement { tile_id: 0, transform: Affine::IDENTITY };
    assert_eq!(step.estimate_bounds(&placed), Rect::new(0.0, 0.0, 5.0, 6.0));
    // Box from (1, 1) to (2, 2), padded by 1.
    let placed = TilePlacement { tile_id: 1, transform: Affine::IDENTITY };
    assert_eq!(step.estimate_bounds(&placed), Rect::new(0.0, 0.0, 3.0, 3.0));
    // Box from (11, 1) to (12, 2) under a translation, padded by 1.
    let placed = TilePlacement { tile_id: 1, transform: Affine::translate((10.0, 0.0)) };
    assert_eq!(step.estimate_bounds(&placed), Rect::new(10.0, 0.0, 13.0, 3.0));
    // A single corner has a box without extent.
    let placed = TilePlacement { tile_id: 2, transform: Affine::scale(2.0) };
    assert_eq!(step.estimate_bounds(&placed), Rect::new(10.0, 14.0, 10.0, 14.0));
}

#[test]
fn estimate_holds_every_placed_corner() {
    let step = square_grid();
    let placed = TilePlacement { tile_id: 0, transform: Affine::rotate(0.7).then_translate(Vec2::new(-3.0, 9.0)) };
    let region = step.estimate_bounds(&placed);
    for corner in &step.rules[0].tile.corners {
        let image = placed.transform * *corner;
        assert!(region.x0 <= image.x && image.x <= region.x1);
        assert!(region.y0 <= image.y && image.y <= region.y1);
    }
}

#[test]
fn bound_that_holds_everything_prunes_nothing() {
    let step = square_grid();
    let mut bounded = Vec::new();
    let mut full = Vec::new();
    let truncated = step.expand_bound(&root(0), 3, Rect::new(-10.0, -10.0, 10.0, 10.0), &mut bounded, None);
    step.expand_levels(&root(0), 3, &mut full, None);
    assert!(!truncated);
    assert!(same(&bounded, &full));
}

#[test]
fn bound_far_away_prunes_everything() {
    let step = square_grid();
    let mut out = Vec::new();
    step.expand_bound(&root(0), 1, Rect::new(-5.0, -5.0, -1.2, -1.2), &mut out, None);
    assert!(out.is_empty());
}

#[test]
fn bound_keeps_what_its_ancestors_brought_near() {
    let step = square_grid();
    let bounds = Rect::new(-0.2, -0.2, -0.1, -0.1);
    let mut out = Vec::new();
    step.expand_bound(&root(0), 3, bounds, &mut out, None);
    assert_eq!(out.len(), 4);
    let mut offsets: Vec<(i64, i64)> = Vec::new();
    for p in &out {
        let c = p.transform.as_coeffs();
        assert_eq!([c[0], c[1], c[2], c[3]], [0.125, 0.0, 0.0, 0.125]);
        offsets.push(((c[4] * 8.0) as i64, (c[5] * 8.0) as i64));
    }
    offsets.sort();
    assert_eq!(offsets, vec![(0, 0), (0, 1), (1, 0), (1, 1)]);
}

#[test]
fn bounded_expansion_is_within_the_unbounded_one() {
    let step = square_grid();
    let mut full = Vec::new();
    step.expand_levels(&root(0), 4, &mut full, None);
    for bounds in [
        Rect::new(-0.2, -0.2, -0.1, -0.1),
        Rect::new(0.4, 0.4, 0.6, 0.6),
        Rect::new(0.9, 0.0, 3.0, 0.05),
    ] {
        let mut bounded = Vec::new();
        step.expand_bound(&root(0), 4, bounds, &mut bounded, Some(100));
        assert!(!bounded.is_empty());
        assert!(bounded.len() < full.len());
        for p in &bounded {
            assert!(full.iter().any(|q| q.tile_id == p.tile_id && q.transform == p.transform));
        }
    }
}

#[test]
fn bound_drops_a_placement_whose_region_only_touches_it() {
    let step = square_grid();
    // The root's region reaches from -1 to 2; the bound begins where it ends.
    let mut out = Vec::new();
    step.expand_bound(&root(0), 1, Rect::new(2.0, 0.0, 3.0, 1.0), &mut out, None);
    assert!(out.is_empty());
    let mut out = Vec::new();
    step.expand_bound(&root(0), 1, Rect::new(1.5, 0.0, 3.0, 1.0), &mut out, None);
    assert_eq!(out.len(), 4);
}

#[test]
fn bound_drops_a_tile_without_corners() {
    let step = two_tiles();
    let mut out = Vec::new();
    step.expand_bound(&root(1), 1, Rect::new(-10.0, -10.0, 10.0, 10.0), &mut out, None);
    assert!(out.is_empty());
    let mut out = Vec::new();
    step.expand_levels(&root(1), 1, &mut out, None);
    assert_eq!(out.len(), 3);
}

#[test]
fn root_expansion_starts_from_the_root_tile() {
    assert_eq!(ROOT_TILE, 1);
    assert_eq!(DEFAULT_POLYGON_LIMIT, 1_000_000);
    let step = two_tiles();
    let mut out = Vec::new();
    let truncated = step.expand_0_levels(0, Affine::scale(3.0), None, &mut out);
    assert!(!truncated);
    assert_eq!(out.len(), 1);
    assert_eq!(out[0].tile_id, 1);
    assert_eq!(out[0].transform, Affine::scale(3.0));
    let mut out = Vec::new();
    step.expand_0_levels(1, Affine::scale(3.0), None, &mut out);
    let mut expected = Vec::new();
    step.expand_levels(
        &vec![TilePlacement { tile_id: 1, transform: Affine::scale(3.0) }],
        1,
        &mut expected,
        Some(DEFAULT_POLYGON_LIMIT),
    );
    assert_eq!(out.len(), 3);
    assert!(same(&out, &expected));
}

#[test]
fn root_expansion_with_a_bound_prunes() {
    let step = two_tiles();
    let mut out = Vec::new();
    step.expand_0_levels(1, Affine::scale(3.0), Some(Rect::new(-10.0, -10.0, 10.0, 10.0)), &mut out);
    assert!(out.is_empty());
}
