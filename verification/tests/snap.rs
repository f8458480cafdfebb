use kurbo::{Affine, Point, Vec2};
use tiling::snap::{closest_snap_pair, SNAP_DISTANCE_SQUARED};
use tiling::tiling::UNIT_FACTOR;
use tiling::{Tile, TilePlacement, TilingRule, TilingStep};

fn p(x: f64, y: f64) -> Point {
    Point::new(x, y)
}

fn unit_square() -> Tile {
    Tile { corners: vec![p(0.0, 0.0), p(0.0, 1.0), p(1.0, 1.0), p(1.0, 0.0)] }
}

/// A square that is replaced by two half squares and a point.
fn step() -> TilingStep {
    let half = Affine::scale(0.5);
    TilingStep {
        rules: vec![
            TilingRule {
                tile: unit_square(),
                result: vec![
                    TilePlacement { tile_id: 0, transform: half },
                    TilePlacement {
                        tile_id: 0,
                        transform: half.then_translate(Vec2::new(0.515625, 0.0078125)),
                    },
                    TilePlacement { tile_id: 1, transform: Affine::translate((3.0, 3.0)) },
                ],
            },
            TilingRule { tile: Tile { corners: vec![p(0.0, 0.0)] }, result: Vec::new() },
        ],
        expansion_factor: UNIT_FACTOR,
    }
}

#[test]
fn snap_distance_is_four_hundredths() {
    assert_eq!(SNAP_DISTANCE_SQUARED, (0.04f64 * 0.04f64).to_bits());
    assert_eq!(tiling::geometry::INFINITE, f64::INFINITY.to_bits());
    assert_eq!(tiling::geometry::rank_of(0.25f64.to_bits()), 0.25f64.to_bits());
    assert_eq!(tiling::geometry::rank_of(0), 0);
    assert_eq!(tiling::geometry::rank_of(f64::INFINITY.to_bits()), f64::INFINITY.to_bits());
    assert_eq!(tiling::geometry::rank_of(f64::NAN.to_bits()), u64::MAX);
    assert_eq!(tiling::geometry::rank_of((-f64::NAN).to_bits()), u64::MAX);
}

#[test]
fn pair_within_the_distance_snaps() {
    let best = closest_snap_pair(&vec![p(0.0, 0.0)], &vec![p(0.03, 0.0)]);
    assert_eq!(best, Some((p(0.0, 0.0), p(0.03, 0.0))));
}

#[test]
fn pair_beyond_the_distance_does_not_snap() {
    assert_eq!(closest_snap_pair(&vec![p(0.0, 0.0)], &vec![p(0.05, 0.0)]), None);
    assert_eq!(closest_snap_pair(&vec![p(0.0, 0.0)], &vec![p(0.03, 0.03)]), None);
}

#[test]
fn pair_at_the_distance_does_not_snap() {
    assert_eq!(closest_snap_pair(&vec![p(0.0, 0.0)], &vec![p(0.04, 0.0)]), None);
    assert_eq!(closest_snap_pair(&vec![p(0.0, 0.0)], &vec![p(0.0, -0.04)]), None);
    let just_inside = f64::from_bits(0.04f64.to_bits() - 1);
    assert_eq!(
        closest_snap_pair(&vec![p(0.0, 0.0)], &vec![p(just_inside, 0.0)]),
        Some((p(0.0, 0.0), p(just_inside, 0.0)))
    );
}

#[test]
fn points_that_coincide_snap() {
    let best = closest_snap_pair(&vec![p(1.0, 2.0)], &vec![p(1.0, 2.0)]);
    assert_eq!(best, Some((p(1.0, 2.0), p(1.0, 2.0))));
}

#[test]
fn closest_pair_wins() {
    let targets = vec![p(0.0, 0.0), p(1.0, 0.0), p(2.0, 0.0)];
    let movables = vec![p(0.03, 0.0), p(1.0, 0.01), p(2.02, 0.0), p(7.0, 7.0)];
    assert_eq!(closest_snap_pair(&targets, &movables), Some((p(1.0, 0.0), p(1.0, 0.01))));
}

#[test]
fn first_of_equally_close_pairs_wins() {
    let targets = vec![p(0.0, 0.0), p(1.0, 0.0)];
    let movables = vec![p(1.0, 0.0078125), p(0.0, 0.0078125), p(0.0, -0.0078125)];
    assert_eq!(closest_snap_pair(&targets, &movables), Some((p(0.0, 0.0), p(0.0, 0.0078125))));
}

#[test]
fn nothing_to_pair_does_not_snap() {
    assert_eq!(closest_snap_pair(&Vec::new(), &vec![p(0.0, 0.0)]), None);
    assert_eq!(closest_snap_pair(&vec![p(0.0, 0.0)], &Vec::new()), None);
    assert_eq!(closest_snap_pair(&Vec::new(), &Vec::new()), None);
}

#[test]
fn point_that_is_no_number_does_not_snap() {
    let targets = vec![p(f64::NAN, 0.0), p(0.0, 0.0)];
    assert_eq!(closest_snap_pair(&targets, &vec![p(0.0, f64::NAN)]), None);
    let best = closest_snap_pair(&targets, &vec![p(f64::NAN, 0.0), p(0.0, 0.0078125)]);
    assert_eq!(best, Some((p(0.0, 0.0), p(0.0, 0.0078125))));
    assert_eq!(closest_snap_pair(&vec![p(f64::INFINITY, 0.0)], &vec![p(0.0, 0.0)]), None);
}

#[test]
fn rule_points_are_the_corners_of_the_selected_placements() {
    let step = step();
    assert_eq!(
        step.rule_points(0, &vec![2, 0]),
        vec![p(3.0, 3.0), p(0.0, 0.0), p(0.0, 0.5), p(0.5, 0.5), p(0.5, 0.0)]
    );
    assert!(step.rule_points(0, &Vec::new()).is_empty());
    assert!(step.rule_points(1, &Vec::new()).is_empty());
}

#[test]
fn snap_targets_are_the_rule_and_what_is_not_selected() {
    let step = step();
    assert_eq!(
        step.snap_targets(0, &vec![1]),
        vec![
            p(0.0, 0.0),
            p(0.0, 1.0),
            p(1.0, 1.0),
            p(1.0, 0.0),
            p(0.0, 0.0),
            p(0.0, 0.5),
            p(0.5, 0.5),
            p(0.5, 0.0),
            p(3.0, 3.0),
        ]
    );
    assert_eq!(step.snap_targets(0, &vec![2, 1, 0]), unit_square().corners);
    assert_eq!(step.snap_targets(1, &vec![5]), vec![p(0.0, 0.0)]);
}

#[test]
fn snap_joins_the_closest_pair_exactly() {
    let mut step = step();
    let before = step.rules[0].result[1].transform;
    assert_eq!(before * p(1.0, 0.0), p(1.015625, 0.0078125));
    let target = step.snap_placements(0, &vec![1]);
    assert_eq!(target, Some(p(1.0, 0.0)));
    let after = step.rules[0].result[1].transform;
    assert_eq!(after, Affine::scale(0.5).then_translate(Vec2::new(0.5, 0.0)));
    assert_eq!((after * p(1.0, 0.0)).distance(p(1.0, 0.0)), 0.0);
    assert_eq!(step.rules[0].result[0].transform, Affine::scale(0.5));
    assert_eq!(step.rules[0].result[2].transform, Affine::translate((3.0, 3.0)));
    assert_eq!(step.rules[0].result[1].tile_id, 0);
}

#[test]
fn snap_moves_the_whole_selection() {
    let mut step = step();
    let target = step.snap_placements(0, &vec![1, 2]);
    assert_eq!(target, Some(p(1.0, 0.0)));
    assert_eq!(step.rules[0].result[1].transform, Affine::scale(0.5).then_translate(Vec2::new(0.5, 0.0)));
    assert_eq!(
        step.rules[0].result[2].transform,
        Affine::translate((3.0 - 0.015625, 3.0 - 0.0078125))
    );
    assert_eq!(step.rules[0].result[0].transform, Affine::scale(0.5));
}

#[test]
fn snap_out_of_reach_changes_nothing() {
    let mut step = step();
    let target = step.snap_placements(0, &vec![2]);
    assert_eq!(target, None);
    assert_eq!(step.rules[0].result[2].transform, Affine::translate((3.0, 3.0)));
    let target = step.snap_placements(0, &Vec::new());
    assert_eq!(target, None);
}

#[test]
fn move_and_shift_placements() {
    let mut step = step();
    let snapshots = vec![Affine::scale(2.0), Affine::scale(3.0)];
    step.move_placements(0, &vec![2, 0], &snapshots, &Vec2::new(1.0, -1.0));
    assert_eq!(step.rules[0].result[2].transform, Affine::scale(2.0).then_translate(Vec2::new(1.0, -1.0)));
    assert_eq!(step.rules[0].result[0].transform, Affine::scale(3.0).then_translate(Vec2::new(1.0, -1.0)));
    assert_eq!(step.rules[0].result[2].tile_id, 1);
    assert_eq!(step.rules[0].result[0].tile_id, 0);
    step.shift_placements(0, &vec![0], &Vec2::new(0.5, 0.5));
    assert_eq!(step.rules[0].result[0].transform, Affine::scale(3.0).then_translate(Vec2::new(1.5, -0.5)));
    assert_eq!(step.rules[0].result[2].transform, Affine::scale(2.0).then_translate(Vec2::new(1.0, -1.0)));
}
