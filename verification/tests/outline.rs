use kurbo::{Affine, BezPath, PathEl, Point};
use tiling::outline::empty_path;
use tiling::tiling::UNIT_FACTOR;
use tiling::{Tile, TilePlacement, TilingRule, TilingStep};

fn triangle() -> Tile {
    Tile { corners: vec![Point::new(0.0, 0.0), Point::new(2.0, 0.0), Point::new(0.0, 1.0)] }
}

fn step() -> TilingStep {
    TilingStep {
        rules: vec![
            TilingRule { tile: triangle(), result: Vec::new() },
            TilingRule { tile: Tile { corners: Vec::new() }, result: Vec::new() },
            TilingRule { tile: Tile { corners: vec![Point::new(5.0, 5.0)] }, result: Vec::new() },
        ],
        expansion_factor: UNIT_FACTOR,
    }
}

fn closings(path: &BezPath) -> usize {
    path.elements().iter().filter(|e| matches!(e, PathEl::ClosePath)).count()
}

#[test]
fn path_of_a_tile_is_one_closed_loop() {
    let path = triangle().to_path();
    assert_eq!(
        path.elements(),
        &[
            PathEl::MoveTo(Point::new(0.0, 0.0)),
            PathEl::LineTo(Point::new(2.0, 0.0)),
            PathEl::LineTo(Point::new(0.0, 1.0)),
            PathEl::ClosePath,
        ]
    );
}

#[test]
fn path_of_a_tile_without_corners_is_empty() {
    let path = Tile { corners: Vec::new() }.to_path();
    assert!(path.elements().is_empty());
}

#[test]
fn path_of_a_single_corner_is_a_move_and_a_closing() {
    let path = Tile { corners: vec![Point::new(5.0, 5.0)] }.to_path();
    assert_eq!(path.elements(), &[PathEl::MoveTo(Point::new(5.0, 5.0)), PathEl::ClosePath]);
}

#[test]
fn add_to_path_keeps_what_the_path_holds() {
    let mut path = BezPath::new();
    path.move_to((9.0, 9.0));
    path.line_to((8.0, 8.0));
    triangle().add_to_path(&mut path);
    assert_eq!(path.elements().len(), 6);
    assert_eq!(path.elements()[0], PathEl::MoveTo(Point::new(9.0, 9.0)));
    assert_eq!(path.elements()[1], PathEl::LineTo(Point::new(8.0, 8.0)));
    assert_eq!(path.elements()[2], PathEl::MoveTo(Point::new(0.0, 0.0)));
    assert_eq!(path.elements()[5], PathEl::ClosePath);
    Tile { corners: Vec::new() }.add_to_path(&mut path);
    assert_eq!(path.elements().len(), 6);
}

#[test]
fn add_to_path_t_places_each_corner() {
    let mut path = BezPath::new();
    let transform = Affine::scale(2.0).then_translate((1.0, -1.0).into());
    triangle().add_to_path_t(&mut path, &transform);
    assert_eq!(
        path.elements(),
        &[
            PathEl::MoveTo(Point::new(1.0, -1.0)),
            PathEl::LineTo(Point::new(5.0, -1.0)),
            PathEl::LineTo(Point::new(1.0, 1.0)),
            PathEl::ClosePath,
        ]
    );
}

#[test]
fn corners_under_places_each_corner() {
    let placed = triangle().corners_under(&Affine::translate((10.0, 20.0)));
    assert_eq!(placed, vec![Point::new(10.0, 20.0), Point::new(12.0, 20.0), Point::new(10.0, 21.0)]);
    assert!(Tile { corners: Vec::new() }.corners_under(&Affine::scale(3.0)).is_empty());
}

#[test]
fn bez_path_has_one_loop_per_placement_with_corners() {
    let tiles = vec![
        TilePlacement { tile_id: 0, transform: Affine::IDENTITY },
        TilePlacement { tile_id: 1, transform: Affine::scale(4.0) },
        TilePlacement { tile_id: 0, transform: Affine::translate((10.0, 0.0)) },
        TilePlacement { tile_id: 2, transform: Affine::scale(2.0) },
        TilePlacement { tile_id: 0, transform: Affine::IDENTITY },
    ];
    let path = step().to_bez_path(&tiles);
    assert_eq!(closings(&path), 4);
    assert_eq!(path.elements().len(), 4 + 4 + 2 + 4);
    assert_eq!(
        &path.elements()[4..10],
        &[
            PathEl::MoveTo(Point::new(10.0, 0.0)),
            PathEl::LineTo(Point::new(12.0, 0.0)),
            PathEl::LineTo(Point::new(10.0, 1.0)),
            PathEl::ClosePath,
            PathEl::MoveTo(Point::new(10.0, 10.0)),
            PathEl::ClosePath,
        ]
    );
    // Loops that lie on top of each other are both there.
    assert_eq!(&path.elements()[0..4], &path.elements()[10..14]);
}

#[test]
fn bez_path_of_nothing_is_empty() {
    let path = step().to_bez_path(&Vec::new());
    assert!(path.elements().is_empty());
    let path = step().to_bez_path(&vec![TilePlacement { tile_id: 1, transform: Affine::IDENTITY }]);
    assert!(path.elements().is_empty());
}

#[test]
fn each_loop_has_one_element_more_than_corners() {
    for n in 1..7usize {
        let corners: Vec<Point> = (0..n).map(|k| Point::new(k as f64, (k * k) as f64)).collect();
        let path = Tile { corners }.to_path();
        assert_eq!(path.elements().len(), n + 1);
        assert_eq!(closings(&path), 1);
    }
}

#[test]
fn empty_path_takes_an_outline() {
    let mut path = empty_path();
    assert!(path.elements().is_empty());
    triangle().add_to_path(&mut path);
    assert_eq!(path.elements().len(), 4);
}
