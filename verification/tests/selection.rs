use tiling::selection::{contains, remove, toggle};
use tiling::{Selection, WindowState};

fn shapes(selection: &Selection) -> Vec<usize> {
    match selection {
        Selection::Shapes { shapes } => shapes.clone(),
        _ => panic!("no placements are selected"),
    }
}

fn points(selection: &Selection) -> (usize, Vec<usize>) {
    match selection {
        Selection::Points { shape, corners } => (*shape, corners.clone()),
        _ => panic!("no corners are selected"),
    }
}

#[test]
fn click_then_shift_click_selects_both_in_order() {
    let mut state = WindowState::default();
    state.update_tile_selection(3, false);
    assert_eq!(shapes(&state.selection), vec![3]);
    state.update_tile_selection(1, true);
    assert_eq!(shapes(&state.selection), vec![3, 1]);
    state.update_tile_selection(3, true);
    assert_eq!(shapes(&state.selection), vec![1]);
    assert!(state.is_selected(1));
    assert!(!state.is_selected(3));
}

#[test]
fn shift_click_on_the_last_selected_placement_leaves_nothing() {
    let mut state = WindowState::default();
    state.update_tile_selection(2, true);
    assert_eq!(shapes(&state.selection), vec![2]);
    state.update_tile_selection(2, true);
    assert!(matches!(state.selection, Selection::Nothing));
    assert!(!state.is_selected(2));
}

#[test]
fn plain_click_replaces_the_selection() {
    let mut state = WindowState::default();
    state.update_tile_selection(0, false);
    state.update_tile_selection(4, true);
    state.update_tile_selection(5, true);
    state.update_tile_selection(4, false);
    assert_eq!(shapes(&state.selection), vec![4]);
    state.update_point_selection(1, 2, false);
    state.update_tile_selection(7, true);
    assert_eq!(shapes(&state.selection), vec![7]);
}

#[test]
fn corner_click_selects_that_corner() {
    let mut state = WindowState::default();
    state.update_point_selection(2, 1, false);
    assert_eq!(points(&state.selection), (2, vec![1]));
    state.update_point_selection(2, 3, false);
    assert_eq!(points(&state.selection), (2, vec![3]));
}

#[test]
fn shift_click_toggles_corners_of_one_placement() {
    let mut state = WindowState::default();
    state.update_point_selection(2, 1, true);
    assert_eq!(points(&state.selection), (2, vec![1]));
    state.update_point_selection(2, 3, true);
    state.update_point_selection(2, 0, true);
    assert_eq!(points(&state.selection), (2, vec![1, 3, 0]));
    state.update_point_selection(2, 3, true);
    assert_eq!(points(&state.selection), (2, vec![1, 0]));
    assert!(state.selection.has_corner(2, 0));
    assert!(!state.selection.has_corner(2, 3));
    assert!(!state.selection.has_corner(1, 0));
}

#[test]
fn shift_click_on_another_placement_starts_over() {
    let mut state = WindowState::default();
    state.update_point_selection(2, 1, false);
    state.update_point_selection(2, 3, true);
    state.update_point_selection(4, 0, true);
    assert_eq!(points(&state.selection), (4, vec![0]));
    state.update_tile_selection(4, false);
    state.update_point_selection(4, 1, true);
    assert_eq!(points(&state.selection), (4, vec![1]));
}

#[test]
fn shift_click_on_the_last_selected_corner_keeps_the_placement() {
    let mut state = WindowState::default();
    state.update_point_selection(2, 1, false);
    state.update_point_selection(2, 1, true);
    assert_eq!(points(&state.selection), (2, Vec::new()));
}

#[test]
fn lists_of_indices() {
    let items = vec![4, 2, 4, 9];
    assert!(contains(&items, 9));
    assert!(!contains(&items, 3));
    assert!(!contains(&Vec::new(), 0));
    assert_eq!(remove(&items, 4), vec![2, 9]);
    assert_eq!(remove(&items, 5), vec![4, 2, 4, 9]);
    assert_eq!(toggle(&items, 2), vec![4, 4, 9]);
    assert_eq!(toggle(&items, 7), vec![4, 2, 4, 9, 7]);
}

#[test]
fn selection_below_a_count() {
    assert!(Selection::Nothing.below(0));
    assert!(Selection::Points { shape: 9, corners: vec![9] }.below(0));
    assert!(Selection::Shapes { shapes: vec![0, 2, 1] }.below(3));
    assert!(!Selection::Shapes { shapes: vec![0, 3, 1] }.below(3));
}
