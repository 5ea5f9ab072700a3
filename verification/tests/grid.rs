use smart_fill::{neighbors_4, FILL_COLOR};

#[test]
fn fill_color_is_three() {
    assert_eq!(FILL_COLOR, 3);
}

#[test]
fn neighbors_of_an_inner_cell_come_left_right_up_down() {
    assert_eq!(neighbors_4(1, 1, 3, 3), vec![(0, 1), (2, 1), (1, 0), (1, 2)]);
}

#[test]
fn neighbors_of_the_top_left_corner() {
    assert_eq!(neighbors_4(0, 0, 3, 3), vec![(1, 0), (0, 1)]);
}

#[test]
fn neighbors_of_the_bottom_right_corner() {
    assert_eq!(neighbors_4(2, 2, 3, 3), vec![(1, 2), (2, 1)]);
}

#[test]
fn neighbors_on_the_edges() {
    assert_eq!(neighbors_4(1, 0, 3, 3), vec![(0, 0), (2, 0), (1, 1)]);
    assert_eq!(neighbors_4(0, 1, 3, 3), vec![(1, 1), (0, 0), (0, 2)]);
    assert_eq!(neighbors_4(2, 1, 3, 3), vec![(1, 1), (2, 0), (2, 2)]);
    assert_eq!(neighbors_4(1, 2, 3, 3), vec![(0, 2), (2, 2), (1, 1)]);
}

#[test]
fn single_cell_grid_has_no_neighbors() {
    assert_eq!(neighbors_4(0, 0, 1, 1), Vec::<(usize, usize)>::new());
}

#[test]
fn neighbors_in_a_single_row_and_a_single_column() {
    assert_eq!(neighbors_4(1, 0, 3, 1), vec![(0, 0), (2, 0)]);
    assert_eq!(neighbors_4(0, 1, 1, 3), vec![(0, 0), (0, 2)]);
}

#[test]
fn empty_grid_has_no_neighbors() {
    assert_eq!(neighbors_4(0, 0, 0, 0), Vec::<(usize, usize)>::new());
    assert_eq!(neighbors_4(1, 1, 0, 5), Vec::<(usize, usize)>::new());
}

#[test]
fn a_cell_beside_the_grid_sees_only_cells_inside() {
    assert_eq!(neighbors_4(3, 1, 3, 3), vec![(2, 1)]);
    assert_eq!(neighbors_4(1, 3, 3, 3), vec![(1, 2)]);
    assert_eq!(neighbors_4(5, 5, 3, 3), Vec::<(usize, usize)>::new());
}

#[test]
fn the_largest_coordinates_do_not_wrap() {
    assert_eq!(
        neighbors_4(usize::MAX, usize::MAX, usize::MAX, usize::MAX),
        Vec::<(usize, usize)>::new()
    );
    assert_eq!(neighbors_4(usize::MAX, 0, 3, 3), Vec::<(usize, usize)>::new());
}
