use smart_fill::{flood_fill_peek, flood_fill_with_positions};

#[test]
fn recolouring_scan_claims_cells_breadth_first() {
    let mut grid = vec![0u8; 9];
    let cells = flood_fill_with_positions(&mut grid, 3, 3, 1, 1, 0, 7);
    assert_eq!(
        cells,
        vec![(1, 1), (0, 1), (2, 1), (1, 0), (1, 2), (0, 0), (0, 2), (2, 0), (2, 2)]
    );
    assert_eq!(grid, vec![7u8; 9]);
}

#[test]
fn recolouring_scan_stops_at_other_colours() {
    let mut grid = vec![
        1, 1, 2, //
        1, 4, 2, //
        5, 4, 2,
    ];
    let cells = flood_fill_with_positions(&mut grid, 3, 3, 0, 0, 1, 3);
    assert_eq!(cells, vec![(0, 0), (1, 0), (0, 1)]);
    assert_eq!(
        grid,
        vec![
            3, 3, 2, //
            3, 4, 2, //
            5, 4, 2,
        ]
    );
}

#[test]
fn recolouring_scan_from_a_cell_of_another_colour_does_nothing() {
    let mut grid = vec![1, 1, 2];
    let cells = flood_fill_with_positions(&mut grid, 3, 1, 2, 0, 1, 9);
    assert_eq!(cells, Vec::<(usize, usize)>::new());
    assert_eq!(grid, vec![1, 1, 2]);
}

#[test]
fn recolouring_scan_does_not_cross_diagonals() {
    let mut grid = vec![
        1, 0, //
        0, 1,
    ];
    let cells = flood_fill_with_positions(&mut grid, 2, 2, 0, 0, 1, 8);
    assert_eq!(cells, vec![(0, 0)]);
    assert_eq!(grid, vec![8, 0, 0, 1]);
}

#[test]
fn recolouring_scan_claims_a_ring_once_per_cell() {
    let mut grid = vec![
        1, 1, 1, //
        1, 0, 1, //
        1, 1, 1,
    ];
    let cells = flood_fill_with_positions(&mut grid, 3, 3, 0, 0, 1, 2);
    assert_eq!(
        cells,
        vec![(0, 0), (1, 0), (0, 1), (2, 0), (0, 2), (2, 1), (1, 2), (2, 2)]
    );
    assert_eq!(grid, vec![2, 2, 2, 2, 0, 2, 2, 2, 2]);
}

#[test]
fn measuring_scan_lists_the_region_and_writes_nothing() {
    let grid = vec![
        1, 1, 2, //
        1, 4, 2, //
        5, 4, 2,
    ];
    assert_eq!(flood_fill_peek(&grid, 3, 3, 2, 0, 2), vec![(2, 0), (2, 1), (2, 2)]);
    assert_eq!(flood_fill_peek(&grid, 3, 3, 1, 2, 4), vec![(1, 2), (1, 1)]);
    assert_eq!(flood_fill_peek(&grid, 3, 3, 0, 2, 5), vec![(0, 2)]);
    assert_eq!(grid, vec![1, 1, 2, 1, 4, 2, 5, 4, 2]);
}

#[test]
fn measuring_scan_from_a_cell_of_another_colour_is_empty() {
    let grid = vec![1, 1, 2];
    assert_eq!(flood_fill_peek(&grid, 3, 1, 0, 0, 2), Vec::<(usize, usize)>::new());
}

#[test]
fn both_scans_claim_cells_in_the_same_order() {
    let grid = vec![
        0, 0, 1, 0, //
        0, 1, 1, 0, //
        0, 0, 0, 0, //
        1, 0, 1, 1,
    ];
    let measured = flood_fill_peek(&grid, 4, 4, 1, 2, 0);
    let mut working = grid.clone();
    let claimed = flood_fill_with_positions(&mut working, 4, 4, 1, 2, 0, 3);
    assert_eq!(measured, claimed);
    assert_eq!(
        claimed,
        vec![
            (1, 2),
            (0, 2),
            (2, 2),
            (1, 3),
            (0, 1),
            (3, 2),
            (0, 0),
            (3, 1),
            (1, 0),
            (3, 0)
        ]
    );
    assert_eq!(
        working,
        vec![
            3, 3, 1, 3, //
            3, 1, 1, 3, //
            3, 3, 3, 3, //
            1, 3, 1, 1,
        ]
    );
}

#[test]
fn single_cell_region() {
    let mut grid = vec![5];
    assert_eq!(flood_fill_peek(&grid, 1, 1, 0, 0, 5), vec![(0, 0)]);
    assert_eq!(flood_fill_with_positions(&mut grid, 1, 1, 0, 0, 5, 3), vec![(0, 0)]);
    assert_eq!(grid, vec![3]);
}
