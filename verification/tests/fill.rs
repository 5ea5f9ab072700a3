use smart_fill::{
    absorb_regions, compute_smart_fill, discover_regions, flatten_positions, smart_fill_positions,
};

fn touching(a: (usize, usize), b: (usize, usize)) -> bool {
    (a.1 == b.1 && (a.0 + 1 == b.0 || b.0 + 1 == a.0))
        || (a.0 == b.0 && (a.1 + 1 == b.1 || b.1 + 1 == a.1))
}

fn speckled(width: usize, height: usize, colors: u8, seed: u64) -> Vec<u8> {
    let mut state = seed;
    let mut grid = Vec::new();
    for _ in 0..width * height {
        state = state.wrapping_mul(6364136223846793005).wrapping_add(1442695040888963407);
        grid.push(((state >> 33) % (colors as u64)) as u8);
    }
    grid
}

#[test]
fn single_cell_grid_is_filled() {
    assert_eq!(compute_smart_fill(&[5], 1, 1, 0, 0), vec![0, 0]);
}

#[test]
fn smaller_neighbor_is_absorbed_last() {
    assert_eq!(compute_smart_fill(&[1, 1, 2], 3, 1, 0, 0), vec![0, 0, 1, 0, 2, 0]);
}

#[test]
fn start_beyond_the_width_is_a_no_op() {
    assert_eq!(compute_smart_fill(&[1, 1, 1, 1], 2, 2, 2, 0), Vec::<u32>::new());
    assert_eq!(compute_smart_fill(&[1, 1, 1, 1], 2, 2, 7, 1), Vec::<u32>::new());
}

#[test]
fn start_beyond_the_height_is_a_no_op() {
    assert_eq!(compute_smart_fill(&[1, 1, 1, 1], 2, 2, 0, 2), Vec::<u32>::new());
    assert_eq!(compute_smart_fill(&[], 0, 0, 0, 0), Vec::<u32>::new());
}

#[test]
fn start_on_the_fill_color_is_a_no_op() {
    assert_eq!(compute_smart_fill(&[3, 1, 1, 1], 2, 2, 0, 0), Vec::<u32>::new());
    assert_eq!(compute_smart_fill(&[3, 3, 3, 3], 2, 2, 1, 1), Vec::<u32>::new());
    assert_eq!(compute_smart_fill(&[0, 3, 9], 3, 1, 1, 0), Vec::<u32>::new());
}

#[test]
fn larger_neighbor_is_left_alone() {
    assert_eq!(compute_smart_fill(&[1, 2, 2], 3, 1, 0, 0), vec![0, 0]);
    assert_eq!(
        smart_fill_positions(&[1, 1, 2, 2, 2], 5, 1, 1, 0),
        vec![(1, 0), (0, 0)]
    );
}

#[test]
fn neighbor_of_equal_size_is_left_alone() {
    assert_eq!(compute_smart_fill(&[1, 2], 2, 1, 0, 0), vec![0, 0]);
    assert_eq!(compute_smart_fill(&[1, 1, 2, 2], 4, 1, 0, 0), vec![0, 0, 1, 0]);
}

#[test]
fn chain_of_growing_regions_is_absorbed_over_rounds() {
    let grid = [1, 1, 2, 4, 4, 5, 5, 5, 5];
    assert_eq!(
        compute_smart_fill(&grid, 9, 1, 0, 0),
        vec![0, 0, 1, 0, 2, 0, 3, 0, 4, 0, 5, 0, 6, 0, 7, 0, 8, 0]
    );
}

#[test]
fn chain_of_regions_one_cell_too_large_is_left_alone() {
    let grid = [1, 1, 2, 2, 2, 4, 4, 4, 4, 4, 4];
    assert_eq!(compute_smart_fill(&grid, 11, 1, 0, 0), vec![0, 0, 1, 0]);
}

#[test]
fn region_rejected_in_one_round_is_taken_in_the_next() {
    assert_eq!(
        compute_smart_fill(&[4, 4, 1, 1, 2], 5, 1, 2, 0),
        vec![2, 0, 3, 0, 4, 0, 1, 0, 0, 0]
    );
}

#[test]
fn regions_are_offered_in_order_of_discovery() {
    let grid = [
        1, 1, 2, //
        1, 4, 2, //
        5, 4, 2,
    ];
    assert_eq!(
        smart_fill_positions(&grid, 3, 3, 0, 0),
        vec![(0, 0), (1, 0), (0, 1), (1, 1), (1, 2), (0, 2), (2, 0), (2, 1), (2, 2)]
    );
    assert_eq!(
        compute_smart_fill(&grid, 3, 3, 0, 0),
        vec![0, 0, 1, 0, 0, 1, 1, 1, 1, 2, 0, 2, 2, 0, 2, 1, 2, 2]
    );
}

#[test]
fn uniform_grid_is_filled_breadth_first() {
    assert_eq!(
        compute_smart_fill(&[0; 9], 3, 3, 1, 1),
        vec![1, 1, 0, 1, 2, 1, 1, 0, 1, 2, 0, 0, 0, 2, 2, 0, 2, 2]
    );
}

#[test]
fn claimed_cells_of_the_input_are_never_taken() {
    let grid = [
        1, 3, 2, //
        3, 3, 2, //
        2, 2, 2,
    ];
    assert_eq!(compute_smart_fill(&grid, 3, 3, 0, 0), vec![0, 0]);
    assert_eq!(
        compute_smart_fill(&[1, 1, 3, 2], 4, 1, 0, 0),
        vec![0, 0, 1, 0]
    );
}

#[test]
fn the_input_buffer_is_left_as_it_was() {
    let grid = vec![1, 1, 2, 4, 4];
    let _ = compute_smart_fill(&grid, 5, 1, 0, 0);
    assert_eq!(grid, vec![1, 1, 2, 4, 4]);
}

#[test]
fn filling_twice_from_the_same_start() {
    let grid = vec![1, 1, 2, 4, 4, 4];
    let first = smart_fill_positions(&grid, 6, 1, 0, 0);
    assert_eq!(first, vec![(0, 0), (1, 0), (2, 0)]);
    let mut painted = grid.clone();
    for &(x, y) in &first {
        painted[y * 6 + x] = 3;
    }
    assert_eq!(compute_smart_fill(&painted, 6, 1, 0, 0), Vec::<u32>::new());
}

#[test]
fn discovery_lists_each_touching_region_once() {
    let grid = [
        3, 1, 1, //
        2, 3, 1,
    ];
    let filled = vec![(0, 0), (1, 1)];
    assert_eq!(
        discover_regions(&grid, 3, 2, &filled),
        vec![(1u8, vec![(1, 0), (2, 0), (2, 1)]), (2u8, vec![(0, 1)])]
    );
}

#[test]
fn discovery_around_a_closed_in_area_is_empty() {
    assert_eq!(discover_regions(&[3], 1, 1, &vec![(0, 0)]), vec![]);
    assert_eq!(discover_regions(&[3, 3], 2, 1, &vec![(0, 0), (1, 0)]), vec![]);
    assert_eq!(discover_regions(&[1, 2], 2, 1, &vec![]), vec![]);
}

#[test]
fn absorbing_takes_strictly_smaller_regions_only() {
    let mut grid = vec![
        3, 1, 1, //
        2, 3, 1,
    ];
    let mut filled = vec![(0, 0), (1, 1)];
    let regions = vec![(1u8, vec![(1, 0), (2, 0), (2, 1)]), (2u8, vec![(0, 1)])];
    assert!(absorb_regions(&mut grid, 3, 2, &mut filled, &regions));
    assert_eq!(filled, vec![(0, 0), (1, 1), (0, 1)]);
    assert_eq!(grid, vec![3, 1, 1, 3, 3, 1]);
}

#[test]
fn absorbing_counts_what_earlier_regions_added() {
    let mut grid = vec![3, 3, 1, 2, 2, 4, 4, 4, 4, 4];
    let mut filled = vec![(0, 0), (1, 0)];
    let regions = vec![
        (1u8, vec![(2, 0)]),
        (2u8, vec![(3, 0), (4, 0)]),
        (4u8, vec![(5, 0), (6, 0), (7, 0), (8, 0), (9, 0)]),
    ];
    assert!(absorb_regions(&mut grid, 10, 1, &mut filled, &regions));
    assert_eq!(filled, vec![(0, 0), (1, 0), (2, 0), (3, 0), (4, 0)]);
    assert_eq!(grid, vec![3, 3, 3, 3, 3, 4, 4, 4, 4, 4]);
}

#[test]
fn absorbing_nothing_reports_no_change() {
    let mut grid = vec![3, 2, 2];
    let mut filled = vec![(0, 0)];
    let regions = vec![(2u8, vec![(1, 0), (2, 0)])];
    assert!(!absorb_regions(&mut grid, 3, 1, &mut filled, &regions));
    assert_eq!(filled, vec![(0, 0)]);
    assert_eq!(grid, vec![3, 2, 2]);
    assert!(!absorb_regions(&mut grid, 3, 1, &mut filled, &vec![]));
}

#[test]
fn flattening_interleaves_x_and_y() {
    assert_eq!(flatten_positions(&vec![]), Vec::<u32>::new());
    assert_eq!(flatten_positions(&vec![(7, 9)]), vec![7, 9]);
    assert_eq!(
        flatten_positions(&vec![(1, 2), (3, 4), (0, 5)]),
        vec![1, 2, 3, 4, 0, 5]
    );
}

#[test]
fn flattening_keeps_the_low_32_bits() {
    let wide = (u32::MAX as usize).wrapping_add(6);
    let expected = wide as u32;
    assert_eq!(flatten_positions(&vec![(wide, 7)]), vec![expected, 7]);
    assert_eq!(
        flatten_positions(&vec![(u32::MAX as usize, 0)]),
        vec![u32::MAX, 0]
    );
}

#[test]
fn no_cell_is_claimed_twice() {
    for seed in 0..40u64 {
        let grid = speckled(7, 6, 3, seed);
        let filled = smart_fill_positions(&grid, 7, 6, (seed % 7) as usize, (seed % 6) as usize);
        for i in 0..filled.len() {
            assert!(filled[i].0 < 7 && filled[i].1 < 6);
            for j in 0..i {
                assert_ne!(filled[i], filled[j]);
            }
        }
    }
}

#[test]
fn every_claimed_cell_touches_an_earlier_one() {
    for seed in 0..40u64 {
        let grid = speckled(6, 7, 3, seed);
        let start = ((seed % 6) as usize, (seed % 7) as usize);
        let filled = smart_fill_positions(&grid, 6, 7, start.0, start.1);
        assert_eq!(filled[0], start);
        for i in 1..filled.len() {
            assert!((0..i).any(|j| touching(filled[j], filled[i])));
        }
    }
}

#[test]
fn the_fill_opens_with_the_start_region() {
    for seed in 0..40u64 {
        let grid = speckled(6, 6, 3, seed);
        let x = (seed % 6) as usize;
        let y = ((seed / 6) % 6) as usize;
        let filled = smart_fill_positions(&grid, 6, 6, x, y);
        let first = smart_fill::flood_fill_peek(&grid, 6, 6, x, y, grid[y * 6 + x]);
        assert!(first.len() <= filled.len());
        assert_eq!(&filled[..first.len()], &first[..]);
        assert!(filled.len() <= 36);
    }
}

#[test]
fn nothing_smaller_is_left_beside_a_finished_fill() {
    for seed in 0..40u64 {
        let grid = speckled(8, 5, 4, seed);
        let mut grid: Vec<u8> = grid.iter().map(|&c| if c == 3 { 4 } else { c }).collect();
        let filled = smart_fill_positions(&grid, 8, 5, (seed % 8) as usize, (seed % 5) as usize);
        for &(x, y) in &filled {
            grid[y * 8 + x] = 3;
        }
        for (_, region) in discover_regions(&grid, 8, 5, &filled) {
            assert!(region.len() >= filled.len());
        }
    }
}

#[test]
fn flat_output_is_the_flattened_fill() {
    for seed in 0..20u64 {
        let grid = speckled(5, 5, 3, seed);
        let x = (seed % 5) as usize;
        let y = ((seed / 5) % 5) as usize;
        assert_eq!(
            compute_smart_fill(&grid, 5, 5, x, y),
            flatten_positions(&smart_fill_positions(&grid, 5, 5, x, y))
        );
    }
}
