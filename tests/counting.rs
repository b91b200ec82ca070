use star_counter::label::{count_groups, count_groups_with_visited, mark_group};
use star_counter::mask::render_mask;
use star_counter::threshold::{is_white, threshold};

fn grid(width: usize, height: usize, active: &[(usize, usize)]) -> Vec<Vec<bool>> {
    let mut g = vec![vec![false; height]; width];
    for &(x, y) in active {
        g[x][y] = true;
    }
    g
}

#[test]
fn single_corner_cell_is_one_cluster() {
    let g = grid(3, 3, &[(0, 0)]);
    assert_eq!(count_groups(&g), 1);
}

#[test]
fn full_three_by_three_is_one_cluster() {
    let g = vec![vec![true; 3]; 3];
    assert_eq!(count_groups(&g), 1);
}

#[test]
fn four_corners_are_four_clusters() {
    let g = grid(3, 3, &[(0, 0), (2, 0), (0, 2), (2, 2)]);
    assert_eq!(count_groups(&g), 4);
}

#[test]
fn row_with_gap_is_two_clusters() {
    let g = grid(5, 1, &[(0, 0), (1, 0), (3, 0), (4, 0)]);
    assert_eq!(count_groups(&g), 2);
}

#[test]
fn sensitivity_at_maximum_counts_nothing() {
    let intensity = vec![vec![255u8, 10, 0], vec![200, 255, 254], vec![0, 0, 255]];
    let occupancy = threshold(&intensity, 255);
    assert_eq!(count_groups(&occupancy), 0);
}

#[test]
fn all_inactive_grid_renders_black() {
    let g = vec![vec![false; 4]; 3];
    let mask = render_mask(&g);
    assert_eq!(mask, vec![vec![0u8; 4]; 3]);
}

#[test]
fn empty_grid_has_no_cluster() {
    let g = vec![vec![false; 5]; 4];
    assert_eq!(count_groups(&g), 0);
}

#[test]
fn one_active_cell_gives_a_cluster() {
    let g = grid(4, 5, &[(3, 4)]);
    assert_eq!(count_groups(&g), 1);
}

#[test]
fn zero_height_grid_has_no_cluster() {
    let g: Vec<Vec<bool>> = vec![Vec::new(); 3];
    assert_eq!(count_groups(&g), 0);
}

#[test]
fn diagonal_neighbours_join() {
    let g = grid(4, 4, &[(0, 0), (1, 1), (2, 2), (3, 3)]);
    assert_eq!(count_groups(&g), 1);
}

#[test]
fn checkerboard_is_one_cluster() {
    let mut active = Vec::new();
    for x in 0..4 {
        for y in 0..4 {
            if (x + y) % 2 == 0 {
                active.push((x, y));
            }
        }
    }
    assert_eq!(count_groups(&grid(4, 4, &active)), 1);
}

#[test]
fn separate_blobs_are_counted_apart() {
    let g = grid(6, 4, &[(0, 0), (0, 1), (1, 1), (4, 0), (5, 3), (2, 3)]);
    assert_eq!(count_groups(&g), 4);
}

#[test]
fn u_shape_found_from_its_top_left() {
    let g = grid(5, 3, &[(0, 0), (0, 1), (0, 2), (1, 2), (2, 2), (3, 2), (4, 2), (4, 1), (4, 0)]);
    assert_eq!(count_groups(&g), 1);
}

#[test]
fn count_is_the_same_in_mirrored_and_transposed_grids() {
    let g = grid(6, 4, &[(0, 0), (0, 1), (1, 1), (4, 0), (5, 3), (2, 3), (3, 2)]);
    let mirrored: Vec<Vec<bool>> = g.iter().rev().cloned().collect();
    let transposed: Vec<Vec<bool>> = (0..4).map(|y| (0..6).map(|x| g[x][y]).collect()).collect();
    let n = count_groups(&g);
    assert_eq!(n, 4);
    assert_eq!(count_groups(&mirrored), n);
    assert_eq!(count_groups(&transposed), n);
}

#[test]
fn visited_grid_equals_occupancy() {
    let g = grid(5, 4, &[(0, 0), (2, 1), (4, 3), (3, 3), (1, 3)]);
    let (n, visited) = count_groups_with_visited(&g);
    assert_eq!(n, 4);
    assert_eq!(visited, g);
}

#[test]
fn mark_group_marks_exactly_the_cluster() {
    let g = grid(4, 3, &[(0, 0), (1, 1), (3, 0), (3, 1)]);
    let mut visited = vec![vec![false; 3]; 4];
    mark_group((1, 1), &g, &mut visited);
    assert_eq!(visited, grid(4, 3, &[(0, 0), (1, 1)]));
    mark_group((3, 1), &g, &mut visited);
    assert_eq!(visited, g);
}

#[test]
fn threshold_is_strict() {
    assert!(!is_white(20, 20));
    assert!(is_white(21, 20));
    assert!(!is_white(0, 0));
    assert!(is_white(255, 254));
}

#[test]
fn threshold_keeps_shape_and_classifies_each_cell() {
    let intensity = vec![vec![0u8, 20, 21], vec![255, 19, 100]];
    assert_eq!(
        threshold(&intensity, 20),
        vec![vec![false, false, true], vec![true, false, true]]
    );
}

#[test]
fn mask_is_white_on_active_cells() {
    let g = grid(2, 3, &[(0, 1), (1, 2)]);
    assert_eq!(render_mask(&g), vec![vec![0u8, 255, 0], vec![0, 0, 255]]);
}

#[test]
fn mask_thresholds_back_to_occupancy() {
    let g = grid(4, 3, &[(0, 1), (1, 2), (3, 0), (2, 2)]);
    let mask = render_mask(&g);
    for s in [0u8, 1, 20, 128, 254] {
        assert_eq!(threshold(&mask, s), g);
    }
}
