use streamchat::grid::{find_path, path_total_cost, Grid};

#[test]
fn grid_accessors() {
    let g = Grid::new(3, 2, vec![10, 11, 12, 13, 14, 15]);
    assert_eq!(g.get_index(2, 1), 5);
    assert_eq!(g.get_index(0, 0), 0);
    assert_eq!(g.get_xy(5), (2, 1));
    assert_eq!(g.get_xy(0), (0, 0));
    assert_eq!(g.get_val(2, 1), 15);
    assert_eq!(g.get_val(1, 0), 11);
    // flat indexing tolerates an x past the width while the index is in range
    assert_eq!(g.get_val(4, 0), 14);
}

#[test]
fn find_path_single_cell() {
    let g = Grid::new(1, 1, vec![0x2A]);
    let (path, cost) = find_path(&g, false);
    assert_eq!(path, Some(vec![0]));
    assert_eq!(cost, 0);
}

#[test]
fn find_path_two_by_two_minimum() {
    let g = Grid::new(2, 2, vec![0, 1, 2, 3]);
    let (path, cost) = find_path(&g, false);
    assert_eq!(path, Some(vec![0, 1, 3]));
    assert_eq!(cost, 4);
    assert_eq!(path_total_cost(&g, &path.unwrap()), 4);
}

#[test]
fn find_path_two_by_two_maximum() {
    let g = Grid::new(2, 2, vec![0, 1, 2, 3]);
    let (path, cost) = find_path(&g, true);
    // maximizing minimizes the inverted weights 255 - value
    assert_eq!(path, Some(vec![0, 2, 3]));
    assert_eq!(cost, (255 - 2) + (255 - 3));
    assert_eq!(path_total_cost(&g, &path.unwrap()), 5);
}

#[test]
fn find_path_single_row() {
    let g = Grid::new(3, 1, vec![0, 5, 7]);
    let (path, cost) = find_path(&g, false);
    assert_eq!(path, Some(vec![0, 1, 2]));
    assert_eq!(cost, 12);
}

#[test]
fn find_path_three_by_three() {
    let g = Grid::new(3, 3, vec![0, 9, 9, 1, 9, 9, 1, 1, 2]);
    let (path, cost) = find_path(&g, false);
    assert_eq!(path, Some(vec![0, 3, 6, 7, 8]));
    assert_eq!(cost, 5);
    assert_eq!(path_total_cost(&g, &path.unwrap()), 5);
}

#[test]
fn path_total_cost_skips_the_start() {
    let g = Grid::new(2, 2, vec![200, 1, 2, 3]);
    // the start cell's own value never counts
    assert_eq!(path_total_cost(&g, &vec![0, 1, 3]), 4);
    assert_eq!(path_total_cost(&g, &vec![0]), 0);
    assert_eq!(path_total_cost(&g, &vec![]), 0);
}
