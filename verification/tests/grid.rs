use truss::fixed::FX_ONE;
use truss::hash_grid::HashGrid;

#[test]
fn empty_grid_finds_nothing() {
    // querying a grid built over no points is valid and yields nothing
    let grid = HashGrid::new(&vec![], FX_ONE);
    assert_eq!(grid.find(0, 0), Vec::<u32>::new());
}

#[test]
fn neighbors_in_same_cell_are_found() {
    let points = vec![(0i64, 0i64), (1000, 500), (40 * FX_ONE, 40 * FX_ONE)];
    let grid = HashGrid::new(&points, FX_ONE);
    let near = grid.find(0, 0);
    assert!(near.contains(&0));
    assert!(near.contains(&1));
}

#[test]
fn adjacent_cells_are_covered() {
    // a point one cell over is still part of the 3 by 3 neighborhood
    let points = vec![(0i64, 0i64), (FX_ONE + 10, 0)];
    let grid = HashGrid::new(&points, FX_ONE);
    let near = grid.find(0, 0);
    assert!(near.contains(&0));
    assert!(near.contains(&1));
}

#[test]
fn single_point_grid() {
    let points = vec![(5 * FX_ONE, -3 * FX_ONE)];
    let grid = HashGrid::new(&points, FX_ONE);
    let near = grid.find(5 * FX_ONE, -3 * FX_ONE);
    assert!(near.contains(&0));
}

#[test]
fn negative_coordinates_use_floor_cells() {
    // a point just left of the origin sits in the cell below zero, not in
    // cell zero, yet the 3 by 3 neighborhood still finds it
    let points = vec![(-10i64, 0i64), (10, 0)];
    let grid = HashGrid::new(&points, FX_ONE);
    let near = grid.find(0, 0);
    assert!(near.contains(&0));
    assert!(near.contains(&1));
}
