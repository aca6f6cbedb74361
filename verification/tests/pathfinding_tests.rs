use warehouse_sim::grid::WarehouseGrid;
use warehouse_sim::pathfinding::find_path;

#[test]
fn test_find_path_clear() {
    let grid = WarehouseGrid::new(5, 5);
    let path = find_path(&grid, (0, 0), (4, 4)).unwrap();
    assert!(!path.is_empty());
    assert_eq!(path.first(), Some(&(0, 0)));
    assert_eq!(path.last(), Some(&(4, 4)));
}

#[test]
fn test_find_path_blocked() {
    let mut grid = WarehouseGrid::new(5, 5);
    // a wall across the whole width cuts the goal off
    for x in 0..5 {
        grid.add_obstacle(x, 2).unwrap();
    }
    let path = find_path(&grid, (0, 0), (4, 4));
    assert!(path.is_none());
}

#[test]
fn start_equals_goal_gives_one_cell() {
    let grid = WarehouseGrid::new(5, 5);
    let path = find_path(&grid, (2, 3), (2, 3)).unwrap();
    assert_eq!(path, vec![(2, 3)]);
}

#[test]
fn blocked_endpoint_gives_no_path_without_searching() {
    let mut grid = WarehouseGrid::new(5, 5);
    grid.add_obstacle(1, 1).unwrap();
    assert!(find_path(&grid, (1, 1), (4, 4)).is_none());
    assert!(find_path(&grid, (0, 0), (1, 1)).is_none());
    assert!(find_path(&grid, (0, 0), (5, 5)).is_none());
}

#[test]
fn path_length_is_optimal_on_clear_grid() {
    let grid = WarehouseGrid::new(5, 5);
    let path = find_path(&grid, (0, 0), (4, 4)).unwrap();
    // Manhattan distance of 8 steps, so 9 cells including the start
    assert_eq!(path.len(), 9);
    for pair in path.windows(2) {
        let dx = (pair[0].0 as i64 - pair[1].0 as i64).abs();
        let dy = (pair[0].1 as i64 - pair[1].1 as i64).abs();
        assert_eq!(dx + dy, 1);
    }
}

#[test]
fn path_takes_shortest_detour_around_partial_wall() {
    let mut grid = WarehouseGrid::new(5, 5);
    // wall across row 2 except for a gap at x == 4
    for x in 0..4 {
        grid.add_obstacle(x, 2).unwrap();
    }
    let path = find_path(&grid, (0, 0), (0, 4)).unwrap();
    assert_eq!(path.first(), Some(&(0, 0)));
    assert_eq!(path.last(), Some(&(0, 4)));
    assert!(path.iter().all(|&(x, y)| y != 2 || x == 4));
    // 4 cells down plus 8 cells across and back through the gap
    assert_eq!(path.len(), 13);
}

#[test]
fn single_cell_grid_route_is_the_cell_itself() {
    let grid = WarehouseGrid::new(1, 1);
    assert_eq!(find_path(&grid, (0, 0), (0, 0)).unwrap(), vec![(0, 0)]);
}

#[test]
fn corridor_scenario_both_agents_find_clear_routes() {
    let mut grid = WarehouseGrid::new(15, 15);
    for x in 4..11 {
        grid.add_obstacle(x, 7).unwrap();
    }
    for y in 3..6 {
        grid.add_obstacle(7, y).unwrap();
    }
    for y in 9..12 {
        grid.add_obstacle(7, y).unwrap();
    }
    grid.add_spawn_point(0, 0).unwrap();
    grid.add_spawn_point(0, 14).unwrap();
    grid.add_delivery_point(14, 14, 1).unwrap();
    grid.add_delivery_point(14, 0, 2).unwrap();

    let spawns = grid.get_spawn_points();
    assert_eq!(spawns, vec![(0, 0), (0, 14)]);

    let first = find_path(&grid, (0, 0), (14, 14)).unwrap();
    let second = find_path(&grid, (0, 14), (14, 0)).unwrap();
    assert!(!first.is_empty());
    assert!(!second.is_empty());
    assert_eq!(*first.first().unwrap(), (0, 0));
    assert_eq!(*first.last().unwrap(), (14, 14));
    assert_eq!(*second.first().unwrap(), (0, 14));
    assert_eq!(*second.last().unwrap(), (14, 0));
    assert!(first.iter().all(|&(x, y)| !grid.is_obstacle(x, y)));
    assert!(second.iter().all(|&(x, y)| !grid.is_obstacle(x, y)));
}
