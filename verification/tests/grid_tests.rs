use warehouse_sim::grid::WarehouseGrid;

#[test]
fn test_grid_creation() {
    let grid = WarehouseGrid::new(5, 5);
    assert_eq!(grid.width, 5);
    assert_eq!(grid.height, 5);
}

#[test]
fn test_obstacle_detection() {
    let mut grid = WarehouseGrid::new(5, 5);
    grid.add_obstacle(2, 2).unwrap();
    assert!(grid.is_obstacle(2, 2));
    assert!(!grid.is_obstacle(0, 0));
}

#[test]
fn out_of_bounds_counts_as_obstacle() {
    let grid = WarehouseGrid::new(4, 3);
    assert!(grid.is_obstacle(4, 0));
    assert!(grid.is_obstacle(0, 3));
    assert!(!grid.is_obstacle(3, 2));
}

#[test]
fn out_of_range_mutation_is_rejected_and_changes_nothing() {
    let mut grid = WarehouseGrid::new(3, 3);
    assert!(grid.add_obstacle(3, 0).is_err());
    assert!(grid.add_spawn_point(0, 3).is_err());
    assert!(grid.add_delivery_point(5, 5, 1).is_err());
    for y in 0..3 {
        for x in 0..3 {
            assert!(!grid.is_obstacle(x, y));
        }
    }
}

#[test]
fn empty_grid_rejects_everything() {
    let mut grid = WarehouseGrid::new(0, 0);
    assert!(grid.is_obstacle(0, 0));
    assert!(grid.add_obstacle(0, 0).is_err());
    assert!(grid.get_spawn_points().is_empty());
}

#[test]
fn reclassifying_a_cell_keeps_the_latest_type() {
    let mut grid = WarehouseGrid::new(3, 3);
    grid.add_obstacle(1, 1).unwrap();
    grid.add_spawn_point(1, 1).unwrap();
    assert!(!grid.is_obstacle(1, 1));
    assert_eq!(grid.get_spawn_points(), vec![(1, 1)]);
}

#[test]
fn spawn_points_come_back_in_row_major_order() {
    let mut grid = WarehouseGrid::new(4, 4);
    grid.add_spawn_point(3, 2).unwrap();
    grid.add_spawn_point(1, 0).unwrap();
    grid.add_spawn_point(0, 2).unwrap();
    assert_eq!(grid.get_spawn_points(), vec![(1, 0), (0, 2), (3, 2)]);
}
