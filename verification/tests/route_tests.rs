use warehouse_sim::route::Waypoints;

#[test]
fn waypoint_queue_advances_to_next_target() {
    let mut route = Waypoints::new(vec![(2, 0), (2, 2)]);
    assert_eq!(route.current_target(), Some((2, 0)));
    assert_eq!(route.len(), 2);
    route.advance();
    assert_eq!(route.current_target(), Some((2, 2)));
    route.advance();
    assert_eq!(route.current_target(), None);
    assert_eq!(route.len(), 0);
}

#[test]
fn empty_route_has_no_target() {
    let route = Waypoints::new(vec![]);
    assert_eq!(route.current_target(), None);
    assert_eq!(route.len(), 0);
}
