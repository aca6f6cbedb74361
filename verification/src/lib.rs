//! Simulation core for autonomous agents moving through a 2-D warehouse grid:
//! a queryable obstacle grid, an A* waypoint planner, a FIFO waypoint queue,
//! and a fixed-timestep accumulator clock.

pub mod clock;
pub mod grid;
pub mod pathfinding;
pub mod route;
