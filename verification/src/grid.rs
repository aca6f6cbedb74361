//! The warehouse floor: a rectangular grid of cells, each empty, an obstacle,
//! a spawn point, or a delivery point. Out-of-bounds coordinates always count
//! as obstacles.

use vstd::prelude::*;

verus! {

/// Widest grid side the planner's cost arithmetic supports: with both sides
/// bounded by this, `width * height + width + height` fits in a `usize` even
/// on a 32-bit machine.
pub const MAX_GRID_DIM: usize = 0xFFFF;

/// Classification of one grid cell. Fixed once placed.
#[derive(Clone, Copy, Debug, PartialEq, Eq, Structural)]
pub enum CellType {
    Empty,
    Obstacle,
    SpawnPoint,
    DeliveryPoint(u32),
}

/// One cell of the grid, carrying its own coordinates.
#[derive(Clone, Copy, Debug)]
pub struct Cell {
    pub cell_type: CellType,
    pub x: usize,
    pub y: usize,
}

/// A rectangular grid of classified cells, stored row by row:
/// `cells[y][x]` is the cell at column `x` of row `y`.
#[derive(Clone, Debug)]
pub struct WarehouseGrid {
    pub width: usize,
    pub height: usize,
    pub cells: Vec<Vec<Cell>>,
}

impl WarehouseGrid {
    /// Shape invariant: `height` rows of `width` cells, each cell carrying the
    /// coordinates it sits at, and both sides small enough for the planner's
    /// cost arithmetic.
    pub open spec fn wf(self) -> bool {
        &&& self.cells@.len() == self.height
        &&& forall|y: int|
            0 <= y < self.height ==> (#[trigger] self.cells@[y])@.len() == self.width
        &&& forall|y: int, x: int|
            0 <= y < self.height && 0 <= x < self.width ==> {
                &&& (#[trigger] self.cells@[y]@[x]).x == x
                &&& self.cells@[y]@[x].y == y
            }
        &&& self.width <= MAX_GRID_DIM
        &&& self.height <= MAX_GRID_DIM
    }

    pub open spec fn in_bounds(self, x: int, y: int) -> bool {
        0 <= x < self.width && 0 <= y < self.height
    }

    pub open spec fn cell_type_at(self, x: int, y: int) -> CellType {
        self.cells@[y]@[x].cell_type
    }

    /// A coordinate blocks movement if it lies outside the grid or its cell is
    /// an obstacle.
    pub open spec fn obstacle_at(self, x: int, y: int) -> bool {
        !self.in_bounds(x, y) || self.cell_type_at(x, y) is Obstacle
    }

    pub open spec fn spawn_at(self, x: int, y: int) -> bool {
        self.in_bounds(x, y) && self.cell_type_at(x, y) is SpawnPoint
    }

    /// Creates a grid of the given size with every cell empty.
    pub fn new(width: usize, height: usize) -> (grid: Self)
        requires
            width <= MAX_GRID_DIM,
            height <= MAX_GRID_DIM,
        ensures
            grid.wf(),
            grid.width == width,
            grid.height == height,
            forall|x: int, y: int|
                grid.in_bounds(x, y) ==> grid.cell_type_at(x, y) == CellType::Empty,
    {
        let mut cells: Vec<Vec<Cell>> = Vec::new();
        let mut y: usize = 0;
        while y < height
            invariant
                y <= height,
                width <= MAX_GRID_DIM,
                height <= MAX_GRID_DIM,
                cells@.len() == y,
                forall|yy: int| 0 <= yy < y ==> (#[trigger] cells@[yy])@.len() == width,
                forall|yy: int, xx: int|
                    0 <= yy < y && 0 <= xx < width ==> {
                        &&& (#[trigger] cells@[yy]@[xx]).x == xx
                        &&& cells@[yy]@[xx].y == yy
                        &&& cells@[yy]@[xx].cell_type == CellType::Empty
                    },
            decreases height - y,
        {
            let mut row: Vec<Cell> = Vec::new();
            let mut x: usize = 0;
            while x < width
                invariant
                    x <= width,
                    row@.len() == x,
                    forall|xx: int|
                        0 <= xx < x ==> {
                            &&& (#[trigger] row@[xx]).x == xx
                            &&& row@[xx].y == y
                            &&& row@[xx].cell_type == CellType::Empty
                        },
                decreases width - x,
            {
                row.push(Cell { cell_type: CellType::Empty, x, y });
                x += 1;
            }
            cells.push(row);
            y += 1;
        }
        let grid = Self { width, height, cells };
        grid
    }

    /// Replaces the classification of the cell at `(x, y)`, leaving every
    /// other cell alone; rejects out-of-range coordinates without touching
    /// the grid.
    fn set_cell(&mut self, x: usize, y: usize, cell_type: CellType) -> (result: Result<
        (),
        String,
    >)
        requires
            old(self).wf(),
        ensures
            final(self).wf(),
            final(self).width == old(self).width,
            final(self).height == old(self).height,
            x < old(self).width && y < old(self).height ==> {
                &&& result is Ok
                &&& final(self).cell_type_at(x as int, y as int) == cell_type
                &&& forall|xx: int, yy: int|
                    old(self).in_bounds(xx, yy) && (xx != x || yy != y)
                        ==> final(self).cell_type_at(xx, yy) == old(self).cell_type_at(xx, yy)
            },
            !(x < old(self).width && y < old(self).height) ==> {
                &&& result is Err
                &&& *final(self) == *old(self)
            },
    {
        if x >= self.width || y >= self.height {
            return Err("coordinate out of grid bounds".to_string());
        }
        let mut row: Vec<Cell> = Vec::new();
        let mut j: usize = 0;
        while j < self.width
            invariant
                self == old(self),
                old(self).wf(),
                x < old(self).width,
                y < old(self).height,
                j <= self.width,
                row@.len() == j,
                forall|xx: int|
                    0 <= xx < j ==> #[trigger] row@[xx] == (if xx == x {
                        Cell { cell_type, x, y }
                    } else {
                        self.cells@[y as int]@[xx]
                    }),
            decreases self.width - j,
        {
            if j == x {
                row.push(Cell { cell_type, x, y });
            } else {
                let c = self.cells[y][j];
                row.push(c);
            }
            j += 1;
        }
        self.cells[y] = row;
        Ok(())
    }

    /// Marks the cell at `(x, y)` as an obstacle.
    pub fn add_obstacle(&mut self, x: usize, y: usize) -> (result: Result<(), String>)
        requires
            old(self).wf(),
        ensures
            final(self).wf(),
            final(self).width == old(self).width,
            final(self).height == old(self).height,
            x < old(self).width && y < old(self).height ==> {
                &&& result is Ok
                &&& final(self).cell_type_at(x as int, y as int) == CellType::Obstacle
                &&& forall|xx: int, yy: int|
                    old(self).in_bounds(xx, yy) && (xx != x || yy != y)
                        ==> final(self).cell_type_at(xx, yy) == old(self).cell_type_at(xx, yy)
            },
            !(x < old(self).width && y < old(self).height) ==> {
                &&& result is Err
                &&& *final(self) == *old(self)
            },
    {
        self.set_cell(x, y, CellType::Obstacle)
    }

    /// Marks the cell at `(x, y)` as a spawn point.
    pub fn add_spawn_point(&mut self, x: usize, y: usize) -> (result: Result<(), String>)
        requires
            old(self).wf(),
        ensures
            final(self).wf(),
            final(self).width == old(self).width,
            final(self).height == old(self).height,
            x < old(self).width && y < old(self).height ==> {
                &&& result is Ok
                &&& final(self).cell_type_at(x as int, y as int) == CellType::SpawnPoint
                &&& forall|xx: int, yy: int|
                    old(self).in_bounds(xx, yy) && (xx != x || yy != y)
                        ==> final(self).cell_type_at(xx, yy) == old(self).cell_type_at(xx, yy)
            },
            !(x < old(self).width && y < old(self).height) ==> {
                &&& result is Err
                &&& *final(self) == *old(self)
            },
    {
        self.set_cell(x, y, CellType::SpawnPoint)
    }

    /// Marks the cell at `(x, y)` as the delivery point for `package_id`.
    pub fn add_delivery_point(&mut self, x: usize, y: usize, package_id: u32) -> (result: Result<
        (),
        String,
    >)
        requires
            old(self).wf(),
        ensures
            final(self).wf(),
            final(self).width == old(self).width,
            final(self).height == old(self).height,
            x < old(self).width && y < old(self).height ==> {
                &&& result is Ok
                &&& final(self).cell_type_at(x as int, y as int) == CellType::DeliveryPoint(
                    package_id,
                )
                &&& forall|xx: int, yy: int|
                    old(self).in_bounds(xx, yy) && (xx != x || yy != y)
                        ==> final(self).cell_type_at(xx, yy) == old(self).cell_type_at(xx, yy)
            },
            !(x < old(self).width && y < old(self).height) ==> {
                &&& result is Err
                &&& *final(self) == *old(self)
            },
    {
        self.set_cell(x, y, CellType::DeliveryPoint(package_id))
    }

    /// Whether `(x, y)` blocks movement; out-of-range coordinates do.
    pub fn is_obstacle(&self, x: usize, y: usize) -> (blocked: bool)
        requires
            self.wf(),
        ensures
            blocked == self.obstacle_at(x as int, y as int),
    {
        if x >= self.width || y >= self.height {
            return true;
        }
        matches!(self.cells[y][x].cell_type, CellType::Obstacle)
    }

    /// All spawn-point coordinates, in row-major order.
    pub fn get_spawn_points(&self) -> (points: Vec<(usize, usize)>)
        requires
            self.wf(),
        ensures
            forall|i: int|
                0 <= i < points@.len() ==> self.spawn_at(
                    (#[trigger] points@[i]).0 as int,
                    points@[i].1 as int,
                ),
            forall|x: int, y: int|
                self.spawn_at(x, y) ==> points@.contains((x as usize, y as usize)),
            forall|i: int, j: int|
                0 <= i < j < points@.len() ==> (#[trigger] points@[i]).1 * self.width + points@[i].0
                    < (#[trigger] points@[j]).1 * self.width + points@[j].0,
    {
        let mut points: Vec<(usize, usize)> = Vec::new();
        let mut y: usize = 0;
        while y < self.height
            invariant
                self.wf(),
                y <= self.height,
                forall|i: int|
                    0 <= i < points@.len() ==> self.spawn_at(
                        (#[trigger] points@[i]).0 as int,
                        points@[i].1 as int,
                    ),
                forall|xx: int, yy: int|
                    self.spawn_at(xx, yy) && yy < y ==> points@.contains((xx as usize, yy as usize)),
                forall|i: int|
                    0 <= i < points@.len() ==> (#[trigger] points@[i]).1 < y,
                forall|i: int, j: int|
                    0 <= i < j < points@.len() ==> (#[trigger] points@[i]).1 * self.width
                        + points@[i].0 < (#[trigger] points@[j]).1 * self.width + points@[j].0,
            decreases self.height - y,
        {
            let mut x: usize = 0;
            while x < self.width
                invariant
                    self.wf(),
                    y < self.height,
                    x <= self.width,
                    forall|i: int|
                        0 <= i < points@.len() ==> self.spawn_at(
                            (#[trigger] points@[i]).0 as int,
                            points@[i].1 as int,
                        ),
                    forall|xx: int, yy: int|
                        self.spawn_at(xx, yy) && (yy < y || (yy == y && xx < x))
                            ==> points@.contains((xx as usize, yy as usize)),
                    forall|i: int|
                        0 <= i < points@.len() ==> ((#[trigger] points@[i]).1 < y || (
                        points@[i].1 == y && points@[i].0 < x)),
                    forall|i: int, j: int|
                        0 <= i < j < points@.len() ==> (#[trigger] points@[i]).1 * self.width
                            + points@[i].0 < (#[trigger] points@[j]).1 * self.width + points@[j].0,
                decreases self.width - x,
            {
                let c = self.cells[y][x];
                let ghost pre = points@;
                if matches!(c.cell_type, CellType::SpawnPoint) {
                    points.push((x, y));
                    proof {
                        assert forall|i: int, j: int| 0 <= i < j < points@.len() implies (
                        #[trigger] points@[i]).1 * self.width + points@[i].0 < (
                        #[trigger] points@[j]).1 * self.width + points@[j].0 by {
                            if j == points@.len() - 1 {
                                let p = points@[i];
                                assert(p == pre[i]);
                                assert(self.spawn_at(p.0 as int, p.1 as int));
                                if p.1 < y {
                                    vstd::arithmetic::mul::lemma_mul_is_distributive_add_other_way(
                                        self.width as int,
                                        p.1 as int,
                                        1,
                                    );
                                    vstd::arithmetic::mul::lemma_mul_inequality(
                                        p.1 as int + 1,
                                        y as int,
                                        self.width as int,
                                    );
                                }
                            } else {
                                assert(points@[i] == pre[i] && points@[j] == pre[j]);
                            }
                        }
                        assert forall|xx: int, yy: int|
                            self.spawn_at(xx, yy) && (yy < y || (yy == y && xx < x + 1)) implies
                        points@.contains((xx as usize, yy as usize)) by {
                            if yy == y && xx == x {
                                assert(points@[points@.len() - 1] == (xx as usize, yy as usize));
                            } else {
                                assert(pre.contains((xx as usize, yy as usize)));
                                let k = choose|k: int|
                                    0 <= k < pre.len() && pre[k] == (xx as usize, yy as usize);
                                assert(points@[k] == (xx as usize, yy as usize));
                            }
                        }
                    }
                } else {
                    proof {
                        assert(!self.spawn_at(x as int, y as int));
                        assert forall|xx: int, yy: int|
                            self.spawn_at(xx, yy) && (yy < y || (yy == y && xx < x + 1)) implies
                        points@.contains((xx as usize, yy as usize)) by {
                            assert(pre.contains((xx as usize, yy as usize)));
                        }
                    }
                }
                x += 1;
            }
            y += 1;
        }
        points
    }
}

} // verus!
