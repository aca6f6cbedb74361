//! Discrete route planning: A* search over the 4-connected grid, with unit
//! edge cost and the Manhattan distance to the goal as the heuristic.

use vstd::prelude::*;
use crate::grid::{MAX_GRID_DIM, WarehouseGrid};

verus! {

/// Distance between two integers, used pointwise by the Manhattan metric.
pub open spec fn abs_diff(x: int, y: int) -> int {
    if x >= y {
        x - y
    } else {
        y - x
    }
}

/// Manhattan distance between two cells.
pub open spec fn manhattan(a: (usize, usize), b: (usize, usize)) -> int {
    abs_diff(a.0 as int, b.0 as int) + abs_diff(a.1 as int, b.1 as int)
}

/// Two cells differ by exactly one step up, down, left or right.
pub open spec fn cardinal_step(a: (usize, usize), b: (usize, usize)) -> bool {
    ||| a.0 == b.0 && a.1 + 1 == b.1
    ||| a.0 == b.0 && b.1 + 1 == a.1
    ||| a.1 == b.1 && a.0 + 1 == b.0
    ||| a.1 == b.1 && b.0 + 1 == a.0
}

/// Every cell of the sequence is in bounds and free of obstacles.
pub open spec fn path_cells_clear(grid: WarehouseGrid, p: Seq<(usize, usize)>) -> bool {
    forall|i: int|
        0 <= i < p.len() ==> !grid.obstacle_at((#[trigger] p[i]).0 as int, p[i].1 as int)
}

/// A traversable route: non-empty, starting at `start`, ending at `goal`,
/// clear of obstacles, and moving one cardinal step at a time.
pub open spec fn valid_path(
    grid: WarehouseGrid,
    p: Seq<(usize, usize)>,
    start: (usize, usize),
    goal: (usize, usize),
) -> bool {
    &&& p.len() >= 1
    &&& p[0] == start
    &&& p[p.len() - 1] == goal
    &&& path_cells_clear(grid, p)
    &&& forall|i: int| 0 <= i < p.len() - 1 ==> cardinal_step(#[trigger] p[i], p[i + 1])
}

/// One frontier entry of the search: a cell, the cost spent reaching it, the
/// heuristic-augmented priority, and the route that reached it.
struct Node {
    x: usize,
    y: usize,
    g: usize,
    f: usize,
    path: Vec<(usize, usize)>,
}

/// Internal consistency of a frontier entry.
spec fn node_ok(grid: WarehouseGrid, start: (usize, usize), goal: (usize, usize), n: Node) -> bool {
    &&& valid_path(grid, n.path@, start, (n.x, n.y))
    &&& n.path@.len() == n.g + 1
    &&& n.f == n.g + manhattan((n.x, n.y), goal)
}

/// Row-major index of a cell, the key of the settled set.
spec fn flat_idx(grid: WarehouseGrid, c: (usize, usize)) -> int {
    c.1 as int * grid.width as int + c.0 as int
}

/// Some frontier entry sits at cell `c` with cost at most `g`.
spec fn in_open_g(open: Seq<Node>, c: (usize, usize), g: int) -> bool {
    exists|k: int|
        0 <= k < open.len() && ((#[trigger] open[k]).x, open[k].y) == c && open[k].g <= g
}

/// Every settled cell was settled at a cost no larger than any route that
/// reaches it.
spec fn settled_optimal(
    grid: WarehouseGrid,
    vset: Set<int>,
    gmap: Map<int, int>,
    start: (usize, usize),
) -> bool {
    forall|q: Seq<(usize, usize)>, v: (usize, usize)|
        (grid.in_bounds(v.0 as int, v.1 as int) && vset.contains(flat_idx(grid, v))
            && #[trigger] valid_path(grid, q, start, v)) ==> gmap[flat_idx(grid, v)] <= q.len() - 1
}

/// Every reachable cell one cardinal step outside the settled region is on
/// the frontier at a cost of at most one more than its settled neighbour.
spec fn frontier_costs(
    grid: WarehouseGrid,
    vset: Set<int>,
    gmap: Map<int, int>,
    open: Seq<Node>,
) -> bool {
    forall|u: (usize, usize), v: (usize, usize)|
        (grid.in_bounds(u.0 as int, u.1 as int) && !grid.obstacle_at(u.0 as int, u.1 as int)
            && !vset.contains(flat_idx(grid, u)) && grid.in_bounds(v.0 as int, v.1 as int)
            && vset.contains(flat_idx(grid, v)) && #[trigger] cardinal_step(v, u)) ==> in_open_g(
            open,
            u,
            gmap[flat_idx(grid, v)] + 1,
        )
}

proof fn lemma_area_bound(w: int, h: int)
    requires
        0 <= w <= MAX_GRID_DIM,
        0 <= h <= MAX_GRID_DIM,
    ensures
        0 <= w * h <= MAX_GRID_DIM * MAX_GRID_DIM,
{
    vstd::arithmetic::mul::lemma_mul_inequality(w, MAX_GRID_DIM as int, h);
    vstd::arithmetic::mul::lemma_mul_inequality(h, MAX_GRID_DIM as int, MAX_GRID_DIM as int);
    vstd::arithmetic::mul::lemma_mul_is_commutative(MAX_GRID_DIM as int, h);
    vstd::arithmetic::mul::lemma_mul_nonnegative(w, h);
}

/// Distinct in-bounds cells have distinct row-major indices.
proof fn lemma_flat_index_injective(w: int, x1: int, y1: int, x2: int, y2: int)
    requires
        0 <= x1 < w,
        0 <= x2 < w,
        0 <= y1,
        0 <= y2,
    ensures
        (x1, y1) != (x2, y2) ==> y1 * w + x1 != y2 * w + x2,
{
    if y1 < y2 {
        vstd::arithmetic::mul::lemma_mul_is_distributive_add_other_way(w, y1, 1);
        vstd::arithmetic::mul::lemma_mul_inequality(y1 + 1, y2, w);
    } else if y2 < y1 {
        vstd::arithmetic::mul::lemma_mul_is_distributive_add_other_way(w, y2, 1);
        vstd::arithmetic::mul::lemma_mul_inequality(y2 + 1, y1, w);
    }
}

/// A cardinal path is at least as long as the Manhattan distance between its
/// endpoints.
proof fn lemma_manhattan_le_path(p: Seq<(usize, usize)>)
    requires
        p.len() >= 1,
        forall|i: int| 0 <= i < p.len() - 1 ==> cardinal_step(#[trigger] p[i], p[i + 1]),
    ensures
        manhattan(p[0], p[p.len() - 1]) <= p.len() - 1,
    decreases p.len(),
{
    if p.len() > 1 {
        let q = p.drop_first();
        assert(forall|i: int| 0 <= i < q.len() ==> #[trigger] q[i] == p[i + 1]);
        assert(forall|i: int| 0 <= i < q.len() - 1 ==> cardinal_step(#[trigger] q[i], q[i + 1]));
        lemma_manhattan_le_path(q);
        assert(cardinal_step(p[0], p[1]));
    }
}

/// The first cell of the path that is not yet settled; it exists because the
/// last cell is not.
proof fn first_unsettled(grid: WarehouseGrid, vset: Set<int>, q: Seq<(usize, usize)>) -> (j: int)
    requires
        q.len() >= 1,
        !vset.contains(flat_idx(grid, q[q.len() - 1])),
    ensures
        0 <= j < q.len(),
        !vset.contains(flat_idx(grid, q[j])),
        forall|i: int| 0 <= i < j ==> vset.contains(flat_idx(grid, #[trigger] q[i])),
    decreases q.len(),
{
    if !vset.contains(flat_idx(grid, q[0])) {
        0
    } else {
        let r = q.drop_first();
        assert(forall|i: int| 0 <= i < r.len() ==> #[trigger] r[i] == q[i + 1]);
        let j0 = first_unsettled(grid, vset, r);
        assert forall|i: int| 0 <= i < j0 + 1 implies vset.contains(
            flat_idx(grid, #[trigger] q[i]),
        ) by {
            if i > 0 {
                assert(vset.contains(flat_idx(grid, r[i - 1])));
            }
        }
        j0 + 1
    }
}

/// Every prefix of a traversable route is a traversable route.
proof fn lemma_path_prefix(
    grid: WarehouseGrid,
    q: Seq<(usize, usize)>,
    start: (usize, usize),
    goal: (usize, usize),
    j: int,
)
    requires
        valid_path(grid, q, start, goal),
        0 <= j < q.len(),
    ensures
        valid_path(grid, q.subrange(0, j + 1), start, q[j]),
{
    let pre = q.subrange(0, j + 1);
    assert(forall|i: int| 0 <= i < pre.len() ==> #[trigger] pre[i] == q[i]);
    assert(path_cells_clear(grid, pre));
    assert(forall|i: int| 0 <= i < pre.len() - 1 ==> cardinal_step(#[trigger] pre[i], pre[i + 1]));
}

/// A frontier membership with its cost bound survives appending entries.
proof fn lemma_in_open_g_extend(a: Seq<Node>, b: Seq<Node>, c: (usize, usize), g: int)
    requires
        in_open_g(a, c, g),
        b.len() >= a.len(),
        forall|j: int| 0 <= j < a.len() ==> #[trigger] b[j] == a[j],
    ensures
        in_open_g(b, c, g),
{
    let k = choose|k: int|
        0 <= k < a.len() && ((#[trigger] a[k]).x, a[k].y) == c && a[k].g <= g;
    assert(b[k] == a[k]);
}

/// When the settled region has no reachable cell left on its border, a clear
/// cardinal path that starts inside it also ends inside it.
proof fn lemma_settled_region_closed(grid: WarehouseGrid, vset: Set<int>, p: Seq<(usize, usize)>)
    requires
        forall|u: (usize, usize), v: (usize, usize)|
            (grid.in_bounds(u.0 as int, u.1 as int) && !grid.obstacle_at(u.0 as int, u.1 as int)
                && grid.in_bounds(v.0 as int, v.1 as int) && vset.contains(flat_idx(grid, v))
                && #[trigger] cardinal_step(v, u)) ==> vset.contains(flat_idx(grid, u)),
        p.len() >= 1,
        path_cells_clear(grid, p),
        forall|i: int| 0 <= i < p.len() - 1 ==> cardinal_step(#[trigger] p[i], p[i + 1]),
        vset.contains(flat_idx(grid, p[0])),
    ensures
        vset.contains(flat_idx(grid, p[p.len() - 1])),
    decreases p.len(),
{
    if p.len() > 1 {
        assert(!grid.obstacle_at(p[0].0 as int, p[0].1 as int));
        assert(!grid.obstacle_at(p[1].0 as int, p[1].1 as int));
        assert(cardinal_step(p[0], p[1]));
        assert(vset.contains(flat_idx(grid, p[1])));
        let q = p.drop_first();
        assert(forall|i: int| 0 <= i < q.len() ==> #[trigger] q[i] == p[i + 1]);
        assert(path_cells_clear(grid, q));
        assert(forall|i: int| 0 <= i < q.len() - 1 ==> cardinal_step(#[trigger] q[i], q[i + 1]));
        lemma_settled_region_closed(grid, vset, q);
    }
}

/// The entry about to be settled, picked for its minimal priority, costs no
/// more than any route that reaches its cell: the first unsettled cell of
/// such a route sits on the frontier at a cost that, together with the
/// Manhattan heuristic, bounds the picked priority from below.
proof fn lemma_pop_optimal(
    grid: WarehouseGrid,
    vset: Set<int>,
    gmap: Map<int, int>,
    open_head: Seq<Node>,
    best: int,
    start: (usize, usize),
    end: (usize, usize),
    q: Seq<(usize, usize)>,
)
    requires
        grid.wf(),
        0 <= best < open_head.len(),
        forall|t: int|
            0 <= t < open_head.len() ==> open_head[best].f <= (#[trigger] open_head[t]).f,
        forall|k: int| 0 <= k < open_head.len() ==> node_ok(grid, start, end, #[trigger] open_head[k]),
        vset.contains(flat_idx(grid, start)) || in_open_g(open_head, start, 0),
        frontier_costs(grid, vset, gmap, open_head),
        settled_optimal(grid, vset, gmap, start),
        valid_path(grid, q, start, (open_head[best].x, open_head[best].y)),
        !vset.contains(flat_idx(grid, (open_head[best].x, open_head[best].y))),
    ensures
        open_head[best].g <= q.len() - 1,
{
    let m = open_head[best];
    let mc = (m.x, m.y);
    let len = q.len() as int;
    let j = first_unsettled(grid, vset, q);
    let suf = q.subrange(j, len);
    assert(forall|i: int| 0 <= i < suf.len() ==> #[trigger] suf[i] == q[j + i]);
    assert(forall|i: int| 0 <= i < suf.len() - 1 ==> cardinal_step(#[trigger] suf[i], suf[i + 1]));
    lemma_manhattan_le_path(suf);
    assert(manhattan(q[j], mc) <= len - 1 - j);
    assert(manhattan(q[j], end) <= manhattan(q[j], mc) + manhattan(mc, end));
    if j == 0 {
        assert(!vset.contains(flat_idx(grid, start)));
        let k = choose|k: int|
            0 <= k < open_head.len() && ((#[trigger] open_head[k]).x, open_head[k].y) == start
                && open_head[k].g <= 0;
        let n = open_head[k];
        assert(node_ok(grid, start, end, n));
        assert(n.f <= manhattan(start, end));
        assert(m.f <= n.f);
        assert(m.f == m.g + manhattan(mc, end));
        assert(manhattan(start, end) == manhattan(q[0], end));
        assert(m.g <= len - 1);
    } else {
        let v = q[j - 1];
        let u = q[j];
        assert(vset.contains(flat_idx(grid, v)));
        assert(!grid.obstacle_at(u.0 as int, u.1 as int));
        assert(!grid.obstacle_at(v.0 as int, v.1 as int));
        assert(cardinal_step(v, u));
        assert(in_open_g(open_head, u, gmap[flat_idx(grid, v)] + 1));
        lemma_path_prefix(grid, q, start, mc, j - 1);
        assert(gmap[flat_idx(grid, v)] <= (j + 1) - 1 - 1) by {
            assert(valid_path(grid, q.subrange(0, j), start, v));
            assert(q.subrange(0, j).len() == j);
        }
        let k = choose|k: int|
            0 <= k < open_head.len() && ((#[trigger] open_head[k]).x, open_head[k].y) == u
                && open_head[k].g <= gmap[flat_idx(grid, v)] + 1;
        let n = open_head[k];
        assert(node_ok(grid, start, end, n));
        assert(n.g <= j);
        assert(n.f == n.g + manhattan(u, end));
        assert(n.f <= len - 1 + manhattan(mc, end));
        assert(m.f <= n.f);
        assert(m.f == m.g + manhattan(mc, end));
        assert(m.g <= len - 1);
    }
}

/// `b` extends `a` by appending entries at the end.
spec fn extends(a: Seq<Node>, b: Seq<Node>) -> bool {
    b.len() >= a.len() && forall|j: int| 0 <= j < a.len() ==> #[trigger] b[j] == a[j]
}

/// After settling cell `c` and offering each of its eligible neighbours to
/// the frontier, the frontier again covers the border of the settled region
/// within the cost bounds, and the start is still settled or on the frontier
/// at cost zero.
#[verifier::rlimit(100)]
proof fn lemma_restore_frontier(
    grid: WarehouseGrid,
    vold: Set<int>,
    vset: Set<int>,
    gold: Map<int, int>,
    gnew: Map<int, int>,
    node_g: int,
    c: (usize, usize),
    open_head: Seq<Node>,
    open_rm: Seq<Node>,
    open1: Seq<Node>,
    open2: Seq<Node>,
    open3: Seq<Node>,
    openf: Seq<Node>,
    best: int,
    visited: Seq<bool>,
    start: (usize, usize),
)
    requires
        grid.wf(),
        grid.in_bounds(c.0 as int, c.1 as int),
        !vold.contains(flat_idx(grid, c)),
        vset == vold.insert(flat_idx(grid, c)),
        gnew == gold.insert(flat_idx(grid, c), node_g),
        visited.len() == grid.width * grid.height,
        forall|t: int|
            0 <= t < grid.width * grid.height ==> ((#[trigger] visited[t]) <==> vset.contains(t)),
        frontier_costs(grid, vold, gold, open_head),
        vold.contains(flat_idx(grid, start)) || in_open_g(open_head, start, 0),
        0 <= best < open_head.len(),
        ((open_head[best]).x, open_head[best].y) == c,
        open_rm == open_head.remove(best),
        extends(open_rm, open1),
        extends(open1, open2),
        extends(open2, open3),
        extends(open3, openf),
        c.0 + 1 < grid.width ==> ((!visited[flat_idx(grid, ((c.0 + 1) as usize, c.1))]
            && !grid.obstacle_at(c.0 + 1, c.1 as int)) ==> in_open_g(
            open1,
            ((c.0 + 1) as usize, c.1),
            node_g + 1,
        )),
        c.0 > 0 ==> ((!visited[flat_idx(grid, ((c.0 - 1) as usize, c.1))] && !grid.obstacle_at(
            c.0 - 1,
            c.1 as int,
        )) ==> in_open_g(open2, ((c.0 - 1) as usize, c.1), node_g + 1)),
        c.1 + 1 < grid.height ==> ((!visited[flat_idx(grid, (c.0, (c.1 + 1) as usize))]
            && !grid.obstacle_at(c.0 as int, c.1 + 1)) ==> in_open_g(
            open3,
            (c.0, (c.1 + 1) as usize),
            node_g + 1,
        )),
        c.1 > 0 ==> ((!visited[flat_idx(grid, (c.0, (c.1 - 1) as usize))] && !grid.obstacle_at(
            c.0 as int,
            c.1 - 1,
        )) ==> in_open_g(openf, (c.0, (c.1 - 1) as usize), node_g + 1)),
    ensures
        frontier_costs(grid, vset, gnew, openf),
        vset.contains(flat_idx(grid, start)) || in_open_g(openf, start, 0),
{
    assert forall|u: (usize, usize), v: (usize, usize)|
        (grid.in_bounds(u.0 as int, u.1 as int) && !grid.obstacle_at(u.0 as int, u.1 as int)
            && !vset.contains(flat_idx(grid, u)) && grid.in_bounds(v.0 as int, v.1 as int)
            && vset.contains(flat_idx(grid, v)) && #[trigger] cardinal_step(v, u)) implies in_open_g(
        openf,
        u,
        gnew[flat_idx(grid, v)] + 1,
    ) by {
        lemma_flat_index(u.0 as int, u.1 as int, grid.width as int, grid.height as int);
        if v == c {
            assert(!visited[flat_idx(grid, u)]);
            assert(gnew[flat_idx(grid, c)] == node_g);
            if u.1 == c.1 && c.0 + 1 == u.0 {
                assert(u == ((c.0 + 1) as usize, c.1));
                assert(in_open_g(open1, u, node_g + 1));
                lemma_in_open_g_extend(open1, open2, u, node_g + 1);
                lemma_in_open_g_extend(open2, open3, u, node_g + 1);
                lemma_in_open_g_extend(open3, openf, u, node_g + 1);
            } else if u.1 == c.1 && u.0 + 1 == c.0 {
                assert(u == ((c.0 - 1) as usize, c.1));
                assert(in_open_g(open2, u, node_g + 1));
                lemma_in_open_g_extend(open2, open3, u, node_g + 1);
                lemma_in_open_g_extend(open3, openf, u, node_g + 1);
            } else if u.0 == c.0 && c.1 + 1 == u.1 {
                assert(u == (c.0, (c.1 + 1) as usize));
                assert(in_open_g(open3, u, node_g + 1));
                lemma_in_open_g_extend(open3, openf, u, node_g + 1);
            } else {
                assert(u.0 == c.0 && u.1 + 1 == c.1);
                assert(u == (c.0, (c.1 - 1) as usize));
                assert(in_open_g(openf, u, node_g + 1));
            }
        } else {
            lemma_flat_index_injective(
                grid.width as int,
                v.0 as int,
                v.1 as int,
                c.0 as int,
                c.1 as int,
            );
            assert(vold.contains(flat_idx(grid, v)));
            assert(!vold.contains(flat_idx(grid, u)));
            assert(gnew[flat_idx(grid, v)] == gold[flat_idx(grid, v)]);
            assert(in_open_g(open_head, u, gold[flat_idx(grid, v)] + 1));
            let j = choose|j: int|
                0 <= j < open_head.len() && ((#[trigger] open_head[j]).x, open_head[j].y) == u
                    && open_head[j].g <= gold[flat_idx(grid, v)] + 1;
            assert(u != c);
            assert(j != best);
            if j < best {
                assert(open_rm[j] == open_head[j]);
            } else {
                assert(open_rm[j - 1] == open_head[j]);
            }
            assert(in_open_g(open_rm, u, gold[flat_idx(grid, v)] + 1));
            lemma_in_open_g_extend(open_rm, open1, u, gold[flat_idx(grid, v)] + 1);
            lemma_in_open_g_extend(open1, open2, u, gold[flat_idx(grid, v)] + 1);
            lemma_in_open_g_extend(open2, open3, u, gold[flat_idx(grid, v)] + 1);
            lemma_in_open_g_extend(open3, openf, u, gold[flat_idx(grid, v)] + 1);
        }
    }
    if !vset.contains(flat_idx(grid, start)) {
        assert(!vold.contains(flat_idx(grid, start)));
        assert(in_open_g(open_head, start, 0));
        let j = choose|j: int|
            0 <= j < open_head.len() && ((#[trigger] open_head[j]).x, open_head[j].y) == start
                && open_head[j].g <= 0;
        assert(start != c);
        assert(j != best);
        if j < best {
            assert(open_rm[j] == open_head[j]);
        } else {
            assert(open_rm[j - 1] == open_head[j]);
        }
        assert(in_open_g(open_rm, start, 0));
        lemma_in_open_g_extend(open_rm, open1, start, 0);
        lemma_in_open_g_extend(open1, open2, start, 0);
        lemma_in_open_g_extend(open2, open3, start, 0);
        lemma_in_open_g_extend(open3, openf, start, 0);
    }
}

/// Row-major flattening stays inside `[0, w * h)`.
proof fn lemma_flat_index(x: int, y: int, w: int, h: int)
    requires
        0 <= x < w,
        0 <= y < h,
    ensures
        0 <= y * w + x < w * h,
{
    vstd::arithmetic::mul::lemma_mul_is_distributive_add_other_way(w, y, 1);
    vstd::arithmetic::mul::lemma_mul_inequality(y + 1, h, w);
    vstd::arithmetic::mul::lemma_mul_is_commutative(w, h);
    vstd::arithmetic::mul::lemma_mul_nonnegative(y, w);
}

fn manhattan_dist(x: usize, y: usize, gx: usize, gy: usize) -> (d: usize)
    requires
        x <= MAX_GRID_DIM,
        y <= MAX_GRID_DIM,
        gx <= MAX_GRID_DIM,
        gy <= MAX_GRID_DIM,
    ensures
        d == manhattan((x, y), (gx, gy)),
{
    let dx = if x >= gx {
        x - gx
    } else {
        gx - x
    };
    let dy = if y >= gy {
        y - gy
    } else {
        gy - y
    };
    dx + dy
}

fn copy_path(src: &Vec<(usize, usize)>) -> (out: Vec<(usize, usize)>)
    ensures
        out@ == src@,
{
    let mut out: Vec<(usize, usize)> = Vec::new();
    let mut i: usize = 0;
    while i < src.len()
        invariant
            i <= src@.len(),
            out@ == src@.subrange(0, i as int),
        decreases src@.len() - i,
    {
        let e = src[i];
        out.push(e);
        proof {
            assert(src@.subrange(0, i + 1 as int) =~= src@.subrange(0, i as int).push(
                src@[i as int],
            ));
        }
        i += 1;
    }
    proof {
        assert(out@ =~= src@);
    }
    out
}

/// Appends to the frontier the neighbour `(nx, ny)` of the just-settled
/// `node`, unless that cell is already settled or blocked.
fn expand_neighbor(
    grid: &WarehouseGrid,
    start: (usize, usize),
    end: (usize, usize),
    node: &Node,
    nx: usize,
    ny: usize,
    visited: &Vec<bool>,
    open: &mut Vec<Node>,
    visited_count: usize,
)
    requires
        grid.wf(),
        grid.in_bounds(nx as int, ny as int),
        node_ok(*grid, start, end, *node),
        grid.in_bounds(end.0 as int, end.1 as int),
        cardinal_step((node.x, node.y), (nx, ny)),
        node.g < visited_count,
        visited_count <= grid.width * grid.height,
        visited@.len() == grid.width * grid.height,
        forall|k: int|
            0 <= k < old(open)@.len() ==> node_ok(*grid, start, end, #[trigger] old(open)@[k]),
        forall|k: int| 0 <= k < old(open)@.len() ==> (#[trigger] old(open)@[k]).g <= visited_count,
    ensures
        forall|k: int| 0 <= k < old(open)@.len() ==> #[trigger] final(open)@[k] == old(open)@[k],
        final(open)@.len() >= old(open)@.len(),
        forall|k: int|
            0 <= k < final(open)@.len() ==> node_ok(*grid, start, end, #[trigger] final(open)@[k]),
        forall|k: int| 0 <= k < final(open)@.len() ==> (#[trigger] final(open)@[k]).g <= visited_count,
        (!visited@[flat_idx(*grid, (nx, ny))] && !grid.obstacle_at(nx as int, ny as int))
            ==> in_open_g(final(open)@, (nx, ny), node.g + 1),
{
    proof {
        lemma_flat_index(nx as int, ny as int, grid.width as int, grid.height as int);
        lemma_area_bound(grid.width as int, grid.height as int);
    }
    let nidx = ny * grid.width + nx;
    if !visited[nidx] && !grid.is_obstacle(nx, ny) {
        let mut npath = copy_path(&node.path);
        npath.push((nx, ny));
        let nh = manhattan_dist(nx, ny, end.0, end.1);
        let ng = node.g + 1;
        let nf = ng + nh;
        proof {
            assert(cardinal_step((node.x, node.y), (nx, ny)));
            assert(valid_path(*grid, npath@, start, (nx, ny)));
        }
        open.push(Node { x: nx, y: ny, g: ng, f: nf, path: npath });
        proof {
            assert(((open@[open@.len() - 1]).x, open@[open@.len() - 1].y) == (nx, ny));
            assert(open@[open@.len() - 1].g == node.g + 1);
        }
    }
}

/// A* search from `start` to `end`. Returns a shortest route, both endpoints
/// included, exactly when one exists; `None` when an endpoint is blocked or
/// the goal is cut off.
#[verifier::rlimit(60)]
#[verifier::loop_isolation(false)]
pub fn find_path(grid: &WarehouseGrid, start: (usize, usize), end: (usize, usize)) -> (result:
    Option<Vec<(usize, usize)>>)
    requires
        grid.wf(),
    ensures
        result matches Some(p) ==> valid_path(*grid, p@, start, end),
        grid.obstacle_at(start.0 as int, start.1 as int) || grid.obstacle_at(
            end.0 as int,
            end.1 as int,
        ) ==> result is None,
        start == end && !grid.obstacle_at(start.0 as int, start.1 as int) ==> (result matches Some(
            p,
        ) && p@.len() == 1),
        !(exists|p: Seq<(usize, usize)>| valid_path(*grid, p, start, end)) ==> result is None,
        result is None ==> !(exists|p: Seq<(usize, usize)>| valid_path(*grid, p, start, end)),
        result matches Some(p) ==> (forall|q: Seq<(usize, usize)>|
            valid_path(*grid, q, start, end) ==> p@.len() <= q.len()),
{
    if grid.is_obstacle(start.0, start.1) || grid.is_obstacle(end.0, end.1) {
        proof {
            assert forall|p: Seq<(usize, usize)>| !valid_path(*grid, p, start, end) by {
                if valid_path(*grid, p, start, end) {
                    assert(!grid.obstacle_at((p[0]).0 as int, (p[0]).1 as int));
                    assert(!grid.obstacle_at((p[p.len() - 1]).0 as int, (p[p.len() - 1]).1 as int));
                }
            }
        }
        return None;
    }
    if start.0 == end.0 && start.1 == end.1 {
        let mut p: Vec<(usize, usize)> = Vec::new();
        p.push(start);
        proof {
            assert(valid_path(*grid, p@, start, end));
        }
        return Some(p);
    }
    let width = grid.width;
    let height = grid.height;
    proof {
        lemma_area_bound(width as int, height as int);
    }
    let area = width * height;

    let mut visited: Vec<bool> = Vec::new();
    let mut i: usize = 0;
    while i < area
        invariant
            i <= area,
            visited@.len() == i,
            forall|t: int| 0 <= t < i ==> !(#[trigger] visited@[t]),
        decreases area - i,
    {
        visited.push(false);
        i += 1;
    }
    let mut visited_count: usize = 0;
    let ghost mut vset: Set<int> = Set::empty();
    let ghost mut gmap: Map<int, int> = Map::empty();

    let mut open: Vec<Node> = Vec::new();
    let mut start_path: Vec<(usize, usize)> = Vec::new();
    start_path.push(start);
    let h0 = manhattan_dist(start.0, start.1, end.0, end.1);
    open.push(Node { x: start.0, y: start.1, g: 0, f: h0, path: start_path });

    proof {
        assert(((open@[0]).x, open@[0].y) == start);
        assert(open@[0].g <= 0);
    }
    while open.len() > 0
        invariant
            visited@.len() == area,
            vset.finite(),
            vset.len() == visited_count,
            forall|t: int| vset.contains(t) ==> 0 <= t < area,
            forall|t: int| 0 <= t < area ==> ((#[trigger] visited@[t]) <==> vset.contains(t)),
            visited_count <= area,
            forall|k: int| 0 <= k < open@.len() ==> node_ok(*grid, start, end, #[trigger] open@[k]),
            forall|k: int| 0 <= k < open@.len() ==> (#[trigger] open@[k]).g <= visited_count,
            frontier_costs(*grid, vset, gmap, open@),
            settled_optimal(*grid, vset, gmap, start),
            vset.contains(flat_idx(*grid, start)) || in_open_g(open@, start, 0),
            !vset.contains(flat_idx(*grid, end)),
        decreases area - visited_count, open@.len(),
    {
        let ghost open_head = open@;
        let ghost vset_head = vset;
        let ghost gmap_head = gmap;
        let mut best: usize = 0;
        let mut k: usize = 1;
        while k < open.len()
            invariant
                best < open@.len(),
                k <= open@.len(),
                forall|t: int| 0 <= t < k ==> open@[best as int].f <= (#[trigger] open@[t]).f,
            decreases open@.len() - k,
        {
            if open[k].f < open[best].f {
                best = k;
            }
            k += 1;
        }
        let node = open.remove(best);
        let ghost open_rm = open@;
        proof {
            assert(node_ok(*grid, start, end, node));
            assert(!grid.obstacle_at(node.x as int, node.y as int));
            lemma_flat_index(node.x as int, node.y as int, width as int, height as int);
        }
        let idx = node.y * width + node.x;
        let ghost c = (node.x, node.y);
        if visited[idx] {
            proof {
                assert(vset.contains(flat_idx(*grid, c)));
                assert forall|u: (usize, usize), v: (usize, usize)|
                    (grid.in_bounds(u.0 as int, u.1 as int) && !grid.obstacle_at(
                        u.0 as int,
                        u.1 as int,
                    ) && !vset.contains(flat_idx(*grid, u)) && grid.in_bounds(
                        v.0 as int,
                        v.1 as int,
                    ) && vset.contains(flat_idx(*grid, v)) && #[trigger] cardinal_step(
                        v,
                        u,
                    )) implies in_open_g(open@, u, gmap[flat_idx(*grid, v)] + 1) by {
                    assert(in_open_g(open_head, u, gmap[flat_idx(*grid, v)] + 1));
                    let j = choose|j: int|
                        0 <= j < open_head.len() && ((#[trigger] open_head[j]).x,
                        open_head[j].y) == u && open_head[j].g <= gmap[flat_idx(*grid, v)] + 1;
                    assert(u != c);
                    assert(j != best);
                    if j < best {
                        assert(open_rm[j] == open_head[j]);
                    } else {
                        assert(open_rm[j - 1] == open_head[j]);
                    }
                }
                assert(vset.contains(flat_idx(*grid, start)) || in_open_g(open@, start, 0)) by {
                    if !vset.contains(flat_idx(*grid, start)) {
                        assert(in_open_g(open_head, start, 0));
                        let j = choose|j: int|
                            0 <= j < open_head.len() && ((#[trigger] open_head[j]).x,
                            open_head[j].y) == start && open_head[j].g <= 0;
                        assert(start != c);
                        assert(j != best);
                        if j < best {
                            assert(open_rm[j] == open_head[j]);
                        } else {
                            assert(open_rm[j - 1] == open_head[j]);
                        }
                    }
                }
            }
            continue;
        }
        proof {
            assert(!vset.contains(idx as int));
            vstd::set_lib::lemma_int_range(0, area as int);
            assert(vset.insert(idx as int).subset_of(vstd::set_lib::set_int_range(0, area as int)));
            vstd::set_lib::lemma_len_subset(
                vset.insert(idx as int),
                vstd::set_lib::set_int_range(0, area as int),
            );
            vstd::set::axiom_set_insert_len(vset, idx as int);
            vset = vset.insert(idx as int);
            gmap = gmap.insert(idx as int, node.g as int);
        }
        visited[idx] = true;
        visited_count += 1;

        if node.x == end.0 && node.y == end.1 {
            proof {
                assert(valid_path(*grid, node.path@, start, end));
                assert forall|q: Seq<(usize, usize)>|
                    valid_path(*grid, q, start, end) implies node.path@.len() <= q.len() by {
                    lemma_pop_optimal(
                        *grid,
                        vset_head,
                        gmap_head,
                        open_head,
                        best as int,
                        start,
                        end,
                        q,
                    );
                }
            }
            return Some(node.path);
        }
        proof {
            assert(c != end);
            lemma_flat_index_injective(
                width as int,
                node.x as int,
                node.y as int,
                end.0 as int,
                end.1 as int,
            );
            assert(!vset.contains(flat_idx(*grid, end)));
            assert forall|q: Seq<(usize, usize)>, v: (usize, usize)|
                (grid.in_bounds(v.0 as int, v.1 as int) && vset.contains(flat_idx(*grid, v))
                    && #[trigger] valid_path(*grid, q, start, v)) implies gmap[flat_idx(*grid, v)]
                <= q.len() - 1 by {
                if v == c {
                    assert(gmap[flat_idx(*grid, c)] == node.g as int);
                    lemma_pop_optimal(
                        *grid,
                        vset_head,
                        gmap_head,
                        open_head,
                        best as int,
                        start,
                        end,
                        q,
                    );
                } else {
                    lemma_flat_index_injective(
                        width as int,
                        v.0 as int,
                        v.1 as int,
                        c.0 as int,
                        c.1 as int,
                    );
                    assert(vset_head.contains(flat_idx(*grid, v)));
                    assert(gmap[flat_idx(*grid, v)] == gmap_head[flat_idx(*grid, v)]);
                }
            }
        }
        // Expand the four cardinal neighbours that are in bounds, clear of
        // obstacles, and not yet settled.
        if node.x + 1 < width {
            expand_neighbor(grid, start, end, &node, node.x + 1, node.y, &visited, &mut open, visited_count);
        }
        let ghost open1 = open@;
        if node.x > 0 {
            expand_neighbor(grid, start, end, &node, node.x - 1, node.y, &visited, &mut open, visited_count);
        }
        let ghost open2 = open@;
        if node.y + 1 < height {
            expand_neighbor(grid, start, end, &node, node.x, node.y + 1, &visited, &mut open, visited_count);
        }
        let ghost open3 = open@;
        if node.y > 0 {
            expand_neighbor(grid, start, end, &node, node.x, node.y - 1, &visited, &mut open, visited_count);
        }
        proof {
            assert(extends(open_rm, open1));
            assert(extends(open1, open2));
            assert(extends(open2, open3));
            assert(extends(open3, open@));
            lemma_restore_frontier(
                *grid,
                vset_head,
                vset,
                gmap_head,
                gmap,
                node.g as int,
                c,
                open_head,
                open_rm,
                open1,
                open2,
                open3,
                open@,
                best as int,
                visited@,
                start,
            );
        }
    }
    proof {
        assert(vset.contains(flat_idx(*grid, start)));
        assert(!(exists|p: Seq<(usize, usize)>| valid_path(*grid, p, start, end))) by {
            if exists|p: Seq<(usize, usize)>| valid_path(*grid, p, start, end) {
                let q = choose|p: Seq<(usize, usize)>| valid_path(*grid, p, start, end);
                assert forall|u: (usize, usize), v: (usize, usize)|
                    (grid.in_bounds(u.0 as int, u.1 as int) && !grid.obstacle_at(
                        u.0 as int,
                        u.1 as int,
                    ) && grid.in_bounds(v.0 as int, v.1 as int) && vset.contains(
                        flat_idx(*grid, v),
                    ) && #[trigger] cardinal_step(v, u)) implies vset.contains(
                    flat_idx(*grid, u),
                ) by {
                    if !vset.contains(flat_idx(*grid, u)) {
                        assert(in_open_g(open@, u, gmap[flat_idx(*grid, v)] + 1));
                    }
                }
                lemma_settled_region_closed(*grid, vset, q);
                assert(false);
            }
        }
    }
    None
}

} // verus!
