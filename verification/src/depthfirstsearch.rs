use vstd::prelude::*;

use vstd::arithmetic::div_mod::{
    lemma_fundamental_div_mod, lemma_fundamental_div_mod_converse, lemma_mod_bound,
};
use vstd::arithmetic::mul::lemma_mul_inequality;
use vstd::set::axiom_set_remove_len;
use vstd::set_lib::{lemma_int_range, lemma_len_subset, set_int_range};

use crate::coordinate::Coordinate;
use crate::maze::{axis_neighbors, is_junction, Maze};
use crate::rng;

verus! {

/// `n` qualifies as a carving target from `cell`: a junction neighbor two
/// apart on one axis, inside the grid, not yet reached by any open wall.
pub open spec fn unvisited_neighbor(m: Maze, cell: Coordinate, n: Coordinate) -> bool {
    &&& axis_neighbors(cell, n)
    &&& m.inside(n.x as int, n.y as int)
    &&& !m.visited(n.x as int, n.y as int)
}

/// The cell two steps west of `cell`.
spec fn west2(cell: Coordinate) -> Coordinate {
    Coordinate { x: (cell.x - 2) as usize, y: cell.y }
}

/// The cell two steps east of `cell`.
spec fn east2(cell: Coordinate) -> Coordinate {
    Coordinate { x: (cell.x + 2) as usize, y: cell.y }
}

/// The cell two steps north of `cell`.
spec fn north2(cell: Coordinate) -> Coordinate {
    Coordinate { x: cell.x, y: (cell.y - 2) as usize }
}

/// The cell two steps south of `cell`.
spec fn south2(cell: Coordinate) -> Coordinate {
    Coordinate { x: cell.x, y: (cell.y + 2) as usize }
}

/// Any carving target of `cell` is one of its four two-step neighbors,
/// and the grid has room for it in that direction.
proof fn lemma_four_directions(m: Maze, cell: Coordinate, n: Coordinate)
    requires
        unvisited_neighbor(m, cell, n),
    ensures
        (cell.x >= 2 && n == west2(cell)) || (cell.x + 2 < m.width && n == east2(cell)) || (cell.y
            >= 2 && n == north2(cell)) || (cell.y + 2 < m.height && n == south2(cell)),
{
    if n.y == cell.y && n.x + 2 == cell.x {
        assert(n == west2(cell));
    } else if n.y == cell.y && cell.x + 2 == n.x {
        assert(n == east2(cell));
    } else if n.x == cell.x && n.y + 2 == cell.y {
        assert(n == north2(cell));
    } else {
        assert(n.x == cell.x && cell.y + 2 == n.y);
        assert(n == south2(cell));
    }
}

/// Checks the four two-step neighbors of `cell` in the fixed order west,
/// east, north, south, reporting which of them are carving targets.
fn neighbor_flags(maze: &Maze, cell: Coordinate) -> (f: (bool, bool, bool, bool))
    requires
        maze.wf(),
        maze.inside(cell.x as int, cell.y as int),
    ensures
        f.0 == (cell.x >= 2 && unvisited_neighbor(*maze, cell, west2(cell))),
        f.1 == (cell.x + 2 < maze.width && unvisited_neighbor(*maze, cell, east2(cell))),
        f.2 == (cell.y >= 2 && unvisited_neighbor(*maze, cell, north2(cell))),
        f.3 == (cell.y + 2 < maze.height && unvisited_neighbor(*maze, cell, south2(cell))),
{
    let has_w = cell.x >= 2 && !maze.is_visited(Coordinate::new(cell.x - 2, cell.y));
    let has_e = maze.width - cell.x > 2 && !maze.is_visited(Coordinate::new(cell.x + 2, cell.y));
    let has_n = cell.y >= 2 && !maze.is_visited(Coordinate::new(cell.x, cell.y - 2));
    let has_s = maze.height - cell.y > 2 && !maze.is_visited(Coordinate::new(cell.x, cell.y + 2));
    (has_w, has_e, has_n, has_s)
}

/// Picks one carving target of `cell` at random; returns `None` exactly
/// when `cell` has none, so a body that always gave up would not verify.
/// Which target comes back when several qualify is left to the generator.
pub fn get_unvisited_neighbor(
    maze: &Maze,
    rng: &mut rand::rngs::StdRng,
    cell: Coordinate,
) -> (r: Option<Coordinate>)
    requires
        maze.wf(),
        maze.inside(cell.x as int, cell.y as int),
    ensures
        match r {
            Some(n) => unvisited_neighbor(*maze, cell, n),
            None => forall|n: Coordinate| !unvisited_neighbor(*maze, cell, n),
        },
{
    let (has_w, has_e, has_n, has_s) = neighbor_flags(maze, cell);

    let mut candidates: Vec<Coordinate> = Vec::new();
    if has_w {
        candidates.push(Coordinate::new(cell.x - 2, cell.y));
    }
    if has_e {
        candidates.push(Coordinate::new(cell.x + 2, cell.y));
    }
    if has_n {
        candidates.push(Coordinate::new(cell.x, cell.y - 2));
    }
    if has_s {
        candidates.push(Coordinate::new(cell.x, cell.y + 2));
    }
    assert(forall|i: int|
        0 <= i < candidates@.len() ==> unvisited_neighbor(*maze, cell, #[trigger] candidates@[i]));

    if candidates.len() == 0 {
        proof {
            assert forall|n: Coordinate| !unvisited_neighbor(*maze, cell, n) by {
                if unvisited_neighbor(*maze, cell, n) {
                    lemma_four_directions(*maze, cell, n);
                }
            }
        }
        None
    } else {
        let idx: usize = rng::random_below(rng, candidates.len());
        Some(candidates[idx])
    }
}

/// True exactly when `cell` has no carving target left: a dead end the
/// carver can only back out of.
pub fn is_dead(maze: &Maze, cell: Coordinate) -> (r: bool)
    requires
        maze.wf(),
        maze.inside(cell.x as int, cell.y as int),
    ensures
        r == !(exists|n: Coordinate| unvisited_neighbor(*maze, cell, n)),
{
    let (has_w, has_e, has_n, has_s) = neighbor_flags(maze, cell);
    let dead = !(has_w || has_e || has_n || has_s);
    proof {
        if dead {
            assert forall|n: Coordinate| !unvisited_neighbor(*maze, cell, n) by {
                if unvisited_neighbor(*maze, cell, n) {
                    lemma_four_directions(*maze, cell, n);
                }
            }
        }
    }
    dead
}

/// The flat indices of the cells that are not open; carving only ever
/// shrinks this set, which bounds how long the carver can run.
pub open spec fn unopened(m: Maze) -> Set<int> {
    Set::new(
        |k: int|
            0 <= k < m.width * m.height && m.cell(k / (m.height as int), k % (m.height as int))
                != 1,
    )
}

proof fn lemma_unopened_finite(m: Maze)
    requires
        m.wf(),
    ensures
        unopened(m).finite(),
{
    let w = m.width as int;
    let h = m.height as int;
    assert(0 <= w * h) by (nonlinear_arith)
        requires
            0 <= w,
            0 <= h,
    ;
    lemma_int_range(0, w * h);
    assert(unopened(m).subset_of(set_int_range(0, w * h)));
    lemma_len_subset(unopened(m), set_int_range(0, w * h));
}

/// A flat index below `width * height` decodes to a cell of the grid.
proof fn lemma_flat_decode(m: Maze, k: int)
    requires
        m.wf(),
        0 <= k < m.width * m.height,
    ensures
        m.inside(k / (m.height as int), k % (m.height as int)),
        k == (k / (m.height as int)) * (m.height as int) + k % (m.height as int),
{
    let h = m.height as int;
    lemma_fundamental_div_mod(k, h);
    lemma_mod_bound(k, h);
    assert(0 <= k / h) by (nonlinear_arith)
        requires
            0 <= k,
            0 < h,
    ;
    if k / h >= m.width {
        lemma_mul_inequality(m.width as int, k / h, h);
        assert(false);
    }
}

/// Opening one closed cell makes the set of closed cells strictly smaller.
proof fn lemma_open_one_cell(pre: Maze, post: Maze, cx: int, cy: int)
    requires
        pre.wf(),
        post.wf(),
        post.width == pre.width,
        post.height == pre.height,
        pre.inside(cx, cy),
        pre.cell(cx, cy) != 1,
        post.cell(cx, cy) == 1,
        forall|x: int, y: int| #![trigger post.cell(x, y)]
            pre.inside(x, y) && !(x == cx && y == cy) ==> post.cell(x, y) == pre.cell(x, y),
    ensures
        unopened(post).len() < unopened(pre).len(),
{
    let h = pre.height as int;
    let k0 = cx * h + cy;
    assert(0 <= k0 < pre.width * pre.height) by (nonlinear_arith)
        requires
            0 <= cx < pre.width,
            0 <= cy < pre.height,
            h == pre.height,
            k0 == cx * h + cy,
    ;
    lemma_fundamental_div_mod_converse(k0, h, cx, cy);
    assert(unopened(pre).contains(k0));

    assert forall|k: int| unopened(post).contains(k) implies unopened(
        pre,
    ).remove(k0).contains(k) by {
        lemma_flat_decode(pre, k);
        let x = k / h;
        let y = k % h;
        if x == cx && y == cy {
            assert(k == k0);
            assert(post.cell(cx, cy) != 1);
            assert(false);
        } else {
            assert(post.cell(x, y) == pre.cell(x, y));
            assert(k != k0) by {
                if k == k0 {
                    lemma_fundamental_div_mod_converse(k0, h, cx, cy);
                    assert(x == cx && y == cy);
                }
            }
        }
    }
    lemma_unopened_finite(pre);
    lemma_len_subset(unopened(post), unopened(pre).remove(k0));
    axiom_set_remove_len(unopened(pre), k0);
}

/// The column of the wall cell strictly between two junction neighbors.
pub open spec fn wall_x(a: Coordinate, b: Coordinate) -> int {
    (a.x + b.x) as int / 2
}

/// The row of the wall cell strictly between two junction neighbors.
pub open spec fn wall_y(a: Coordinate, b: Coordinate) -> int {
    (a.y + b.y) as int / 2
}

/// What a parent forest asks of one reached junction: it is a junction of
/// the grid that hangs under its parent - the start or another reached
/// junction - through an open wall cell, at a strictly greater depth than
/// the parent.
pub open spec fn forest_edge(
    m: Maze,
    start: Coordinate,
    parent: Map<Coordinate, Coordinate>,
    depth: Map<Coordinate, nat>,
    j: Coordinate,
) -> bool {
    &&& m.inside(j.x as int, j.y as int)
    &&& j.x % 2 == 0 && j.y % 2 == 0
    &&& m.inside(parent[j].x as int, parent[j].y as int)
    &&& parent[j].x % 2 == 0 && parent[j].y % 2 == 0
    &&& axis_neighbors(j, parent[j])
    &&& m.is_path(wall_x(j, parent[j]), wall_y(j, parent[j]))
    &&& (parent[j] == start || parent.dom().contains(parent[j]))
    &&& (parent[j] == start || depth[parent[j]] < depth[j])
}

/// A parent forest that witnesses how carving joined the junctions it
/// reached: every reached junction hangs under its parent through one open
/// wall cell, and the chain of parents descends, in ever smaller depths,
/// to the start. Whoever follows the parents from any reached junction
/// walks an open route back to the start.
pub open spec fn carve_forest(
    m: Maze,
    start: Coordinate,
    parent: Map<Coordinate, Coordinate>,
    depth: Map<Coordinate, nat>,
) -> bool {
    &&& !parent.dom().contains(start)
    &&& depth.dom() == parent.dom()
    &&& forall|j: Coordinate|
        parent.dom().contains(j) ==> #[trigger] forest_edge(m, start, parent, depth, j)
}

/// Every cell that carving opened is the wall under which some reached
/// junction hangs in the forest: carving opens nothing else.
pub open spec fn walls_attributed(
    pre: Maze,
    post: Maze,
    parent: Map<Coordinate, Coordinate>,
) -> bool {
    forall|x: int, y: int| #![trigger post.cell(x, y)]
        pre.inside(x, y) && !is_junction(x, y) && post.cell(x, y) == 1 && pre.cell(x, y)
            != 1 ==> exists|j: Coordinate|
            #[trigger] parent.dom().contains(j) && x == wall_x(j, parent[j]) && y == wall_y(
                j,
                parent[j],
            )
}

/// Everything carving promises of the finished grid, relative to the grid
/// it was handed: the frame is kept, every junction cell is open, the cells
/// with two odd coordinates are untouched, and no open cell is ever closed
/// again - cells only ever change to open.
pub open spec fn carved_from(pre: Maze, post: Maze) -> bool {
    &&& post.wf()
    &&& post.same_frame(pre)
    &&& forall|x: int, y: int| #![trigger post.cell(x, y)]
        pre.inside(x, y) && is_junction(x, y) ==> post.cell(x, y) == 1u8
    &&& forall|x: int, y: int| #![trigger post.cell(x, y)]
        pre.inside(x, y) && x % 2 == 1 && y % 2 == 1 ==> post.cell(x, y) == pre.cell(x, y)
    &&& forall|x: int, y: int| #![trigger post.cell(x, y)]
        pre.inside(x, y) ==> (post.cell(x, y) == pre.cell(x, y) || post.cell(x, y) == 1u8)
}

/// The wall cell between two junction neighbors sits one step from either
/// of them, so once it is open, both count as visited.
proof fn lemma_wall_props(m: Maze, a: Coordinate, b: Coordinate)
    requires
        m.wf(),
        axis_neighbors(a, b),
        m.inside(a.x as int, a.y as int),
        m.inside(b.x as int, b.y as int),
    ensures
        m.inside(wall_x(a, b), wall_y(a, b)),
        m.is_path(wall_x(a, b), wall_y(a, b)) ==> m.visited(a.x as int, a.y as int) && m.visited(
            b.x as int,
            b.y as int,
        ),
{
    if a.y == b.y && b.x + 2 == a.x {
        lemma_fundamental_div_mod_converse((a.x + b.x) as int, 2, b.x + 1, 0);
        lemma_fundamental_div_mod_converse((a.y + b.y) as int, 2, a.y as int, 0);
        assert(wall_x(a, b) == a.x - 1 && wall_y(a, b) == a.y);
    } else if a.y == b.y && a.x + 2 == b.x {
        lemma_fundamental_div_mod_converse((a.x + b.x) as int, 2, a.x + 1, 0);
        lemma_fundamental_div_mod_converse((a.y + b.y) as int, 2, a.y as int, 0);
        assert(wall_x(a, b) == a.x + 1 && wall_y(a, b) == a.y);
    } else if a.x == b.x && b.y + 2 == a.y {
        lemma_fundamental_div_mod_converse((a.x + b.x) as int, 2, a.x as int, 0);
        lemma_fundamental_div_mod_converse((a.y + b.y) as int, 2, b.y + 1, 0);
        assert(wall_x(a, b) == a.x && wall_y(a, b) == a.y - 1);
    } else {
        assert(a.x == b.x && a.y + 2 == b.y);
        lemma_fundamental_div_mod_converse((a.x + b.x) as int, 2, a.x as int, 0);
        lemma_fundamental_div_mod_converse((a.y + b.y) as int, 2, a.y + 1, 0);
        assert(wall_x(a, b) == a.x && wall_y(a, b) == a.y + 1);
    }
}

/// Every junction the forest reaches is visited: the wall under which it
/// hangs is open right next to it.
proof fn lemma_dom_visited(
    m: Maze,
    start: Coordinate,
    parent: Map<Coordinate, Coordinate>,
    depth: Map<Coordinate, nat>,
)
    requires
        m.wf(),
        carve_forest(m, start, parent, depth),
    ensures
        forall|j: Coordinate| #[trigger] parent.dom().contains(j) ==> m.visited(
            j.x as int,
            j.y as int,
        ),
{
    assert forall|j: Coordinate| #[trigger] parent.dom().contains(j) implies m.visited(
        j.x as int,
        j.y as int,
    ) by {
        assert(forest_edge(m, start, parent, depth, j));
        lemma_wall_props(m, j, parent[j]);
    }
}

/// Hanging one freshly carved junction under the cell it was carved from
/// keeps the forest and the wall attribution intact.
#[verifier::rlimit(100)]
proof fn lemma_forest_extend(
    orig: Maze,
    before: Maze,
    after: Maze,
    start: Coordinate,
    cellv: Coordinate,
    last: Coordinate,
    parent: Map<Coordinate, Coordinate>,
    depthm: Map<Coordinate, nat>,
    nd: nat,
)
    requires
        before.wf(),
        after.wf(),
        after.width == before.width,
        after.height == before.height,
        orig.width == before.width,
        orig.height == before.height,
        carve_forest(before, start, parent, depthm),
        walls_attributed(orig, before, parent),
        axis_neighbors(cellv, last),
        before.inside(cellv.x as int, cellv.y as int),
        before.inside(last.x as int, last.y as int),
        last.x % 2 == 0,
        last.y % 2 == 0,
        cellv.x % 2 == 0,
        cellv.y % 2 == 0,
        last == start || parent.dom().contains(last),
        !parent.dom().contains(cellv),
        cellv != start,
        last == start ==> nd == 1,
        last != start ==> nd == depthm[last] + 1,
        after.cell(wall_x(cellv, last), wall_y(cellv, last)) == 1,
        !is_junction(wall_x(cellv, last), wall_y(cellv, last)),
        forall|x: int, y: int| #![trigger after.cell(x, y)]
            before.inside(x, y) && !(x == wall_x(cellv, last) && y == wall_y(cellv, last))
                ==> after.cell(x, y) == before.cell(x, y),
    ensures
        carve_forest(after, start, parent.insert(cellv, last), depthm.insert(cellv, nd)),
        walls_attributed(orig, after, parent.insert(cellv, last)),
{
    let np = parent.insert(cellv, last);
    let ndm = depthm.insert(cellv, nd);
    assert(ndm.dom() =~= np.dom());
    assert forall|j: Coordinate| np.dom().contains(j) implies #[trigger] forest_edge(
        after,
        start,
        np,
        ndm,
        j,
    ) by {
        if j != cellv {
            assert(parent.dom().contains(j));
            assert(forest_edge(before, start, parent, depthm, j));
            assert(np[j] == parent[j]);
            assert(parent[j] != cellv);
            assert(after.cell(wall_x(j, np[j]), wall_y(j, np[j])) == before.cell(
                wall_x(j, np[j]),
                wall_y(j, np[j]),
            ) || after.cell(wall_x(j, np[j]), wall_y(j, np[j])) == 1u8);
        }
    }
    assert forall|x: int, y: int|
        orig.inside(x, y) && !is_junction(x, y) && #[trigger] after.cell(x, y) == 1
            && orig.cell(x, y) != 1 implies exists|j: Coordinate|
        #[trigger] np.dom().contains(j) && x == wall_x(j, np[j]) && y == wall_y(j, np[j]) by {
        if x == wall_x(cellv, last) && y == wall_y(cellv, last) {
            assert(np.dom().contains(cellv) && x == wall_x(cellv, np[cellv]) && y == wall_y(
                cellv,
                np[cellv],
            ));
        } else {
            assert(after.cell(x, y) == before.cell(x, y));
            let k = choose|k: Coordinate|
                #[trigger] parent.dom().contains(k) && x == wall_x(k, parent[k]) && y == wall_y(
                    k,
                    parent[k],
                );
            assert(np.dom().contains(k) && x == wall_x(k, np[k]) && y == wall_y(k, np[k]));
        }
    }
}

/// Carves the maze with randomized depth-first search, drawing from a
/// generator seeded with `seed`, so that equal seeds carve equal mazes.
/// Beside the cell-level promises, a parent forest witnesses that every
/// wall opened by this run joins two junctions that the run reached, and
/// that each reached junction is joined to the start through open walls.
#[verifier::rlimit(80)]
pub fn depth_first_seeded(maze: Maze, seed: u64) -> (r: Maze)
    requires
        maze.wf(),
        maze.inside(maze.start.x as int, maze.start.y as int),
        maze.start.x % 2 == 0,
        maze.start.y % 2 == 0,
    ensures
        carved_from(maze, r),
        exists|parent: Map<Coordinate, Coordinate>, depth: Map<Coordinate, nat>|
            #[trigger] carve_forest(r, maze.start, parent, depth) && walls_attributed(
                maze,
                r,
                parent,
            ),
{
    let ghost orig = maze;
    let mut rng = rng::rng_from_seed(seed);
    let mut maze = maze;
    maze.init();
    let mut back_tracker: Vec<Coordinate> = Vec::new();
    let mut last = maze.start;
    let ghost mut parent: Map<Coordinate, Coordinate> = Map::empty();
    let ghost mut depthm: Map<Coordinate, nat> = Map::empty();
    let ghost mut pushed: bool = false;
    loop
        invariant
            maze.wf(),
            carved_from(orig, maze),
            maze.width == orig.width,
            maze.height == orig.height,
            maze.inside(last.x as int, last.y as int),
            last.x % 2 == 0,
            last.y % 2 == 0,
            carve_forest(maze, orig.start, parent, depthm),
            walls_attributed(orig, maze, parent),
            last == orig.start || parent.dom().contains(last),
            !pushed ==> last == orig.start,
            !pushed ==> parent.dom() == Set::<Coordinate>::empty(),
            pushed ==> maze.visited(orig.start.x as int, orig.start.y as int),
            forall|i: int|
                0 <= i < back_tracker@.len() ==> parent.dom().contains(
                    #[trigger] back_tracker@[i],
                ),
        ensures
            carved_from(orig, maze),
            carve_forest(maze, orig.start, parent, depthm),
            walls_attributed(orig, maze, parent),
        decreases unopened(maze).len(), back_tracker.len(),
    {
        if let Some(cellv) = get_unvisited_neighbor(&maze, &mut rng, last) {
            let ghost before = maze;
            back_tracker.push(cellv);
            maze.connect(cellv, last);
            proof {
                let mx = (cellv.x + last.x) as int / 2;
                let my = (cellv.y + last.y) as int / 2;
                lemma_midpoint(before, cellv, last, mx, my);
                lemma_open_one_cell(before, maze, mx, my);
                assert forall|x: int, y: int|
                    orig.inside(x, y) && is_junction(x, y) implies #[trigger] maze.cell(x, y)
                    == 1u8 by {
                    if x == mx && y == my {
                    } else {
                        assert(maze.cell(x, y) == before.cell(x, y));
                    }
                }
                assert forall|x: int, y: int|
                    orig.inside(x, y) && x % 2 == 1 && y % 2 == 1 implies #[trigger] maze.cell(
                    x,
                    y,
                ) == orig.cell(x, y) by {
                    assert(!(x == mx && y == my));
                    assert(maze.cell(x, y) == before.cell(x, y));
                }
                assert forall|x: int, y: int| orig.inside(x, y) implies (#[trigger] maze.cell(x, y)
                    == orig.cell(x, y) || maze.cell(x, y) == 1u8) by {
                    if !(x == mx && y == my) {
                        assert(maze.cell(x, y) == before.cell(x, y));
                    }
                }

                // Hang the fresh junction under the cell it was carved from.
                lemma_dom_visited(before, orig.start, parent, depthm);
                assert(!parent.dom().contains(cellv));
                assert(cellv != orig.start);
                assert(wall_x(cellv, last) == mx && wall_y(cellv, last) == my);
                let newdepth: nat = if last == orig.start {
                    1
                } else {
                    (depthm[last] + 1) as nat
                };
                lemma_forest_extend(
                    orig,
                    before,
                    maze,
                    orig.start,
                    cellv,
                    last,
                    parent,
                    depthm,
                    newdepth,
                );
                parent = parent.insert(cellv, last);
                depthm = depthm.insert(cellv, newdepth);
                if !pushed {
                    lemma_wall_props(maze, cellv, last);
                }
                assert(maze.visited(orig.start.x as int, orig.start.y as int));
                pushed = true;
            }
            last = cellv;
        } else {
            match back_tracker.pop() {
                Some(cellv) => {
                    proof {
                        assert(parent.dom().contains(cellv));
                        assert(forest_edge(maze, orig.start, parent, depthm, cellv));
                    }
                    last = cellv;
                },
                None => {
                    break ;
                },
            }
        }
    }
    maze
}

/// The wall cell between two junction neighbors is inside the grid, closed
/// as long as the target is unvisited, strictly between the two cells, and
/// no junction: one of its coordinates is odd, the other even.
proof fn lemma_midpoint(m: Maze, cellv: Coordinate, last: Coordinate, mx: int, my: int)
    requires
        m.wf(),
        unvisited_neighbor(m, last, cellv),
        m.inside(last.x as int, last.y as int),
        last.x % 2 == 0,
        last.y % 2 == 0,
        cellv.x % 2 == 0,
        cellv.y % 2 == 0,
        mx == (cellv.x + last.x) as int / 2,
        my == (cellv.y + last.y) as int / 2,
    ensures
        m.inside(mx, my),
        m.cell(mx, my) != 1,
        !(mx % 2 == 0 && my % 2 == 0),
        !(mx % 2 == 1 && my % 2 == 1),
{
    if cellv.y == last.y && cellv.x + 2 == last.x {
        lemma_fundamental_div_mod_converse((cellv.x + last.x) as int, 2, cellv.x + 1, 0);
        lemma_fundamental_div_mod_converse((cellv.y + last.y) as int, 2, cellv.y as int, 0);
        assert(mx == cellv.x + 1 && my == cellv.y);
        assert(!m.visited(cellv.x as int, cellv.y as int));
        assert(!(m.inside(cellv.x as int + 1, cellv.y as int) && m.is_path(
            cellv.x as int + 1,
            cellv.y as int,
        )));
    } else if cellv.y == last.y && last.x + 2 == cellv.x {
        lemma_fundamental_div_mod_converse((cellv.x + last.x) as int, 2, last.x + 1, 0);
        lemma_fundamental_div_mod_converse((cellv.y + last.y) as int, 2, cellv.y as int, 0);
        assert(mx == last.x + 1 && my == cellv.y);
        assert(mx == cellv.x - 1);
        assert(!(m.inside(cellv.x as int - 1, cellv.y as int) && m.is_path(
            cellv.x as int - 1,
            cellv.y as int,
        )));
    } else if cellv.x == last.x && cellv.y + 2 == last.y {
        lemma_fundamental_div_mod_converse((cellv.x + last.x) as int, 2, cellv.x as int, 0);
        lemma_fundamental_div_mod_converse((cellv.y + last.y) as int, 2, cellv.y + 1, 0);
        assert(mx == cellv.x && my == cellv.y + 1);
        assert(!(m.inside(cellv.x as int, cellv.y as int + 1) && m.is_path(
            cellv.x as int,
            cellv.y as int + 1,
        )));
    } else {
        assert(cellv.x == last.x && last.y + 2 == cellv.y);
        lemma_fundamental_div_mod_converse((cellv.x + last.x) as int, 2, cellv.x as int, 0);
        lemma_fundamental_div_mod_converse((cellv.y + last.y) as int, 2, last.y + 1, 0);
        assert(mx == cellv.x && my == last.y + 1);
        assert(my == cellv.y - 1);
        assert(!(m.inside(cellv.x as int, cellv.y as int - 1) && m.is_path(
            cellv.x as int,
            cellv.y as int - 1,
        )));
    }
}

/// Law: a grid that was all walls and was then carved keeps the junction
/// lattice exactly: every junction cell is open, and every cell with two
/// odd coordinates - one surrounded by four junctions - is still a wall,
/// whatever the random draws were.
pub proof fn lemma_carve_keeps_lattice(pre: Maze, post: Maze)
    requires
        pre.wf(),
        forall|x: int, y: int| #![trigger pre.cell(x, y)]
            pre.inside(x, y) ==> pre.cell(x, y) == 0,
        carved_from(pre, post),
    ensures
        forall|x: int, y: int| #![trigger post.cell(x, y)]
            post.inside(x, y) && is_junction(x, y) ==> post.is_path(x, y),
        forall|x: int, y: int| #![trigger post.cell(x, y)]
            post.inside(x, y) && x % 2 == 1 && y % 2 == 1 ==> !post.is_path(x, y),
{
    assert forall|x: int, y: int| #![trigger post.cell(x, y)]
        post.inside(x, y) && x % 2 == 1 && y % 2 == 1 implies !post.is_path(x, y) by {
        assert(pre.inside(x, y));
        assert(post.cell(x, y) == pre.cell(x, y));
        assert(pre.cell(x, y) == 0);
    }
}

/// The only junctions one step away from the wall cell between two
/// junction neighbors are those two neighbors themselves.
proof fn lemma_wall_endpoints(a: Coordinate, b: Coordinate, j: Coordinate, wx: int, wy: int)
    requires
        axis_neighbors(a, b),
        a.x % 2 == 0,
        a.y % 2 == 0,
        b.x % 2 == 0,
        b.y % 2 == 0,
        j.x % 2 == 0,
        j.y % 2 == 0,
        wx == wall_x(a, b),
        wy == wall_y(a, b),
        (wx == j.x - 1 && wy == j.y) || (wx == j.x + 1 && wy == j.y) || (wx == j.x && wy == j.y
            - 1) || (wx == j.x && wy == j.y + 1),
    ensures
        j == a || j == b,
{
    if a.y == b.y && b.x + 2 == a.x {
        lemma_fundamental_div_mod_converse((a.x + b.x) as int, 2, b.x + 1, 0);
        lemma_fundamental_div_mod_converse((a.y + b.y) as int, 2, a.y as int, 0);
    } else if a.y == b.y && a.x + 2 == b.x {
        lemma_fundamental_div_mod_converse((a.x + b.x) as int, 2, a.x + 1, 0);
        lemma_fundamental_div_mod_converse((a.y + b.y) as int, 2, a.y as int, 0);
    } else if a.x == b.x && b.y + 2 == a.y {
        lemma_fundamental_div_mod_converse((a.x + b.x) as int, 2, a.x as int, 0);
        lemma_fundamental_div_mod_converse((a.y + b.y) as int, 2, b.y + 1, 0);
    } else {
        assert(a.x == b.x && a.y + 2 == b.y);
        lemma_fundamental_div_mod_converse((a.x + b.x) as int, 2, a.x as int, 0);
        lemma_fundamental_div_mod_converse((a.y + b.y) as int, 2, a.y + 1, 0);
    }
}

/// A walk over junctions in which each step moves to an axis neighbor
/// two cells away whose connecting wall is open.
pub open spec fn open_route(m: Maze, p: Seq<Coordinate>) -> bool {
    forall|i: int|
        0 <= i < p.len() - 1 ==> axis_neighbors(#[trigger] p[i], p[i + 1]) && m.is_path(
            wall_x(p[i], p[i + 1]),
            wall_y(p[i], p[i + 1]),
        )
}

/// Law: following the parents of the forest back from any reached
/// junction yields an open route that begins at the start and ends there.
pub proof fn lemma_forest_route(
    m: Maze,
    start: Coordinate,
    parent: Map<Coordinate, Coordinate>,
    depth: Map<Coordinate, nat>,
    j: Coordinate,
)
    requires
        carve_forest(m, start, parent, depth),
        parent.dom().contains(j),
    ensures
        exists|p: Seq<Coordinate>|
            #[trigger] open_route(m, p) && p.len() >= 2 && p[0] == start && p.last() == j,
    decreases depth[j],
{
    assert(forest_edge(m, start, parent, depth, j));
    if parent[j] == start {
        let p = seq![start, j];
        assert(axis_neighbors(p[0], p[1]) && m.is_path(wall_x(p[0], p[1]), wall_y(p[0], p[1])));
        assert(open_route(m, p) && p.len() >= 2 && p[0] == start && p.last() == j);
    } else {
        lemma_forest_route(m, start, parent, depth, parent[j]);
        let q = choose|q: Seq<Coordinate>|
            #[trigger] open_route(m, q) && q.len() >= 2 && q[0] == start && q.last() == parent[j];
        let p = q.push(j);
        assert forall|i: int| 0 <= i < p.len() - 1 implies axis_neighbors(
            #[trigger] p[i],
            p[i + 1],
        ) && m.is_path(wall_x(p[i], p[i + 1]), wall_y(p[i], p[i + 1])) by {
            if i < q.len() - 1 {
                assert(p[i] == q[i] && p[i + 1] == q[i + 1]);
            } else {
                assert(p[i] == parent[j] && p[i + 1] == j);
            }
        }
        assert(open_route(m, p) && p.len() >= 2 && p[0] == start && p.last() == j);
    }
}

/// Law: carved from an all-wall grid, the carved structure is connected:
/// every junction that an open wall has reached, besides the start
/// itself, stands in the forest, whose parent chain joins it to the start
/// through open wall cells.
pub proof fn lemma_carved_connected(
    pre: Maze,
    post: Maze,
    start: Coordinate,
    parent: Map<Coordinate, Coordinate>,
    depth: Map<Coordinate, nat>,
)
    requires
        pre.wf(),
        post.wf(),
        post.width == pre.width,
        post.height == pre.height,
        forall|x: int, y: int| #![trigger pre.cell(x, y)]
            pre.inside(x, y) ==> pre.cell(x, y) == 0,
        carve_forest(post, start, parent, depth),
        walls_attributed(pre, post, parent),
    ensures
        forall|j: Coordinate| #![trigger post.visited(j.x as int, j.y as int)]
            post.inside(j.x as int, j.y as int) && j.x % 2 == 0 && j.y % 2 == 0 && j != start
                && post.visited(j.x as int, j.y as int) ==> parent.dom().contains(j),
{
    assert forall|j: Coordinate|
        post.inside(j.x as int, j.y as int) && j.x % 2 == 0 && j.y % 2 == 0 && j != start
            && #[trigger] post.visited(j.x as int, j.y as int) implies parent.dom().contains(
        j,
    ) by {
        let jx = j.x as int;
        let jy = j.y as int;
        let w: (int, int) = if post.inside(jx - 1, jy) && post.is_path(jx - 1, jy) {
            (jx - 1, jy)
        } else if post.inside(jx + 1, jy) && post.is_path(jx + 1, jy) {
            (jx + 1, jy)
        } else if post.inside(jx, jy - 1) && post.is_path(jx, jy - 1) {
            (jx, jy - 1)
        } else {
            (jx, jy + 1)
        };
        assert(post.inside(w.0, w.1) && post.is_path(w.0, w.1));
        assert(!is_junction(w.0, w.1));
        assert(pre.cell(w.0, w.1) != 1);
        let k = choose|k: Coordinate|
            #[trigger] parent.dom().contains(k) && w.0 == wall_x(k, parent[k]) && w.1 == wall_y(
                k,
                parent[k],
            );
        assert(forest_edge(post, start, parent, depth, k));
        lemma_wall_endpoints(k, parent[k], j, w.0, w.1);
    }
}

/// Carves the maze with randomized depth-first search from the grid's
/// start cell, seeding the generator from the thread-local random source.
pub fn depth_first(maze: Maze) -> (r: Maze)
    requires
        maze.wf(),
        maze.inside(maze.start.x as int, maze.start.y as int),
        maze.start.x % 2 == 0,
        maze.start.y % 2 == 0,
    ensures
        carved_from(maze, r),
        exists|parent: Map<Coordinate, Coordinate>, depth: Map<Coordinate, nat>|
            #[trigger] carve_forest(r, maze.start, parent, depth) && walls_attributed(
                maze,
                r,
                parent,
            ),
{
    let seed: u64 = rng::random_seed();
    depth_first_seeded(maze, seed)
}

} // verus!

