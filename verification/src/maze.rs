use vstd::prelude::*;

use crate::coordinate::Coordinate;

verus! {

/// A rectangular grid of cells, each either wall (any value but 1) or path
/// (value 1). Columns come first: `grid[x][y]` is the cell in column `x`,
/// row `y`. Cells whose two coordinates are both even are the junction
/// cells of the maze; the cells between them are the walls that carving
/// may open.
pub struct Maze {
    pub width: usize,
    pub height: usize,
    pub grid: Vec<Vec<u8>>,
    pub start: Coordinate,
    pub end: Coordinate,
}

/// The value a dimension is stored as: 0 becomes the degenerate 1, an even
/// value is rounded down to the odd value below it.
pub open spec fn norm_dim(d: int) -> int {
    if d <= 1 {
        1
    } else if d % 2 == 0 {
        d - 1
    } else {
        d
    }
}

/// Both coordinates even: the cell is a junction of the lattice.
pub open spec fn is_junction(x: int, y: int) -> bool {
    x % 2 == 0 && y % 2 == 0
}

/// The two cells sit two apart on one axis and level on the other: junction
/// neighbors with exactly one wall cell strictly between them.
pub open spec fn axis_neighbors(a: Coordinate, b: Coordinate) -> bool {
    ||| (a.y == b.y && (a.x + 2 == b.x || b.x + 2 == a.x))
    ||| (a.x == b.x && (a.y + 2 == b.y || b.y + 2 == a.y))
}

/// What `init` does to a grid: every junction cell opened, every other cell
/// kept as it was, the frame untouched.
pub open spec fn init_rel(pre: Maze, post: Maze) -> bool {
    &&& post.wf()
    &&& post.same_frame(pre)
    &&& forall|x: int, y: int| #![trigger post.cell(x, y)]
        pre.inside(x, y) ==> post.cell(x, y) == if is_junction(x, y) {
            1u8
        } else {
            pre.cell(x, y)
        }
}

impl Maze {
    /// Structural soundness: odd dimensions and a full rectangular cell array.
    pub open spec fn wf(self) -> bool {
        &&& self.width % 2 == 1
        &&& self.height % 2 == 1
        &&& self.grid@.len() == self.width
        &&& forall|i: int|
            0 <= i < self.grid@.len() ==> (#[trigger] self.grid@[i])@.len() == self.height
    }

    /// The stored state of the cell in column `x`, row `y`.
    pub open spec fn cell(self, x: int, y: int) -> u8 {
        self.grid@[x]@[y]
    }

    /// The coordinates name a cell of the grid.
    pub open spec fn inside(self, x: int, y: int) -> bool {
        0 <= x < self.width && 0 <= y < self.height
    }

    /// The cell is carved open.
    pub open spec fn is_path(self, x: int, y: int) -> bool {
        self.cell(x, y) == 1
    }

    /// A junction counts as visited as soon as any of the four cells right
    /// next to it (one step, not two) is open: carving into or out of a
    /// junction opens such a cell, and nothing else does.
    pub open spec fn visited(self, x: int, y: int) -> bool {
        ||| (self.inside(x - 1, y) && self.is_path(x - 1, y))
        ||| (self.inside(x + 1, y) && self.is_path(x + 1, y))
        ||| (self.inside(x, y - 1) && self.is_path(x, y - 1))
        ||| (self.inside(x, y + 1) && self.is_path(x, y + 1))
    }

    /// Dimensions and the two marked cells agree.
    pub open spec fn same_frame(self, other: Maze) -> bool {
        &&& self.width == other.width
        &&& self.height == other.height
        &&& self.start == other.start
        &&& self.end == other.end
    }

    /// Builds an all-wall grid. Even dimensions are rounded down to odd;
    /// 0 is treated as the degenerate 1. The start is the top-left cell and
    /// the end the bottom-right one, both junctions given odd dimensions.
    pub fn new(width: usize, height: usize) -> (m: Maze)
        ensures
            m.wf(),
            m.width == norm_dim(width as int),
            m.height == norm_dim(height as int),
            forall|x: int, y: int| m.inside(x, y) ==> m.cell(x, y) == 0,
            m.start.x == 0 && m.start.y == 0,
            m.end.x == m.width - 1 && m.end.y == m.height - 1,
    {
        let width: usize = if width == 0 {
            1
        } else if width % 2 == 0 {
            width - 1
        } else {
            width
        };
        let height: usize = if height == 0 {
            1
        } else if height % 2 == 0 {
            height - 1
        } else {
            height
        };

        let mut grid: Vec<Vec<u8>> = Vec::new();
        let mut i: usize = 0;
        while i < width
            invariant
                i <= width,
                grid@.len() == i,
                forall|k: int| 0 <= k < i ==> (#[trigger] grid@[k])@.len() == height,
                forall|k: int, j: int|
                    0 <= k < i && 0 <= j < height ==> #[trigger] grid@[k]@[j] == 0,
            decreases width - i,
        {
            let mut column: Vec<u8> = Vec::new();
            let mut j: usize = 0;
            while j < height
                invariant
                    j <= height,
                    column@.len() == j,
                    forall|l: int| 0 <= l < j ==> column@[l] == 0,
                decreases height - j,
            {
                column.push(0);
                j = j + 1;
            }
            grid.push(column);
            i = i + 1;
        }

        Maze {
            width,
            height,
            grid,
            start: Coordinate::new(0, 0),
            end: Coordinate::new(width - 1, height - 1),
        }
    }

    /// Opens every junction cell, leaving every other cell as it was.
    pub fn init(&mut self)
        requires
            old(self).wf(),
        ensures
            init_rel(*old(self), *final(self)),
    {
        let ghost pre = *self;
        let mut i: usize = 0;
        while i < self.width
            invariant
                self.wf(),
                self.same_frame(pre),
                self.width == pre.width,
                self.height == pre.height,
                i <= self.width,
                forall|x: int, y: int| #![trigger self.cell(x, y)]
                    pre.inside(x, y) ==> self.cell(x, y) == if is_junction(x, y) && x < i {
                        1u8
                    } else {
                        pre.cell(x, y)
                    },
            decreases self.width - i,
        {
            if i % 2 == 0 {
                let mut j: usize = 0;
                while j < self.height
                    invariant
                        self.wf(),
                        self.same_frame(pre),
                        self.width == pre.width,
                        self.height == pre.height,
                        i < self.width,
                        i % 2 == 0,
                        j <= self.height,
                        forall|x: int, y: int| #![trigger self.cell(x, y)]
                            pre.inside(x, y) ==> self.cell(x, y) == if is_junction(x, y) && (x < i
                                || (x == i && y < j)) {
                                1u8
                            } else {
                                pre.cell(x, y)
                            },
                    decreases self.height - j,
                {
                    let ghost prev = *self;
                    if j % 2 == 0 {
                        self.grid[i][j] = 1;
                        proof {
                            assert forall|x: int, y: int| pre.inside(x, y) implies self.cell(x, y)
                                == (if is_junction(x, y) && (x < i || (x == i && y < j + 1)) {
                                1u8
                            } else {
                                pre.cell(x, y)
                            }) by {
                                if x == i && y == j {
                                    assert(self.cell(x, y) == 1u8);
                                    assert(is_junction(x, y));
                                } else {
                                    assert(self.cell(x, y) == prev.cell(x, y));
                                    assert(prev.cell(x, y) == if is_junction(x, y) && (x < i || (x
                                        == i && y < j)) {
                                        1u8
                                    } else {
                                        pre.cell(x, y)
                                    });
                                }
                            }
                        }
                    } else {
                        proof {
                            assert forall|x: int, y: int| pre.inside(x, y) implies self.cell(x, y)
                                == (if is_junction(x, y) && (x < i || (x == i && y < j + 1)) {
                                1u8
                            } else {
                                pre.cell(x, y)
                            }) by {
                                if x == i && y == j {
                                    assert(!is_junction(x, y));
                                }
                                assert(self.cell(x, y) == prev.cell(x, y));
                            }
                        }
                    }
                    j = j + 1;
                }
                proof {
                    assert forall|x: int, y: int| pre.inside(x, y) implies self.cell(x, y) == (
                    if is_junction(x, y) && x < i + 1 {
                        1u8
                    } else {
                        pre.cell(x, y)
                    }) by {
                        assert(self.cell(x, y) == if is_junction(x, y) && (x < i || (x == i && y
                            < self.height)) {
                            1u8
                        } else {
                            pre.cell(x, y)
                        });
                    }
                }
            } else {
                proof {
                    assert forall|x: int, y: int| pre.inside(x, y) implies self.cell(x, y) == (
                    if is_junction(x, y) && x < i + 1 {
                        1u8
                    } else {
                        pre.cell(x, y)
                    }) by {
                        if x == i {
                            assert(!is_junction(x, y));
                        }
                    }
                }
            }
            i = i + 1;
        }
    }

    /// True exactly when the signed coordinates fall inside the grid; safe
    /// to probe one or two steps beyond any edge.
    pub fn is_inside(&self, x: i32, y: i32) -> (r: bool)
        ensures
            r == self.inside(x as int, y as int),
    {
        x >= 0 && y >= 0 && (x as usize) < self.width && (y as usize) < self.height
    }

    /// True exactly when some cell one step up, down, left or right of
    /// `cell` is open: the junction has been reached by a carved wall.
    pub fn is_visited(&self, cell: Coordinate) -> (r: bool)
        requires
            self.wf(),
        ensures
            r == self.visited(cell.x as int, cell.y as int),
    {
        let mut vis = false;
        if cell.x >= 1 && cell.x - 1 < self.width && cell.y < self.height && self.grid[cell.x
            - 1][cell.y] == 1 {
            vis = true;
        }
        if cell.x < self.width && cell.x + 1 < self.width && cell.y < self.height && self.grid[cell.x
            + 1][cell.y] == 1 {
            vis = true;
        }
        if cell.y >= 1 && cell.y - 1 < self.height && cell.x < self.width && self.grid[cell.x][cell.y
            - 1] == 1 {
            vis = true;
        }
        if cell.y < self.height && cell.y + 1 < self.height && cell.x < self.width
            && self.grid[cell.x][cell.y + 1] == 1 {
            vis = true;
        }
        vis
    }

    /// Opens the one wall cell strictly between two junction cells that sit
    /// two apart on one axis; with equal cells it does nothing. Every other
    /// cell is left as it was.
    pub fn connect(&mut self, cell_a: Coordinate, cell_b: Coordinate)
        requires
            old(self).wf(),
            old(self).inside(cell_a.x as int, cell_a.y as int),
            old(self).inside(cell_b.x as int, cell_b.y as int),
            cell_a == cell_b || axis_neighbors(cell_a, cell_b),
        ensures
            final(self).wf(),
            final(self).same_frame(*old(self)),
            cell_a == cell_b ==> forall|x: int, y: int| #![trigger final(self).cell(x, y)]
                old(self).inside(x, y) ==> final(self).cell(x, y) == old(self).cell(x, y),
            cell_a != cell_b ==> {
                &&& final(self).cell(
                    (cell_a.x + cell_b.x) as int / 2,
                    (cell_a.y + cell_b.y) as int / 2,
                ) == 1u8
                &&& forall|x: int, y: int| #![trigger final(self).cell(x, y)]
                    old(self).inside(x, y) && !(x == (cell_a.x + cell_b.x) as int / 2 && y == (
                    cell_a.y + cell_b.y) as int / 2) ==> final(self).cell(x, y) == old(self).cell(
                        x,
                        y,
                    )
            },
    {
        if cell_b.x < cell_a.x {
            self.grid[cell_a.x - 1][cell_a.y] = 1;
        } else if cell_b.x > cell_a.x {
            self.grid[cell_a.x + 1][cell_a.y] = 1;
        } else if cell_b.y < cell_a.y {
            self.grid[cell_a.x][cell_a.y - 1] = 1;
        } else if cell_b.y > cell_a.y {
            self.grid[cell_a.x][cell_a.y + 1] = 1;
        }
    }

    /// Moves the start marker to `start` with each odd coordinate rounded
    /// down to the even one below it, so that the marker lands on a junction.
    pub fn set_start(&mut self, start: Coordinate)
        ensures
            final(self).width == old(self).width,
            final(self).height == old(self).height,
            final(self).grid == old(self).grid,
            final(self).end == old(self).end,
            final(self).start.x == start.x - start.x % 2,
            final(self).start.y == start.y - start.y % 2,
    {
        self.start = Coordinate::new(start.x - start.x % 2, start.y - start.y % 2);
    }

    /// Moves the end marker to `end` with each odd coordinate rounded down
    /// to the even one below it, so that the marker lands on a junction.
    pub fn set_end(&mut self, end: Coordinate)
        ensures
            final(self).width == old(self).width,
            final(self).height == old(self).height,
            final(self).grid == old(self).grid,
            final(self).start == old(self).start,
            final(self).end.x == end.x - end.x % 2,
            final(self).end.y == end.y - end.y % 2,
    {
        self.end = Coordinate::new(end.x - end.x % 2, end.y - end.y % 2);
    }

    /// The three colour channels the image shows for a cell: red for the
    /// start, blue for the end, white for an open cell, black for a wall.
    pub open spec fn pixel(self, x: int, y: int) -> (u8, u8, u8) {
        if self.start.x == x && self.start.y == y {
            (255u8, 0u8, 0u8)
        } else if self.end.x == x && self.end.y == y {
            (0u8, 0u8, 255u8)
        } else if self.is_path(x, y) {
            (255u8, 255u8, 255u8)
        } else {
            (0u8, 0u8, 0u8)
        }
    }

    /// Renders the grid as a flat row-major RGB buffer, three bytes per
    /// cell, rows from the top, columns from the left within each row.
    pub fn as_image(&self) -> (img: Vec<u8>)
        requires
            self.wf(),
            self.width * self.height * 3 <= usize::MAX,
        ensures
            img@.len() == self.width * self.height * 3,
            forall|x: int, y: int| #![trigger self.pixel(x, y)]
                self.inside(x, y) ==> {
                    &&& img@[3 * (y * self.width + x)] == self.pixel(x, y).0
                    &&& img@[3 * (y * self.width + x) + 1] == self.pixel(x, y).1
                    &&& img@[3 * (y * self.width + x) + 2] == self.pixel(x, y).2
                },
    {
        let mut image: Vec<u8> = Vec::new();
        let mut y: usize = 0;
        while y < self.height
            invariant
                self.wf(),
                y <= self.height,
                image@.len() == 3 * (y * self.width),
                forall|xx: int, yy: int| #![trigger self.pixel(xx, yy)]
                    self.inside(xx, yy) && yy < y ==> {
                        &&& image@[3 * (yy * self.width + xx)] == self.pixel(xx, yy).0
                        &&& image@[3 * (yy * self.width + xx) + 1] == self.pixel(xx, yy).1
                        &&& image@[3 * (yy * self.width + xx) + 2] == self.pixel(xx, yy).2
                    },
            decreases self.height - y,
        {
            let mut x: usize = 0;
            while x < self.width
                invariant
                    self.wf(),
                    y < self.height,
                    x <= self.width,
                    image@.len() == 3 * (y * self.width + x),
                    forall|xx: int, yy: int| #![trigger self.pixel(xx, yy)]
                        self.inside(xx, yy) && (yy < y || (yy == y && xx < x)) ==> {
                            &&& image@[3 * (yy * self.width + xx)] == self.pixel(xx, yy).0
                            &&& image@[3 * (yy * self.width + xx) + 1] == self.pixel(xx, yy).1
                            &&& image@[3 * (yy * self.width + xx) + 2] == self.pixel(xx, yy).2
                        },
                decreases self.width - x,
            {
                let ghost before = image@;
                if self.start.x == x && self.start.y == y {
                    image.push(255);
                    image.push(0);
                    image.push(0);
                } else if self.end.x == x && self.end.y == y {
                    image.push(0);
                    image.push(0);
                    image.push(255);
                } else if self.grid[x][y] == 1 {
                    image.push(255);
                    image.push(255);
                    image.push(255);
                } else {
                    image.push(0);
                    image.push(0);
                    image.push(0);
                }
                proof {
                    assert(image@[before.len() as int] == self.pixel(x as int, y as int).0);
                    assert(image@[before.len() as int + 1] == self.pixel(x as int, y as int).1);
                    assert(image@[before.len() as int + 2] == self.pixel(x as int, y as int).2);
                    assert forall|xx: int, yy: int|
                        self.inside(xx, yy) && (yy < y || (yy == y && xx < x + 1)) implies {
                        &&& image@[3 * (yy * self.width + xx)] == #[trigger] self.pixel(xx, yy).0
                        &&& image@[3 * (yy * self.width + xx) + 1] == self.pixel(xx, yy).1
                        &&& image@[3 * (yy * self.width + xx) + 2] == self.pixel(xx, yy).2
                    } by {
                        if yy < y || (yy == y && xx < x) {
                            lemma_rowmajor_lt(self.width as int, xx, yy, x as int, y as int);
                            assert(3 * (yy * self.width + xx) + 2 < before.len());
                            assert(image@[3 * (yy * self.width + xx)] == before[3 * (yy
                                * self.width + xx)]);
                            assert(image@[3 * (yy * self.width + xx) + 1] == before[3 * (yy
                                * self.width + xx) + 1]);
                            assert(image@[3 * (yy * self.width + xx) + 2] == before[3 * (yy
                                * self.width + xx) + 2]);
                        } else {
                            assert(xx == x && yy == y);
                        }
                    }
                }
                x = x + 1;
            }
            proof {
                assert((y + 1) * self.width == y * self.width + self.width) by (nonlinear_arith);
            }
            y = y + 1;
        }
        proof {
            assert(image@.len() == 3 * (self.height * self.width));
            assert(3 * (self.height * self.width) == self.width * self.height * 3)
                by (nonlinear_arith);
        }
        image
    }
}

/// Strictly before in row-major order means a strictly smaller flat index.
proof fn lemma_rowmajor_lt(w: int, x1: int, y1: int, x2: int, y2: int)
    requires
        0 <= x1 < w,
        0 <= x2,
        0 <= y1,
        y1 < y2 || (y1 == y2 && x1 < x2),
    ensures
        y1 * w + x1 < y2 * w + x2,
{
    if y1 < y2 {
        assert(y1 * w + w <= y2 * w) by (nonlinear_arith)
            requires
                y1 < y2,
                0 < w,
        ;
    }
}

/// Law: red marks the start cell alone, and, as long as the two markers
/// differ, blue marks the end cell alone: no other cell shows either
/// colour, so a rendered image holds exactly one triple of each.
pub proof fn lemma_marker_colors(m: Maze, x: int, y: int)
    requires
        m.inside(x, y),
    ensures
        m.pixel(x, y) == (255u8, 0u8, 0u8) <==> (x == m.start.x && y == m.start.y),
        !(m.start.x == m.end.x && m.start.y == m.end.y) ==> (m.pixel(x, y) == (
        0u8,
        0u8,
        255u8,
        ) <==> (x == m.end.x && y == m.end.y)),
{
}

/// Law: initializing a grid whose cells are all walls opens exactly the
/// junction lattice: afterwards a cell is path iff both coordinates are
/// even, and wall otherwise.
pub proof fn lemma_init_fresh_lattice(pre: Maze, post: Maze)
    requires
        pre.wf(),
        forall|x: int, y: int| #![trigger pre.cell(x, y)]
            pre.inside(x, y) ==> pre.cell(x, y) == 0,
        init_rel(pre, post),
    ensures
        forall|x: int, y: int| #![trigger post.cell(x, y)]
            post.inside(x, y) ==> (post.is_path(x, y) <==> is_junction(x, y)),
{
    assert forall|x: int, y: int| #![trigger post.cell(x, y)]
        post.inside(x, y) implies (post.is_path(x, y) <==> is_junction(x, y)) by {
        assert(pre.inside(x, y));
        assert(pre.cell(x, y) == 0);
    }
}

} // verus!
