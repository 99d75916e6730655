//! The grid model: cells, walls, and the maze that owns them.

use vstd::prelude::*;

verus! {

/// One grid position with its four walls, indexed top, right, bottom, left.
pub struct Cell {
    pub x: usize,
    pub y: usize,
    pub start: bool,
    pub end: bool,
    /// Set on the cells of the most recently computed solution path.
    pub path: bool,
    /// `walls[d]` is true when no passage leaves the cell in direction `d`.
    pub walls: [bool; 4],
    pub visited: bool,
}

/// A rectangular grid of cells, addressed as `grid[x][y]`.
pub struct Maze {
    pub width: usize,
    pub height: usize,
    pub start_cell: (usize, usize),
    pub end_cell: (usize, usize),
    pub grid: Vec<Vec<Cell>>,
}

/// Horizontal offset of direction `d` (top, right, bottom, left).
pub open spec fn dx(d: int) -> int {
    if d == 1 {
        1
    } else if d == 3 {
        -1
    } else {
        0
    }
}

/// Vertical offset of direction `d`; `y` grows downwards.
pub open spec fn dy(d: int) -> int {
    if d == 0 {
        -1
    } else if d == 2 {
        1
    } else {
        0
    }
}

/// The direction that faces back across the same edge.
pub open spec fn opposite(d: int) -> int {
    (d + 2) % 4
}

pub open spec fn is_dir(d: int) -> bool {
    0 <= d < 4
}

/// Wall `e` of `(i, j)` is one of the two sides of the edge that leaves
/// `(x, y)` in direction `d`.
pub open spec fn on_edge(x: int, y: int, d: int, i: int, j: int, e: int) -> bool {
    ||| (i, j, e) == (x, y, d)
    ||| (i, j, e) == (x + dx(d), y + dy(d), opposite(d))
}

impl Maze {
    pub open spec fn in_bounds(&self, x: int, y: int) -> bool {
        0 <= x < self.width && 0 <= y < self.height
    }

    pub open spec fn cell(&self, x: int, y: int) -> Cell {
        self.grid@[x]@[y]
    }

    pub open spec fn wall(&self, x: int, y: int, d: int) -> bool {
        self.cell(x, y).walls@[d]
    }

    /// Direction `d` from `(x, y)` leads to a cell of the grid.
    pub open spec fn has_neighbor(&self, x: int, y: int, d: int) -> bool {
        is_dir(d) && self.in_bounds(x, y) && self.in_bounds(x + dx(d), y + dy(d))
    }

    /// A passage leads from `(x, y)` in direction `d` to a cell of the grid.
    pub open spec fn open_dir(&self, x: int, y: int, d: int) -> bool {
        self.has_neighbor(x, y, d) && !self.wall(x, y, d)
    }

    /// `b` is reached from `a` through one open passage.
    pub open spec fn passage(&self, a: (int, int), b: (int, int)) -> bool {
        exists|d: int|
            #![trigger self.open_dir(a.0, a.1, d)]
            self.open_dir(a.0, a.1, d) && b == (a.0 + dx(d), a.1 + dy(d))
    }

    /// The grid has `width` columns of `height` cells, each knowing its place.
    pub open spec fn shaped(&self) -> bool {
        &&& self.width > 0
        &&& self.height > 0
        &&& self.width * self.height <= usize::MAX
        &&& self.grid@.len() == self.width
        &&& forall|x: int| 0 <= x < self.width ==> (#[trigger] self.grid@[x])@.len() == self.height
        &&& forall|x: int, y: int|
            #![trigger self.grid@[x]@[y]]
            self.in_bounds(x, y) ==> self.grid@[x]@[y].x == x && self.grid@[x]@[y].y == y
    }

    /// Both sides of every inner edge agree on whether it is open.
    pub open spec fn symmetric(&self) -> bool {
        forall|x: int, y: int, d: int|
            #![trigger self.wall(x, y, d)]
            self.has_neighbor(x, y, d) ==> self.wall(x, y, d) == self.wall(
                x + dx(d),
                y + dy(d),
                opposite(d),
            )
    }

    /// The start and end coordinates lie in the grid.
    pub open spec fn ends_in_bounds(&self) -> bool {
        &&& self.in_bounds(self.start_cell.0 as int, self.start_cell.1 as int)
        &&& self.in_bounds(self.end_cell.0 as int, self.end_cell.1 as int)
    }

    /// Well-formed maze: shaped, wall-symmetric, with start and end in the grid.
    pub open spec fn wf(&self) -> bool {
        &&& self.shaped()
        &&& self.symmetric()
        &&& self.ends_in_bounds()
    }

    /// Same endpoints, dimensions, row lengths and cell coordinates.
    pub open spec fn same_frame(&self, other: &Maze) -> bool {
        &&& self.start_cell == other.start_cell
        &&& self.end_cell == other.end_cell
        &&& self.same_shape(other)
    }

    /// Same dimensions, row lengths and cell coordinates.
    pub open spec fn same_shape(&self, other: &Maze) -> bool {
        &&& self.width == other.width
        &&& self.height == other.height
        &&& self.grid@.len() == other.grid@.len()
        &&& forall|x: int| 0 <= x < self.width ==> (#[trigger] other.grid@[x])@.len() == self.grid@[x]@.len()
        &&& forall|x: int, y: int|
            #![trigger other.grid@[x]@[y]]
            self.in_bounds(x, y) ==> self.grid@[x]@[y].x == other.grid@[x]@[y].x
                && self.grid@[x]@[y].y == other.grid@[x]@[y].y
    }

    /// Same frame, walls and start/end marks: only the per-run `visited`
    /// and `path` flags may differ.
    pub open spec fn same_layout(&self, other: &Maze) -> bool {
        &&& self.same_frame(other)
        &&& forall|x: int, y: int|
            #![trigger other.grid@[x]@[y]]
            self.in_bounds(x, y) ==> {
                let a = self.grid@[x]@[y];
                let b = other.grid@[x]@[y];
                a.walls == b.walls && a.start == b.start && a.end == b.end
            }
    }

    /// Same frame and the same flags on every cell: only walls may differ.
    pub open spec fn same_marks(&self, other: &Maze) -> bool {
        &&& self.same_frame(other)
        &&& forall|x: int, y: int|
            #![trigger other.grid@[x]@[y]]
            self.in_bounds(x, y) ==> {
                let a = self.grid@[x]@[y];
                let b = other.grid@[x]@[y];
                a.start == b.start && a.end == b.end && a.visited == b.visited && a.path == b.path
            }
    }

    /// Every wall of every cell is closed.
    pub open spec fn sealed(&self) -> bool {
        forall|x: int, y: int, d: int|
            #![trigger self.wall(x, y, d)]
            self.in_bounds(x, y) && is_dir(d) ==> self.wall(x, y, d)
    }

    /// No cell is marked as start or end.
    pub open spec fn unmarked(&self) -> bool {
        forall|x: int, y: int|
            #![trigger self.grid@[x]@[y]]
            self.in_bounds(x, y) ==> !self.grid@[x]@[y].start && !self.grid@[x]@[y].end
    }

    /// A maze as `new` leaves it: fully walled, with no flags set.
    pub open spec fn pristine(&self) -> bool {
        &&& self.wf()
        &&& self.sealed()
        &&& self.cleared()
        &&& self.unmarked()
    }

    /// Exactly the cell at `start_cell` is marked start and exactly the cell
    /// at `end_cell` is marked end.
    pub open spec fn ends_marked(&self) -> bool {
        forall|x: int, y: int|
            #![trigger self.grid@[x]@[y]]
            self.in_bounds(x, y) ==> self.grid@[x]@[y].start == ((x, y) == (
                self.start_cell.0 as int,
                self.start_cell.1 as int,
            )) && self.grid@[x]@[y].end == ((x, y) == (
                self.end_cell.0 as int,
                self.end_cell.1 as int,
            ))
    }

    /// Every cell is marked visited.
    pub open spec fn all_visited(&self) -> bool {
        forall|x: int, y: int|
            #![trigger self.grid@[x]@[y]]
            self.in_bounds(x, y) ==> self.grid@[x]@[y].visited
    }

    /// No cell is marked visited or on a path.
    pub open spec fn cleared(&self) -> bool {
        forall|x: int, y: int|
            #![trigger self.grid@[x]@[y]]
            self.in_bounds(x, y) ==> !self.grid@[x]@[y].visited && !self.grid@[x]@[y].path
    }

    /// The neighbor of `(x, y)` in direction `d`, when it lies in the grid.
    pub fn step(&self, x: usize, y: usize, d: usize) -> (r: Option<(usize, usize)>)
        requires
            self.in_bounds(x as int, y as int),
            d < 4,
        ensures
            r.is_some() == self.has_neighbor(x as int, y as int, d as int),
            r.is_some() ==> r.unwrap().0 == x + dx(d as int) && r.unwrap().1 == y + dy(d as int),
    {
        if d == 0 {
            if y > 0 {
                Some((x, y - 1))
            } else {
                None
            }
        } else if d == 1 {
            if x + 1 < self.width {
                Some((x + 1, y))
            } else {
                None
            }
        } else if d == 2 {
            if y + 1 < self.height {
                Some((x, y + 1))
            } else {
                None
            }
        } else {
            if x > 0 {
                Some((x - 1, y))
            } else {
                None
            }
        }
    }

    /// Open the wall pair on the edge between `(x, y)` and its neighbor in
    /// direction `d`; opening an edge that is already open changes nothing.
    pub fn open_pair(&mut self, x: usize, y: usize, d: usize)
        requires
            old(self).wf(),
            old(self).has_neighbor(x as int, y as int, d as int),
        ensures
            final(self).wf(),
            final(self).same_marks(old(self)),
            forall|i: int, j: int, e: int|
                #![trigger final(self).wall(i, j, e)]
                old(self).in_bounds(i, j) && is_dir(e) ==> final(self).wall(i, j, e) == (old(self).wall(i, j, e)
                    && !on_edge(x as int, y as int, d as int, i, j, e)),
    {
        let nx: usize = if d == 1 {
            x + 1
        } else if d == 3 {
            x - 1
        } else {
            x
        };
        let ny: usize = if d == 2 {
            y + 1
        } else if d == 0 {
            y - 1
        } else {
            y
        };
        self.grid[x][y].walls[d] = false;
        let ghost mid = self.grid@[x as int]@[y as int].walls@;
        assert(mid == old(self).grid@[x as int]@[y as int].walls@.update(d as int, false));
        self.grid[nx][ny].walls[(d + 2) % 4] = false;
        assert(self.grid@[nx as int]@[ny as int].walls@ == old(self).grid@[nx as int]@[ny as int].walls@.update(
            opposite(d as int),
            false,
        ));
        assert(self.grid@[x as int]@[y as int].walls@ == mid);
        proof {
            lemma_same_frame_shaped(old(self), self);
            assert forall|i: int, j: int, e: int|
                #![trigger self.wall(i, j, e)]
                old(self).in_bounds(i, j) && is_dir(e) implies self.wall(i, j, e) == (old(self).wall(i, j, e)
                    && !on_edge(x as int, y as int, d as int, i, j, e)) by {
                if (i, j) != (x as int, y as int) && (i, j) != (nx as int, ny as int) {
                    assert(self.grid@[i]@[j] == old(self).grid@[i]@[j]);
                }
            }
        }
    }

    /// Mark `(x, y)` visited, leaving everything else as it is.
    pub(crate) fn mark_visited(&mut self, x: usize, y: usize)
        requires
            old(self).wf(),
            old(self).in_bounds(x as int, y as int),
        ensures
            final(self).wf(),
            final(self).same_layout(old(self)),
            final(self).grid@[x as int]@[y as int] == (Cell {
                visited: true,
                ..old(self).grid@[x as int]@[y as int]
            }),
            forall|i: int, j: int|
                #![trigger final(self).grid@[i]@[j]]
                old(self).in_bounds(i, j) && (i, j) != (x as int, y as int)
                    ==> final(self).grid@[i]@[j] == old(self).grid@[i]@[j],
    {
        self.grid[x][y].visited = true;
        proof {
            lemma_same_layout_wf(old(self), self);
        }
    }

    /// Mark `(x, y)` as lying on the solution path, leaving everything else
    /// as it is.
    pub(crate) fn mark_path(&mut self, x: usize, y: usize)
        requires
            old(self).wf(),
            old(self).in_bounds(x as int, y as int),
        ensures
            final(self).wf(),
            final(self).same_layout(old(self)),
            final(self).grid@[x as int]@[y as int] == (Cell {
                path: true,
                ..old(self).grid@[x as int]@[y as int]
            }),
            forall|i: int, j: int|
                #![trigger final(self).grid@[i]@[j]]
                old(self).in_bounds(i, j) && (i, j) != (x as int, y as int)
                    ==> final(self).grid@[i]@[j] == old(self).grid@[i]@[j],
    {
        self.grid[x][y].path = true;
        proof {
            lemma_same_layout_wf(old(self), self);
        }
    }

    /// Clear the `visited` and `path` flags of every cell, leaving walls and
    /// start and end marks as they are.
    pub fn reset_visited(&mut self)
        requires
            old(self).shaped(),
        ensures
            final(self).same_layout(old(self)),
            final(self).cleared(),
            final(self).wf() == old(self).wf(),
    {
        let mut x: usize = 0;
        while x < self.width
            invariant
                self.shaped(),
                self.same_layout(old(self)),
                x <= self.width,
                forall|i: int, j: int|
                    #![trigger self.grid@[i]@[j]]
                    0 <= i < x && 0 <= j < self.height ==> !self.grid@[i]@[j].visited
                        && !self.grid@[i]@[j].path,
            decreases self.width - x,
        {
            let mut y: usize = 0;
            while y < self.height
                invariant
                    self.shaped(),
                    self.same_layout(old(self)),
                    x < self.width,
                    y <= self.height,
                    forall|i: int, j: int|
                        #![trigger self.grid@[i]@[j]]
                        (0 <= i < x && 0 <= j < self.height) || (i == x && 0 <= j < y)
                            ==> !self.grid@[i]@[j].visited && !self.grid@[i]@[j].path,
                decreases self.height - y,
            {
                self.grid[x][y].visited = false;
                self.grid[x][y].path = false;
                y = y + 1;
            }
            x = x + 1;
        }
        proof {
            lemma_same_layout_wf(old(self), self);
        }
    }

    /// Create a `width` by `height` maze whose cells are all fully walled.
    pub fn new(width: usize, height: usize) -> (m: Maze)
        requires
            width > 0,
            height > 0,
            width * height <= usize::MAX,
        ensures
            m.pristine(),
            m.width == width,
            m.height == height,
            m.start_cell == (0usize, 0usize),
            m.end_cell == (0usize, 0usize),
    {
        let mut grid: Vec<Vec<Cell>> = Vec::with_capacity(width);
        let mut x: usize = 0;
        while x < width
            invariant
                x <= width,
                grid@.len() == x,
                forall|i: int| 0 <= i < x ==> (#[trigger] grid@[i])@.len() == height,
                forall|i: int, j: int|
                    #![trigger grid@[i]@[j]]
                    0 <= i < x && 0 <= j < height ==> {
                        let c = grid@[i]@[j];
                        c.x == i && c.y == j && c.walls@ == seq![true, true, true, true]
                            && !c.visited && !c.path && !c.start && !c.end
                    },
            decreases width - x,
        {
            let mut row: Vec<Cell> = Vec::with_capacity(height);
            let mut y: usize = 0;
            while y < height
                invariant
                    y <= height,
                    row@.len() == y,
                    forall|j: int|
                        #![trigger row@[j]]
                        0 <= j < y ==> {
                            let c = row@[j];
                            c.x == x && c.y == j && c.walls@ == seq![true, true, true, true]
                                && !c.visited && !c.path && !c.start && !c.end
                        },
                decreases height - y,
            {
                row.push(
                    Cell {
                        x,
                        y,
                        start: false,
                        end: false,
                        path: false,
                        walls: [true, true, true, true],
                        visited: false,
                    },
                );
                y = y + 1;
            }
            grid.push(row);
            x = x + 1;
        }
        Maze { width, height, grid, start_cell: (0, 0), end_cell: (0, 0) }
    }
}

/// Mazes with the same frame agree on being shaped and on where the
/// endpoints lie.
pub proof fn lemma_same_frame_shaped(a: &Maze, b: &Maze)
    requires
        b.same_shape(a),
    ensures
        a.shaped() == b.shaped(),
        b.start_cell == a.start_cell && b.end_cell == a.end_cell ==> a.ends_in_bounds() == b.ends_in_bounds(),
{
    if a.shaped() {
        assert forall|x: int| 0 <= x < b.width implies (#[trigger] b.grid@[x])@.len() == b.height by {
            assert(a.grid@[x]@.len() == b.grid@[x]@.len());
        }
        assert forall|x: int, y: int|
            #![trigger b.grid@[x]@[y]]
            b.in_bounds(x, y) implies b.grid@[x]@[y].x == x && b.grid@[x]@[y].y == y by {
            assert(a.grid@[x]@[y].x == x);
        }
        assert(b.shaped());
    }
    if b.shaped() {
        assert forall|x: int| 0 <= x < a.width implies (#[trigger] a.grid@[x])@.len() == a.height by {
            assert(b.grid@[x]@.len() == a.grid@[x]@.len());
        }
        assert forall|x: int, y: int|
            #![trigger a.grid@[x]@[y]]
            a.in_bounds(x, y) implies a.grid@[x]@[y].x == x && a.grid@[x]@[y].y == y by {
            assert(b.grid@[x]@[y].x == x);
        }
        assert(a.shaped());
    }
}

/// Mazes with the same layout agree on well-formedness and on every wall.
pub proof fn lemma_same_layout_wf(a: &Maze, b: &Maze)
    requires
        b.same_layout(a),
    ensures
        a.shaped() == b.shaped(),
        a.wf() == b.wf(),
        forall|x: int, y: int, d: int|
            #![trigger b.wall(x, y, d)]
            a.in_bounds(x, y) ==> b.wall(x, y, d) == a.wall(x, y, d),
{
    lemma_same_frame_shaped(a, b);
    assert forall|x: int, y: int, d: int|
        #![trigger b.wall(x, y, d)]
        a.in_bounds(x, y) implies b.wall(x, y, d) == a.wall(x, y, d) by {
        assert(b.grid@[x]@[y].walls == a.grid@[x]@[y].walls);
    }
    assert(a.symmetric() == b.symmetric()) by {
        if a.symmetric() {
            assert forall|x: int, y: int, d: int|
                #![trigger b.wall(x, y, d)]
                b.has_neighbor(x, y, d) implies b.wall(x, y, d) == b.wall(
                    x + dx(d),
                    y + dy(d),
                    opposite(d),
                ) by {
                assert(a.wall(x, y, d) == a.wall(x + dx(d), y + dy(d), opposite(d)));
                assert(b.wall(x + dx(d), y + dy(d), opposite(d)) == a.wall(x + dx(d), y + dy(d), opposite(d)));
            }
        }
        if b.symmetric() {
            assert forall|x: int, y: int, d: int|
                #![trigger a.wall(x, y, d)]
                a.has_neighbor(x, y, d) implies a.wall(x, y, d) == a.wall(
                    x + dx(d),
                    y + dy(d),
                    opposite(d),
                ) by {
                assert(b.wall(x, y, d) == b.wall(x + dx(d), y + dy(d), opposite(d)));
                assert(b.wall(x + dx(d), y + dy(d), opposite(d)) == a.wall(x + dx(d), y + dy(d), opposite(d)));
            }
        }
    }
}

/// Having the same layout is transitive.
pub proof fn lemma_same_layout_trans(a: &Maze, b: &Maze, c: &Maze)
    requires
        a.shaped(),
        b.same_layout(a),
        c.same_layout(b),
    ensures
        c.same_layout(a),
{
    assert forall|x: int| 0 <= x < c.width implies (#[trigger] a.grid@[x])@.len() == c.grid@[x]@.len() by {
        assert(b.grid@[x]@.len() == a.grid@[x]@.len());
    }
    assert forall|x: int, y: int|
        #![trigger a.grid@[x]@[y]]
        c.in_bounds(x, y) implies {
            let p = c.grid@[x]@[y];
            let q = a.grid@[x]@[y];
            p.x == q.x && p.y == q.y && p.walls == q.walls && p.start == q.start && p.end == q.end
        } by {
        assert(b.grid@[x]@[y].walls == a.grid@[x]@[y].walls);
    }
}

/// Walls come in pairs: in a well-formed maze, a cell has no wall facing a
/// neighbor exactly when that neighbor has no wall facing back.
pub proof fn lemma_wall_symmetry(m: &Maze, x: int, y: int, d: int)
    requires
        m.wf(),
        m.has_neighbor(x, y, d),
    ensures
        !m.wall(x, y, d) <==> !m.wall(x + dx(d), y + dy(d), opposite(d)),
{
}

} // verus!
