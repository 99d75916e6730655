//! Counting over the grid, and paths through open passages.

use crate::maze::{dx, dy, is_dir, opposite, Maze};
use vstd::prelude::*;

verus! {

/// `f(x, 0) + ... + f(x, n - 1)`.
pub open spec fn column_sum(f: spec_fn(int, int) -> int, x: int, n: int) -> int
    decreases n,
{
    if n <= 0 {
        0
    } else {
        column_sum(f, x, n - 1) + f(x, n - 1)
    }
}

/// The sum of `f` over the cells of a `w` by `h` grid.
pub open spec fn grid_sum(f: spec_fn(int, int) -> int, w: int, h: int) -> int
    decreases w,
{
    if w <= 0 {
        0
    } else {
        grid_sum(f, w - 1, h) + column_sum(f, w - 1, h)
    }
}

proof fn lemma_column_mono(f: spec_fn(int, int) -> int, g: spec_fn(int, int) -> int, x: int, n: int)
    requires
        forall|y: int| 0 <= y < n ==> #[trigger] f(x, y) <= g(x, y),
    ensures
        column_sum(f, x, n) <= column_sum(g, x, n),
    decreases n,
{
    if n > 0 {
        lemma_column_mono(f, g, x, n - 1);
    }
}

/// A sum grows with its summands.
pub proof fn lemma_grid_sum_mono(f: spec_fn(int, int) -> int, g: spec_fn(int, int) -> int, w: int, h: int)
    requires
        forall|x: int, y: int| 0 <= x < w && 0 <= y < h ==> #[trigger] f(x, y) <= g(x, y),
    ensures
        grid_sum(f, w, h) <= grid_sum(g, w, h),
    decreases w,
{
    if w > 0 {
        lemma_grid_sum_mono(f, g, w - 1, h);
        lemma_column_mono(f, g, w - 1, h);
    }
}

/// Sums of equal summands are equal.
pub proof fn lemma_grid_sum_eq(f: spec_fn(int, int) -> int, g: spec_fn(int, int) -> int, w: int, h: int)
    requires
        forall|x: int, y: int| 0 <= x < w && 0 <= y < h ==> #[trigger] f(x, y) == g(x, y),
    ensures
        grid_sum(f, w, h) == grid_sum(g, w, h),
{
    lemma_grid_sum_mono(f, g, w, h);
    lemma_grid_sum_mono(g, f, w, h);
}

proof fn lemma_column_bump(
    f: spec_fn(int, int) -> int,
    g: spec_fn(int, int) -> int,
    x: int,
    n: int,
    y0: int,
)
    requires
        0 <= y0 < n,
        forall|y: int| 0 <= y < n && y != y0 ==> #[trigger] f(x, y) == g(x, y),
        g(x, y0) == f(x, y0) + 1,
    ensures
        column_sum(g, x, n) == column_sum(f, x, n) + 1,
    decreases n,
{
    if y0 < n - 1 {
        lemma_column_bump(f, g, x, n - 1, y0);
    } else {
        lemma_column_mono(f, g, x, n - 1);
        lemma_column_mono(g, f, x, n - 1);
    }
}

/// Raising one summand by one raises the sum by one.
pub proof fn lemma_grid_sum_bump(
    f: spec_fn(int, int) -> int,
    g: spec_fn(int, int) -> int,
    w: int,
    h: int,
    x0: int,
    y0: int,
)
    requires
        0 <= x0 < w,
        0 <= y0 < h,
        forall|x: int, y: int|
            0 <= x < w && 0 <= y < h && (x, y) != (x0, y0) ==> #[trigger] f(x, y) == g(x, y),
        g(x0, y0) == f(x0, y0) + 1,
    ensures
        grid_sum(g, w, h) == grid_sum(f, w, h) + 1,
    decreases w,
{
    if x0 < w - 1 {
        lemma_grid_sum_bump(f, g, w - 1, h, x0, y0);
        lemma_column_mono(f, g, w - 1, h);
        lemma_column_mono(g, f, w - 1, h);
    } else {
        lemma_grid_sum_eq(f, g, w - 1, h);
        lemma_column_bump(f, g, w - 1, h, y0);
    }
}

proof fn lemma_column_ones(f: spec_fn(int, int) -> int, x: int, n: int)
    requires
        n >= 0,
        forall|y: int| 0 <= y < n ==> #[trigger] f(x, y) == 1,
    ensures
        column_sum(f, x, n) == n,
    decreases n,
{
    if n > 0 {
        lemma_column_ones(f, x, n - 1);
    }
}

/// Summing one over every cell counts the cells.
pub proof fn lemma_grid_sum_ones(f: spec_fn(int, int) -> int, w: int, h: int)
    requires
        w >= 0,
        h >= 0,
        forall|x: int, y: int| 0 <= x < w && 0 <= y < h ==> #[trigger] f(x, y) == 1,
    ensures
        grid_sum(f, w, h) == w * h,
    decreases w,
{
    if w > 0 {
        lemma_grid_sum_ones(f, w - 1, h);
        lemma_column_ones(f, w - 1, h);
        assert((w - 1) * h + h == w * h) by (nonlinear_arith);
    } else {
        assert(w * h == 0) by (nonlinear_arith)
            requires
                w == 0,
        ;
    }
}

proof fn lemma_column_zeros(f: spec_fn(int, int) -> int, x: int, n: int)
    requires
        forall|y: int| 0 <= y < n ==> #[trigger] f(x, y) == 0,
    ensures
        column_sum(f, x, n) == 0,
    decreases n,
{
    if n > 0 {
        lemma_column_zeros(f, x, n - 1);
    }
}

/// Summing zero over every cell gives zero.
pub proof fn lemma_grid_sum_zeros(f: spec_fn(int, int) -> int, w: int, h: int)
    requires
        forall|x: int, y: int| 0 <= x < w && 0 <= y < h ==> #[trigger] f(x, y) == 0,
    ensures
        grid_sum(f, w, h) == 0,
    decreases w,
{
    if w > 0 {
        lemma_grid_sum_zeros(f, w - 1, h);
        lemma_column_zeros(f, w - 1, h);
    }
}

impl Maze {
    /// Open passages that leave `(x, y)` to the right or downwards: each
    /// open wall pair is counted at exactly one of its two cells.
    pub open spec fn pairs_at(&self, x: int, y: int) -> int {
        (if self.open_dir(x, y, 1) {
            1int
        } else {
            0
        }) + (if self.open_dir(x, y, 2) {
            1int
        } else {
            0
        })
    }

    /// The number of open wall pairs in the maze.
    pub open spec fn open_pairs(&self) -> int {
        grid_sum(|x: int, y: int| self.pairs_at(x, y), self.width as int, self.height as int)
    }

    /// The number of cells marked visited.
    pub open spec fn visited_count(&self) -> int {
        grid_sum(
            |x: int, y: int|
                if self.grid@[x]@[y].visited {
                    1int
                } else {
                    0
                },
            self.width as int,
            self.height as int,
        )
    }

    /// `p` is a non-empty walk through the grid, each step crossing an open passage.
    pub open spec fn is_path(&self, p: Seq<(int, int)>) -> bool {
        &&& p.len() > 0
        &&& forall|i: int| 0 <= i < p.len() ==> self.in_bounds(#[trigger] p[i].0, p[i].1)
        &&& forall|i: int| 0 <= i < p.len() - 1 ==> #[trigger] self.passage(p[i], p[i + 1])
    }

    /// `p` is a path that starts at `a` and ends at `b`.
    pub open spec fn path_between(&self, p: Seq<(int, int)>, a: (int, int), b: (int, int)) -> bool {
        self.is_path(p) && p[0] == a && p.last() == b
    }

    pub open spec fn reachable(&self, a: (int, int), b: (int, int)) -> bool {
        exists|p: Seq<(int, int)>| self.path_between(p, a, b)
    }

    pub open spec fn start_pos(&self) -> (int, int) {
        (self.start_cell.0 as int, self.start_cell.1 as int)
    }

    pub open spec fn end_pos(&self) -> (int, int) {
        (self.end_cell.0 as int, self.end_cell.1 as int)
    }

    /// Every cell can be reached from the start cell.
    pub open spec fn connected(&self) -> bool {
        forall|x: int, y: int| #[trigger]
            self.in_bounds(x, y) ==> self.reachable(self.start_pos(), (x, y))
    }
}

/// A fully walled maze has no open pair; one with no visited cell counts none.
pub proof fn lemma_counts_empty(m: &Maze)
    requires
        m.shaped(),
    ensures
        m.sealed() ==> m.open_pairs() == 0,
        m.cleared() ==> m.visited_count() == 0,
{
    if m.sealed() {
        lemma_grid_sum_zeros(|x: int, y: int| m.pairs_at(x, y), m.width as int, m.height as int);
    }
    if m.cleared() {
        let f = |x: int, y: int|
            if m.grid@[x]@[y].visited {
                1int
            } else {
                0
            };
        assert forall|x: int, y: int| 0 <= x < m.width && 0 <= y < m.height implies #[trigger] f(x, y) == 0 by {
            assert(!m.grid@[x]@[y].visited);
        }
        lemma_grid_sum_zeros(f, m.width as int, m.height as int);
    }
}

/// With every cell visited, the visited count is the number of cells; it
/// never exceeds it.
pub proof fn lemma_visited_count_bound(m: &Maze)
    requires
        m.shaped(),
    ensures
        0 <= m.visited_count() <= m.width * m.height,
        m.all_visited() ==> m.visited_count() == m.width * m.height,
{
    let f = |x: int, y: int|
        if m.grid@[x]@[y].visited {
            1int
        } else {
            0
        };
    let one = |x: int, y: int| 1int;
    let zero = |x: int, y: int| 0int;
    lemma_grid_sum_ones(one, m.width as int, m.height as int);
    lemma_grid_sum_zeros(zero, m.width as int, m.height as int);
    lemma_grid_sum_mono(f, one, m.width as int, m.height as int);
    lemma_grid_sum_mono(zero, f, m.width as int, m.height as int);
    if m.all_visited() {
        assert forall|x: int, y: int| 0 <= x < m.width && 0 <= y < m.height implies #[trigger] f(x, y) == 1 by {
            assert(m.grid@[x]@[y].visited);
        }
        lemma_grid_sum_ones(f, m.width as int, m.height as int);
    }
}

/// Opening one closed wall pair adds one open pair and leaves the visited
/// count alone.
pub proof fn lemma_open_pair_counts(a: &Maze, b: &Maze, x: int, y: int, d: int)
    requires
        a.wf(),
        b.same_marks(a),
        a.has_neighbor(x, y, d),
        a.wall(x, y, d),
        forall|i: int, j: int, e: int|
            #![trigger b.wall(i, j, e)]
            a.in_bounds(i, j) && is_dir(e) ==> b.wall(i, j, e) == (a.wall(i, j, e) && !crate::maze::on_edge(x, y, d, i, j, e)),
    ensures
        b.open_pairs() == a.open_pairs() + 1,
        b.visited_count() == a.visited_count(),
{
    let fa = |i: int, j: int| a.pairs_at(i, j);
    let fb = |i: int, j: int| b.pairs_at(i, j);
    let (tx, ty) = if d == 1 || d == 2 {
        (x, y)
    } else {
        (x + dx(d), y + dy(d))
    };
    assert(a.wall(x + dx(d), y + dy(d), opposite(d)));
    assert forall|i: int, j: int|
        0 <= i < a.width && 0 <= j < a.height && (i, j) != (tx, ty) implies #[trigger] fa(i, j) == fb(i, j) by {
        assert(b.wall(i, j, 1) == a.wall(i, j, 1));
        assert(b.wall(i, j, 2) == a.wall(i, j, 2));
    }
    assert(b.wall(tx, ty, 1) == a.wall(tx, ty, 1) || b.wall(tx, ty, 2) == a.wall(tx, ty, 2));
    assert(fb(tx, ty) == fa(tx, ty) + 1);
    lemma_grid_sum_bump(fa, fb, a.width as int, a.height as int, tx, ty);
    let va = |i: int, j: int|
        if a.grid@[i]@[j].visited {
            1int
        } else {
            0
        };
    let vb = |i: int, j: int|
        if b.grid@[i]@[j].visited {
            1int
        } else {
            0
        };
    assert forall|i: int, j: int| 0 <= i < a.width && 0 <= j < a.height implies #[trigger] va(i, j) == vb(i, j) by {
        assert(a.grid@[i]@[j].visited == b.grid@[i]@[j].visited);
    }
    lemma_grid_sum_eq(va, vb, a.width as int, a.height as int);
}

/// Marking one unvisited cell adds one to the visited count and leaves the
/// open pairs alone.
pub proof fn lemma_mark_counts(a: &Maze, b: &Maze, x: int, y: int)
    requires
        a.wf(),
        b.same_layout(a),
        a.in_bounds(x, y),
        !a.grid@[x]@[y].visited,
        b.grid@[x]@[y].visited,
        forall|i: int, j: int|
            #![trigger b.grid@[i]@[j]]
            a.in_bounds(i, j) && (i, j) != (x, y) ==> b.grid@[i]@[j] == a.grid@[i]@[j],
    ensures
        b.open_pairs() == a.open_pairs(),
        b.visited_count() == a.visited_count() + 1,
{
    let fa = |i: int, j: int| a.pairs_at(i, j);
    let fb = |i: int, j: int| b.pairs_at(i, j);
    crate::maze::lemma_same_layout_wf(a, b);
    assert forall|i: int, j: int| 0 <= i < a.width && 0 <= j < a.height implies #[trigger] fa(i, j) == fb(i, j) by {
        assert(b.wall(i, j, 1) == a.wall(i, j, 1));
        assert(b.wall(i, j, 2) == a.wall(i, j, 2));
    }
    lemma_grid_sum_eq(fa, fb, a.width as int, a.height as int);
    let va = |i: int, j: int|
        if a.grid@[i]@[j].visited {
            1int
        } else {
            0
        };
    let vb = |i: int, j: int|
        if b.grid@[i]@[j].visited {
            1int
        } else {
            0
        };
    assert forall|i: int, j: int|
        0 <= i < a.width && 0 <= j < a.height && (i, j) != (x, y) implies #[trigger] va(i, j) == vb(i, j) by {
        assert(a.grid@[i]@[j] == b.grid@[i]@[j]);
    }
    lemma_grid_sum_bump(va, vb, a.width as int, a.height as int, x, y);
}

/// In a wall-symmetric maze every passage can be crossed both ways.
pub proof fn lemma_passage_back(m: &Maze, a: (int, int), b: (int, int))
    requires
        m.symmetric(),
        m.passage(a, b),
    ensures
        m.passage(b, a),
{
    let d = choose|d: int| #[trigger] m.open_dir(a.0, a.1, d) && b == (a.0 + dx(d), a.1 + dy(d));
    let e = opposite(d);
    assert(m.wall(a.0, a.1, d) == m.wall(b.0, b.1, e));
    assert(m.open_dir(b.0, b.1, e));
}

/// A path extended by one passage is still a path.
pub proof fn lemma_path_push(m: &Maze, p: Seq<(int, int)>, c: (int, int))
    requires
        m.is_path(p),
        m.passage(p.last(), c),
    ensures
        m.is_path(p.push(c)),
        p.push(c)[0] == p[0],
        p.push(c).last() == c,
{
    let q = p.push(c);
    let d = choose|d: int| #[trigger] m.open_dir(p.last().0, p.last().1, d) && c == (p.last().0 + dx(d), p.last().1 + dy(d));
    assert(m.in_bounds(c.0, c.1));
    assert forall|i: int| 0 <= i < q.len() implies m.in_bounds(#[trigger] q[i].0, q[i].1) by {
        if i < p.len() {
            assert(q[i] == p[i]);
        }
    }
    assert forall|i: int| 0 <= i < q.len() - 1 implies #[trigger] m.passage(q[i], q[i + 1]) by {
        if i < p.len() - 1 {
            assert(q[i] == p[i] && q[i + 1] == p[i + 1]);
        }
    }
}

/// A path that is valid in one maze stays valid in a maze of the same
/// dimensions whose open passages include the first maze's.
pub proof fn lemma_path_more_open(m: &Maze, n: &Maze, p: Seq<(int, int)>)
    requires
        m.is_path(p),
        n.width == m.width,
        n.height == m.height,
        forall|x: int, y: int, d: int| #[trigger] m.open_dir(x, y, d) ==> n.open_dir(x, y, d),
    ensures
        n.is_path(p),
{
    assert forall|i: int| 0 <= i < p.len() - 1 implies #[trigger] n.passage(p[i], p[i + 1]) by {
        assert(m.passage(p[i], p[i + 1]));
        let d = choose|d: int| #[trigger] m.open_dir(p[i].0, p[i].1, d) && p[i + 1] == (p[i].0 + dx(d), p[i].1 + dy(d));
        assert(n.open_dir(p[i].0, p[i].1, d));
    }
}

/// From every visited cell, each neighbor in the grid is visited too.
pub open spec fn visits_closed(m: &Maze) -> bool {
    forall|x: int, y: int, e: int|
        #![trigger m.has_neighbor(x, y, e)]
        m.has_neighbor(x, y, e) && m.grid@[x]@[y].visited ==> m.grid@[x + dx(e)]@[y + dy(e)].visited
}

proof fn lemma_spread_row(m: &Maze, sx: int, sy: int, x: int)
    requires
        m.shaped(),
        m.in_bounds(sx, sy),
        m.grid@[sx]@[sy].visited,
        visits_closed(m),
        0 <= x < m.width,
    ensures
        m.grid@[x]@[sy].visited,
    decreases
            if x >= sx {
                x - sx
            } else {
                sx - x
            },
{
    if x > sx {
        lemma_spread_row(m, sx, sy, x - 1);
        assert(m.has_neighbor(x - 1, sy, 1));
    } else if x < sx {
        lemma_spread_row(m, sx, sy, x + 1);
        assert(m.has_neighbor(x + 1, sy, 3));
    }
}

proof fn lemma_spread_column(m: &Maze, x: int, sy: int, y: int)
    requires
        m.shaped(),
        m.in_bounds(x, sy),
        m.grid@[x]@[sy].visited,
        visits_closed(m),
        0 <= y < m.height,
    ensures
        m.grid@[x]@[y].visited,
    decreases
            if y >= sy {
                y - sy
            } else {
                sy - y
            },
{
    if y > sy {
        lemma_spread_column(m, x, sy, y - 1);
        assert(m.has_neighbor(x, y - 1, 2));
    } else if y < sy {
        lemma_spread_column(m, x, sy, y + 1);
        assert(m.has_neighbor(x, y + 1, 0));
    }
}

/// Visits closed under stepping to neighbors reach the whole grid from any
/// visited cell.
pub proof fn lemma_spread(m: &Maze, s: (int, int))
    requires
        m.shaped(),
        m.in_bounds(s.0, s.1),
        m.grid@[s.0]@[s.1].visited,
        visits_closed(m),
    ensures
        m.all_visited(),
{
    assert forall|x: int, y: int| #![trigger m.grid@[x]@[y]] m.in_bounds(x, y) implies m.grid@[x]@[y].visited by {
        lemma_spread_row(m, s.0, s.1, x);
        lemma_spread_column(m, x, s.1, y);
    }
}

/// A certificate that every visited cell hangs off `s`: each ranked cell
/// other than `s` has an open passage, in direction `pdir`, to a ranked cell
/// of lower `rank`, and every visited cell is ranked.
pub open spec fn rooted(m: &Maze, s: (int, int), rank: Map<(int, int), int>, pdir: Map<(int, int), int>) -> bool {
    &&& m.in_bounds(s.0, s.1)
    &&& rank.dom().contains(s)
    &&& forall|x: int, y: int|
        #![trigger m.grid@[x]@[y]]
        m.in_bounds(x, y) && m.grid@[x]@[y].visited ==> rank.dom().contains((x, y))
    &&& forall|c: (int, int)| #[trigger] ranked(rank, c) ==> rooted_at(m, s, rank, pdir, c)
}

/// The certificate ranks cell `c`.
pub open spec fn ranked(rank: Map<(int, int), int>, c: (int, int)) -> bool {
    rank.dom().contains(c)
}

/// What the certificate asks of one ranked cell.
pub open spec fn rooted_at(m: &Maze, s: (int, int), rank: Map<(int, int), int>, pdir: Map<(int, int), int>, c: (int, int)) -> bool {
    &&& rank[c] >= 0
    &&& m.in_bounds(c.0, c.1)
    &&& m.grid@[c.0]@[c.1].visited
    &&& c != s ==> {
        let e = pdir[c];
        &&& m.open_dir(c.0, c.1, e)
        &&& rank.dom().contains((c.0 + dx(e), c.1 + dy(e)))
        &&& rank[(c.0 + dx(e), c.1 + dy(e))] < rank[c]
    }
}

/// Every visited cell of a rooted maze is reachable from the root.
pub proof fn lemma_rooted_reachable(
    m: &Maze,
    s: (int, int),
    rank: Map<(int, int), int>,
    pdir: Map<(int, int), int>,
    c: (int, int),
)
    requires
        m.symmetric(),
        rooted(m, s, rank, pdir),
        rank.dom().contains(c),
    ensures
        m.reachable(s, c),
    decreases rank[c],
{
    let e = pdir[c];
    assert(ranked(rank, c));
    assert(rooted_at(m, s, rank, pdir, c));
    if c == s {
        let p = seq![s];
        assert(m.path_between(p, s, c));
    } else {
        let q = (c.0 + dx(e), c.1 + dy(e));
        assert(ranked(rank, q));
        lemma_rooted_reachable(m, s, rank, pdir, q);
        let p = choose|p: Seq<(int, int)>| m.path_between(p, s, q);
        assert(m.passage(c, q));
        lemma_passage_back(m, c, q);
        lemma_path_push(m, p, c);
        assert(m.path_between(p.push(c), s, c));
    }
}

/// Visits closed under crossing open passages reach every cell that a path
/// from a visited cell reaches.
pub proof fn lemma_closed_reach(m: &Maze, p: Seq<(int, int)>)
    requires
        m.is_path(p),
        m.grid@[p[0].0]@[p[0].1].visited,
        forall|x: int, y: int, e: int|
            #![trigger m.open_dir(x, y, e)]
            m.open_dir(x, y, e) && m.grid@[x]@[y].visited ==> m.grid@[x + dx(e)]@[y + dy(e)].visited,
    ensures
        m.grid@[p.last().0]@[p.last().1].visited,
    decreases p.len(),
{
    if p.len() > 1 {
        let q = p.drop_last();
        assert forall|i: int| 0 <= i < q.len() - 1 implies #[trigger] m.passage(q[i], q[i + 1]) by {
            assert(m.passage(p[i], p[i + 1]));
        }
        assert forall|i: int| 0 <= i < q.len() implies m.in_bounds(#[trigger] q[i].0, q[i].1) by {
            assert(m.in_bounds(p[i].0, p[i].1));
        }
        lemma_closed_reach(m, q);
        let last = p.len() - 2;
        assert(m.passage(p[last], p[last + 1]));
        let a = p[p.len() - 2];
        let e = choose|e: int| #[trigger] m.open_dir(a.0, a.1, e) && p.last() == (a.0 + dx(e), a.1 + dy(e));
    }
}

/// A potential that rises by at most one across every passage rises by at
/// most the number of steps along any path.
pub proof fn lemma_potential_path(m: &Maze, f: spec_fn((int, int)) -> int, p: Seq<(int, int)>)
    requires
        m.is_path(p),
        forall|a: (int, int), b: (int, int)| #[trigger] m.passage(a, b) ==> f(b) <= f(a) + 1,
    ensures
        f(p.last()) <= f(p[0]) + p.len() - 1,
    decreases p.len(),
{
    if p.len() > 1 {
        let q = p.drop_last();
        assert forall|i: int| 0 <= i < q.len() - 1 implies #[trigger] m.passage(q[i], q[i + 1]) by {
            assert(m.passage(p[i], p[i + 1]));
        }
        assert forall|i: int| 0 <= i < q.len() implies m.in_bounds(#[trigger] q[i].0, q[i].1) by {
            assert(m.in_bounds(p[i].0, p[i].1));
        }
        lemma_potential_path(m, f, q);
        let last = p.len() - 2;
        assert(m.passage(p[last], p[last + 1]));
    }
}

/// A path preceded by one passage is still a path.
pub proof fn lemma_path_prepend(m: &Maze, c: (int, int), p: Seq<(int, int)>)
    requires
        m.is_path(p),
        m.in_bounds(c.0, c.1),
        m.passage(c, p[0]),
    ensures
        m.is_path(seq![c] + p),
        (seq![c] + p)[0] == c,
        (seq![c] + p).last() == p.last(),
{
    let q = seq![c] + p;
    assert forall|i: int| 0 <= i < q.len() implies m.in_bounds(#[trigger] q[i].0, q[i].1) by {
        if i > 0 {
            assert(q[i] == p[i - 1]);
        }
    }
    assert forall|i: int| 0 <= i < q.len() - 1 implies #[trigger] m.passage(q[i], q[i + 1]) by {
        if i > 0 {
            let j = i - 1;
            assert(q[i] == p[j] && q[i + 1] == p[j + 1]);
            assert(m.passage(p[j], p[j + 1]));
        }
    }
}

impl Maze {
    /// The `path` flags mark exactly the cells of `p`.
    pub open spec fn marks_exactly(&self, p: Seq<(int, int)>) -> bool {
        forall|x: int, y: int|
            #![trigger self.grid@[x]@[y]]
            self.in_bounds(x, y) ==> (self.grid@[x]@[y].path <==> p.contains((x, y)))
    }

    /// `p` leads from the start cell to the end cell, and the `path` flags
    /// mark exactly its cells.
    pub open spec fn solved_by(&self, p: Seq<(int, int)>) -> bool {
        self.path_between(p, self.start_pos(), self.end_pos()) && self.marks_exactly(p)
    }

    /// No cell is marked as lying on a path.
    pub open spec fn no_path_marked(&self) -> bool {
        forall|x: int, y: int|
            #![trigger self.grid@[x]@[y]]
            self.in_bounds(x, y) ==> !self.grid@[x]@[y].path
    }

    /// No path from the start cell to the end cell has fewer cells than `p`.
    pub open spec fn shortest(&self, p: Seq<(int, int)>) -> bool {
        forall|q: Seq<(int, int)>| #[trigger]
            self.path_between(q, self.start_pos(), self.end_pos()) ==> p.len() <= q.len()
    }
}

/// A solved maze marks its start and end cells, and every step of the
/// marked route crosses an open passage.
pub proof fn lemma_solved_endpoints(m: &Maze, p: Seq<(int, int)>)
    requires
        m.solved_by(p),
    ensures
        m.grid@[m.start_cell.0 as int]@[m.start_cell.1 as int].path,
        m.grid@[m.end_cell.0 as int]@[m.end_cell.1 as int].path,
        forall|i: int| 0 <= i < p.len() - 1 ==> #[trigger] m.passage(p[i], p[i + 1]),
{
    assert(p.contains(p[0]));
    assert(p.contains(p[p.len() - 1]));
    assert(m.in_bounds(p[0].0, p[0].1));
    let last = p.len() - 1;
    assert(m.in_bounds(p[last].0, p[last].1));
}

/// Every open passage joins a cell to its parent: the one leaving cell `c`
/// in direction `pdir[c]`.
pub open spec fn tree_edges(m: &Maze, s: (int, int), pdir: Map<(int, int), int>) -> bool {
    forall|x: int, y: int, d: int|
        #![trigger m.open_dir(x, y, d)]
        m.open_dir(x, y, d) ==> ((x, y) != s && pdir[(x, y)] == d) || ((x + dx(d), y + dy(d)) != s
            && pdir[(x + dx(d), y + dy(d))] == opposite(d))
}

/// The open passages of `m` are exactly the edges of a spanning tree rooted
/// at `s`: every cell is ranked, every cell but `s` has an open passage to
/// its parent, of lower rank, and no other passage is open.
pub open spec fn spanning_tree(m: &Maze, s: (int, int), rank: Map<(int, int), int>, pdir: Map<(int, int), int>) -> bool {
    &&& m.in_bounds(s.0, s.1)
    &&& ranked(rank, s)
    &&& forall|x: int, y: int| #[trigger] m.in_bounds(x, y) ==> ranked(rank, (x, y))
    &&& forall|c: (int, int)| #[trigger] ranked(rank, c) ==> tree_at(m, s, rank, pdir, c)
    &&& tree_edges(m, s, pdir)
}

/// What the tree asks of one ranked cell.
pub open spec fn tree_at(m: &Maze, s: (int, int), rank: Map<(int, int), int>, pdir: Map<(int, int), int>, c: (int, int)) -> bool {
    &&& rank[c] >= 0
    &&& m.in_bounds(c.0, c.1)
    &&& c != s ==> {
        let e = pdir[c];
        &&& m.open_dir(c.0, c.1, e)
        &&& rank.dom().contains((c.0 + dx(e), c.1 + dy(e)))
        &&& rank[(c.0 + dx(e), c.1 + dy(e))] < rank[c]
    }
}

/// A spanning tree is a spanning tree of every maze with the same open
/// passages.
pub proof fn lemma_tree_same_passages(
    a: &Maze,
    b: &Maze,
    s: (int, int),
    rank: Map<(int, int), int>,
    pdir: Map<(int, int), int>,
)
    requires
        spanning_tree(a, s, rank, pdir),
        b.width == a.width,
        b.height == a.height,
        forall|x: int, y: int, d: int| #[trigger] b.open_dir(x, y, d) == a.open_dir(x, y, d),
    ensures
        spanning_tree(b, s, rank, pdir),
{
    assert forall|x: int, y: int| #[trigger] b.in_bounds(x, y) implies ranked(rank, (x, y)) by {
        assert(a.in_bounds(x, y));
    }
    assert forall|c: (int, int)| #[trigger] ranked(rank, c) implies tree_at(b, s, rank, pdir, c) by {
        assert(tree_at(a, s, rank, pdir, c));
        if c != s {
            assert(a.open_dir(c.0, c.1, pdir[c]));
        }
    }
    assert forall|x: int, y: int, d: int|
        #![trigger b.open_dir(x, y, d)]
        b.open_dir(x, y, d) implies ((x, y) != s && pdir[(x, y)] == d) || ((x + dx(d), y + dy(d)) != s
            && pdir[(x + dx(d), y + dy(d))] == opposite(d)) by {
        assert(a.open_dir(x, y, d));
    }
}

} // verus!
