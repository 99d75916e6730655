//! Maze generation: a randomized depth-first recursive backtracker run on
//! an explicit stack, a far-end policy for the goal, and extra openings.

use crate::graph::{
    lemma_counts_empty, lemma_mark_counts, lemma_open_pair_counts, lemma_rooted_reachable,
    lemma_spread, lemma_tree_same_passages, lemma_visited_count_bound, ranked, rooted, rooted_at,
    spanning_tree, tree_at, tree_edges, visits_closed,
};
use crate::maze::{dx, dy, is_dir, lemma_same_frame_shaped, on_edge, opposite, Cell, Maze};
use crate::random::{below, fresh_seed, seeded_rng, shuffle};
use vstd::prelude::*;

verus! {

/// A cell under exploration and the directions it still has to try.
struct Frame {
    x: usize,
    y: usize,
    dirs: Vec<usize>,
    next: usize,
}

/// The frame's cell is visited, its directions lead into the grid, and every
/// unvisited neighbor is still ahead in `dirs` (or is `pending`).
spec fn frame_ok(m: &Maze, f: Frame, pending: Option<usize>) -> bool {
    &&& m.in_bounds(f.x as int, f.y as int)
    &&& m.grid@[f.x as int]@[f.y as int].visited
    &&& f.next <= f.dirs@.len()
    &&& forall|j: int|
        0 <= j < f.dirs@.len() ==> m.has_neighbor(f.x as int, f.y as int, #[trigger] f.dirs@[j] as int)
    &&& forall|e: int|
        #![trigger m.has_neighbor(f.x as int, f.y as int, e)]
        m.has_neighbor(f.x as int, f.y as int, e) && !m.grid@[f.x + dx(e)]@[f.y + dy(e)].visited
            ==> pending == Some(e as usize) || exists|j: int|
            f.next <= j < f.dirs@.len() && #[trigger] f.dirs@[j] as int == e
}

/// Every visited cell is on the stack or has all its neighbors visited.
spec fn closed_off(m: &Maze, stack: Seq<Frame>) -> bool {
    forall|x: int, y: int|
        #![trigger m.grid@[x]@[y]]
        m.in_bounds(x, y) && m.grid@[x]@[y].visited ==> (exists|k: int|
            0 <= k < stack.len() && #[trigger] stack[k].x == x && stack[k].y == y) || (forall|e: int|
            #![trigger m.has_neighbor(x, y, e)]
            m.has_neighbor(x, y, e) ==> m.grid@[x + dx(e)]@[y + dy(e)].visited)
}

/// Every unvisited cell is still fully walled.
spec fn unvisited_sealed(m: &Maze) -> bool {
    forall|x: int, y: int, e: int|
        #![trigger m.wall(x, y, e)]
        m.in_bounds(x, y) && is_dir(e) && !m.grid@[x]@[y].visited ==> m.wall(x, y, e)
}

/// `b` differs from `a` at most in walls and in more cells visited.
spec fn grows(a: &Maze, b: &Maze) -> bool {
    &&& b.same_frame(a)
    &&& forall|x: int, y: int|
        #![trigger b.grid@[x]@[y]]
        a.in_bounds(x, y) ==> {
            let p = a.grid@[x]@[y];
            let q = b.grid@[x]@[y];
            &&& q.start == p.start
            &&& q.end == p.end
            &&& q.path == p.path
            &&& p.visited ==> q.visited
        }
    &&& forall|x: int, y: int, e: int|
        #![trigger b.wall(x, y, e)]
        a.in_bounds(x, y) && is_dir(e) && !a.wall(x, y, e) ==> !b.wall(x, y, e)
}

/// `b` is `a` with the edge from `(x, y)` in direction `d` opened and the
/// cell `n` beyond it marked visited.
spec fn descended(a: &Maze, b: &Maze, x: int, y: int, d: int, n: (int, int)) -> bool {
    &&& b.same_frame(a)
    &&& n == (x + dx(d), y + dy(d))
    &&& forall|i: int, j: int|
        #![trigger b.grid@[i]@[j]]
        a.in_bounds(i, j) ==> {
            let p = a.grid@[i]@[j];
            let q = b.grid@[i]@[j];
            &&& q.start == p.start
            &&& q.end == p.end
            &&& q.path == p.path
            &&& q.visited == (p.visited || (i, j) == n)
        }
    &&& forall|i: int, j: int, e: int|
        #![trigger b.wall(i, j, e)]
        a.in_bounds(i, j) && is_dir(e) ==> b.wall(i, j, e) == (a.wall(i, j, e) && !on_edge(x, y, d, i, j, e))
}

proof fn lemma_frame_trans(a: &Maze, b: &Maze, c: &Maze)
    requires
        b.same_frame(a),
        c.same_frame(b),
        a.shaped(),
    ensures
        c.same_frame(a),
{
    assert forall|x: int| 0 <= x < c.width implies (#[trigger] a.grid@[x])@.len() == c.grid@[x]@.len() by {
        assert(b.grid@[x]@.len() == a.grid@[x]@.len());
    }
    assert forall|x: int, y: int|
        #![trigger a.grid@[x]@[y]]
        c.in_bounds(x, y) implies c.grid@[x]@[y].x == a.grid@[x]@[y].x && c.grid@[x]@[y].y == a.grid@[x]@[y].y by {
        assert(b.grid@[x]@[y].x == a.grid@[x]@[y].x);
    }
}

proof fn lemma_descended(a: &Maze, b: &Maze, c: &Maze, x: int, y: int, d: int, n: (int, int))
    requires
        a.wf(),
        a.has_neighbor(x, y, d),
        n == (x + dx(d), y + dy(d)),
        b.same_marks(a),
        forall|i: int, j: int, e: int|
            #![trigger b.wall(i, j, e)]
            a.in_bounds(i, j) && is_dir(e) ==> b.wall(i, j, e) == (a.wall(i, j, e) && !on_edge(x, y, d, i, j, e)),
        c.same_layout(b),
        c.grid@[n.0]@[n.1] == (Cell { visited: true, ..b.grid@[n.0]@[n.1] }),
        forall|i: int, j: int|
            #![trigger c.grid@[i]@[j]]
            b.in_bounds(i, j) && (i, j) != n ==> c.grid@[i]@[j] == b.grid@[i]@[j],
    ensures
        descended(a, c, x, y, d, n),
{
    lemma_frame_trans(a, b, c);
    assert forall|i: int, j: int|
        #![trigger c.grid@[i]@[j]]
        a.in_bounds(i, j) implies {
            let p = a.grid@[i]@[j];
            let q = c.grid@[i]@[j];
            &&& q.start == p.start
            &&& q.end == p.end
            &&& q.path == p.path
            &&& q.visited == (p.visited || (i, j) == n)
        } by {
        assert(b.grid@[i]@[j].visited == a.grid@[i]@[j].visited);
    }
    assert forall|i: int, j: int, e: int|
        #![trigger c.wall(i, j, e)]
        a.in_bounds(i, j) && is_dir(e) implies c.wall(i, j, e) == (a.wall(i, j, e) && !on_edge(x, y, d, i, j, e)) by {
        assert(c.grid@[i]@[j].walls == b.grid@[i]@[j].walls);
        assert(b.wall(i, j, e) == (a.wall(i, j, e) && !on_edge(x, y, d, i, j, e)));
    }
}

proof fn lemma_frame_grow(a: &Maze, b: &Maze, f: Frame, pending: Option<usize>)
    requires
        b.same_frame(a),
        forall|i: int, j: int|
            #![trigger b.grid@[i]@[j]]
            a.in_bounds(i, j) && a.grid@[i]@[j].visited ==> b.grid@[i]@[j].visited,
        frame_ok(a, f, pending),
        pending.is_some() ==> b.grid@[f.x + dx(pending.unwrap() as int)]@[f.y + dy(
            pending.unwrap() as int,
        )].visited,
    ensures
        frame_ok(b, f, None),
{
    assert(b.grid@[f.x as int]@[f.y as int].visited);
    assert forall|e: int|
        #![trigger b.has_neighbor(f.x as int, f.y as int, e)]
        b.has_neighbor(f.x as int, f.y as int, e) && !b.grid@[f.x + dx(e)]@[f.y + dy(e)].visited
            implies None::<usize> == Some(e as usize) || exists|j: int|
            f.next <= j < f.dirs@.len() && #[trigger] f.dirs@[j] as int == e by {
        assert(a.has_neighbor(f.x as int, f.y as int, e));
        assert(!a.grid@[f.x + dx(e)]@[f.y + dy(e)].visited);
    }
}

proof fn lemma_descend_grows(o: &Maze, a: &Maze, b: &Maze, x: int, y: int, d: int, n: (int, int))
    requires
        grows(o, a),
        o.shaped(),
        descended(a, b, x, y, d, n),
    ensures
        grows(o, b),
{
    lemma_frame_trans(o, a, b);
    assert forall|i: int, j: int|
        #![trigger b.grid@[i]@[j]]
        o.in_bounds(i, j) implies {
            let p = o.grid@[i]@[j];
            let q = b.grid@[i]@[j];
            &&& q.start == p.start
            &&& q.end == p.end
            &&& q.path == p.path
            &&& p.visited ==> q.visited
        } by {
        assert(a.grid@[i]@[j].start == o.grid@[i]@[j].start);
    }
    assert forall|i: int, j: int, e: int|
        #![trigger b.wall(i, j, e)]
        o.in_bounds(i, j) && is_dir(e) && !o.wall(i, j, e) implies !b.wall(i, j, e) by {
        assert(!a.wall(i, j, e));
    }
}

proof fn lemma_descend_sealed(a: &Maze, b: &Maze, x: int, y: int, d: int, n: (int, int))
    requires
        unvisited_sealed(a),
        a.in_bounds(x, y),
        a.grid@[x]@[y].visited,
        descended(a, b, x, y, d, n),
    ensures
        unvisited_sealed(b),
{
    assert forall|i: int, j: int, e: int|
        #![trigger b.wall(i, j, e)]
        b.in_bounds(i, j) && is_dir(e) && !b.grid@[i]@[j].visited implies b.wall(i, j, e) by {
        assert(a.wall(i, j, e));
        assert(!a.grid@[i]@[j].visited);
    }
}

proof fn lemma_descend_rooted_one(
    a: &Maze,
    b: &Maze,
    x: int,
    y: int,
    d: int,
    n: (int, int),
    s: (int, int),
    rank: Map<(int, int), int>,
    pdir: Map<(int, int), int>,
    c: (int, int),
)
    requires
        rooted(a, s, rank, pdir),
        !rank.dom().contains(n),
        rank.dom().contains(c),
        descended(a, b, x, y, d, n),
    ensures
        rooted_at(b, s, rank.insert(n, a.visited_count()), pdir.insert(n, opposite(d)), c),
{
    assert(ranked(rank, c));
    assert(rooted_at(a, s, rank, pdir, c));
    assert(b.grid@[c.0]@[c.1].visited);
    if c != s {
        let e = pdir[c];
        assert(a.open_dir(c.0, c.1, e));
        assert(!b.wall(c.0, c.1, e));
    }
}

proof fn lemma_descend_rooted(
    a: &Maze,
    b: &Maze,
    x: int,
    y: int,
    d: int,
    n: (int, int),
    s: (int, int),
    rank: Map<(int, int), int>,
    pdir: Map<(int, int), int>,
)
    requires
        a.shaped(),
        rooted(a, s, rank, pdir),
        forall|i: int, j: int|
            #![trigger a.grid@[i]@[j]]
            a.in_bounds(i, j) && a.grid@[i]@[j].visited ==> rank[(i, j)] < a.visited_count(),
        a.has_neighbor(x, y, d),
        a.grid@[x]@[y].visited,
        !a.grid@[n.0]@[n.1].visited,
        descended(a, b, x, y, d, n),
        b.visited_count() == a.visited_count() + 1,
    ensures
        rooted(b, s, rank.insert(n, a.visited_count()), pdir.insert(n, opposite(d))),
        forall|i: int, j: int|
            #![trigger b.grid@[i]@[j]]
            b.in_bounds(i, j) && b.grid@[i]@[j].visited ==> rank.insert(n, a.visited_count())[(i, j)]
                < b.visited_count(),
{
    let rank2 = rank.insert(n, a.visited_count());
    let pdir2 = pdir.insert(n, opposite(d));
    lemma_visited_count_bound(a);
    assert(b.in_bounds(s.0, s.1));
    assert(rank2.dom().contains(s));
    assert(!rank.dom().contains(n)) by {
        if rank.dom().contains(n) {
            assert(ranked(rank, n));
        }
    }
    assert(rooted_at(b, s, rank2, pdir2, n)) by {
        assert(dx(opposite(d)) == -dx(d) && dy(opposite(d)) == -dy(d));
        assert(b.wall(n.0, n.1, opposite(d)) == (a.wall(n.0, n.1, opposite(d)) && !on_edge(x, y, d, n.0, n.1, opposite(d))));
        assert(b.open_dir(n.0, n.1, opposite(d)));
        assert(rank.dom().contains((x, y)));
        assert(rank2[(x, y)] == rank[(x, y)]);
        assert(b.grid@[n.0]@[n.1].visited);
        assert(n != s);
        assert(rank2[n] >= 0);
    }
    assert forall|c: (int, int)|
        #![trigger ranked(rank.insert(n, a.visited_count()), c)]
        ranked(rank.insert(n, a.visited_count()), c) implies rooted_at(
            b,
            s,
            rank.insert(n, a.visited_count()),
            pdir.insert(n, opposite(d)),
            c,
        ) by {
        if c != n {
            lemma_descend_rooted_one(a, b, x, y, d, n, s, rank, pdir, c);
        }
    }
    assert forall|i: int, j: int|
        #![trigger b.grid@[i]@[j]]
        b.in_bounds(i, j) && b.grid@[i]@[j].visited implies rank2.dom().contains((i, j)) && rank2[(i, j)] < b.visited_count() by {
        if (i, j) != n {
            assert(a.grid@[i]@[j].visited);
        }
    }
}

proof fn lemma_descend_tree_edges(
    a: &Maze,
    b: &Maze,
    x: int,
    y: int,
    d: int,
    n: (int, int),
    s: (int, int),
    pdir: Map<(int, int), int>,
)
    requires
        a.wf(),
        unvisited_sealed(a),
        tree_edges(a, s, pdir),
        a.has_neighbor(x, y, d),
        a.grid@[s.0]@[s.1].visited,
        !a.grid@[n.0]@[n.1].visited,
        descended(a, b, x, y, d, n),
    ensures
        tree_edges(b, s, pdir.insert(n, opposite(d))),
{
    let pdir2 = pdir.insert(n, opposite(d));
    assert(dx(opposite(d)) == -dx(d) && dy(opposite(d)) == -dy(d));
    assert forall|i: int, j: int, e: int|
        #![trigger b.open_dir(i, j, e)]
        b.open_dir(i, j, e) implies ((i, j) != s && pdir2[(i, j)] == e) || ((i + dx(e), j + dy(e)) != s
            && pdir2[(i + dx(e), j + dy(e))] == opposite(e)) by {
        if on_edge(x, y, d, i, j, e) {
            if (i, j, e) == (x, y, d) {
                assert((i + dx(e), j + dy(e)) == n);
            } else {
                assert((i, j) == n);
            }
        } else {
            assert(b.wall(i, j, e) == (a.wall(i, j, e) && !on_edge(x, y, d, i, j, e)));
            assert(a.open_dir(i, j, e));
            assert((i, j) != n) by {
                if (i, j) == n {
                    assert(a.wall(i, j, e));
                }
            }
            assert((i + dx(e), j + dy(e)) != n) by {
                if (i + dx(e), j + dy(e)) == n {
                    assert(a.wall(i, j, e) == a.wall(i + dx(e), j + dy(e), opposite(e)));
                    assert(a.wall(n.0, n.1, opposite(e)));
                }
            }
        }
    }
}

proof fn lemma_descend_frames(a: &Maze, b: &Maze, x: int, y: int, d: int, n: (int, int), stack: Seq<Frame>)
    requires
        stack.len() > 0,
        forall|k: int| 0 <= k < stack.len() - 1 ==> frame_ok(a, #[trigger] stack[k], None),
        frame_ok(a, stack.last(), Some(d as usize)),
        stack.last().x == x && stack.last().y == y,
        a.has_neighbor(x, y, d),
        descended(a, b, x, y, d, n),
    ensures
        forall|k: int| 0 <= k < stack.len() ==> frame_ok(b, #[trigger] stack[k], None),
{
    assert(b.grid@[x + dx(d)]@[y + dy(d)].visited);
    assert forall|k: int| 0 <= k < stack.len() implies frame_ok(b, #[trigger] stack[k], None) by {
        if k < stack.len() - 1 {
            lemma_frame_grow(a, b, stack[k], None);
        } else {
            lemma_frame_grow(a, b, stack[k], Some(d as usize));
        }
    }
}

proof fn lemma_descend_closed(a: &Maze, b: &Maze, x: int, y: int, d: int, n: (int, int), stack: Seq<Frame>, nf: Frame)
    requires
        closed_off(a, stack),
        descended(a, b, x, y, d, n),
        nf.x == n.0 && nf.y == n.1,
    ensures
        closed_off(b, stack.push(nf)),
{
    let st = stack.push(nf);
    assert forall|i: int, j: int|
        #![trigger b.grid@[i]@[j]]
        b.in_bounds(i, j) && b.grid@[i]@[j].visited implies (exists|k: int|
            0 <= k < st.len() && #[trigger] st[k].x == i && st[k].y == j) || (forall|e: int|
            #![trigger b.has_neighbor(i, j, e)]
            b.has_neighbor(i, j, e) ==> b.grid@[i + dx(e)]@[j + dy(e)].visited) by {
        if (i, j) == n {
            assert(st[stack.len() as int].x == i && st[stack.len() as int].y == j);
        } else {
            assert(a.grid@[i]@[j].visited);
            if exists|k: int| 0 <= k < stack.len() && #[trigger] stack[k].x == i && stack[k].y == j {
                let k = choose|k: int| 0 <= k < stack.len() && #[trigger] stack[k].x == i && stack[k].y == j;
                assert(st[k] == stack[k]);
            } else {
                assert forall|e: int|
                    #![trigger b.has_neighbor(i, j, e)]
                    b.has_neighbor(i, j, e) implies b.grid@[i + dx(e)]@[j + dy(e)].visited by {
                    assert(a.has_neighbor(i, j, e));
                    assert(a.grid@[i + dx(e)]@[j + dy(e)].visited);
                }
            }
        }
    }
}

/// The pick `p = (x, y, d)` opens the edge that wall `e` of `(i, j)` sits on.
pub open spec fn pick_opens(m: &Maze, p: (usize, usize, usize), i: int, j: int, e: int) -> bool {
    m.has_neighbor(p.0 as int, p.1 as int, p.2 as int) && on_edge(p.0 as int, p.1 as int, p.2 as int, i, j, e)
}

/// Some pick of `picks` opens the edge that wall `e` of `(i, j)` sits on.
pub open spec fn opened_by(m: &Maze, picks: Seq<(usize, usize, usize)>, i: int, j: int, e: int) -> bool {
    exists|k: int| 0 <= k < picks.len() && #[trigger] pick_opens(m, picks[k], i, j, e)
}

/// `b` is `a` with the edge of every pick opened, and nothing else changed.
pub open spec fn openings_applied(a: &Maze, b: &Maze, picks: Seq<(usize, usize, usize)>) -> bool {
    &&& b.wf()
    &&& b.same_marks(a)
    &&& forall|i: int, j: int, e: int|
        #![trigger b.wall(i, j, e)]
        a.in_bounds(i, j) && is_dir(e) ==> b.wall(i, j, e) == (a.wall(i, j, e) && !opened_by(a, picks, i, j, e))
}

/// How many random openings a maze of `area` cells gets for `open_percent`.
pub open spec fn opening_budget(area: int, open_percent: int) -> int {
    if open_percent == 0 {
        0
    } else {
        area / open_percent
    }
}

proof fn lemma_marks_trans(a: &Maze, b: &Maze, c: &Maze)
    requires
        a.shaped(),
        b.same_marks(a),
        c.same_marks(b),
    ensures
        c.same_marks(a),
{
    lemma_frame_trans(a, b, c);
    assert forall|x: int, y: int|
        #![trigger a.grid@[x]@[y]]
        c.in_bounds(x, y) implies {
            let p = c.grid@[x]@[y];
            let q = a.grid@[x]@[y];
            p.start == q.start && p.end == q.end && p.visited == q.visited && p.path == q.path
        } by {
        assert(b.grid@[x]@[y].start == a.grid@[x]@[y].start);
    }
}


/// Opening walls keeps a maze connected and never lowers its count of
/// open wall pairs.
pub proof fn lemma_more_open(a: &Maze, b: &Maze)
    requires
        a.shaped(),
        b.width == a.width,
        b.height == a.height,
        b.start_cell == a.start_cell,
        forall|x: int, y: int, d: int| #[trigger] a.open_dir(x, y, d) ==> b.open_dir(x, y, d),
    ensures
        a.connected() ==> b.connected(),
        a.open_pairs() <= b.open_pairs(),
{
    if a.connected() {
        assert forall|x: int, y: int| #[trigger] b.in_bounds(x, y) implies b.reachable(b.start_pos(), (x, y)) by {
            assert(a.in_bounds(x, y));
            let p = choose|p: Seq<(int, int)>| a.path_between(p, a.start_pos(), (x, y));
            crate::graph::lemma_path_more_open(a, b, p);
            assert(b.path_between(p, b.start_pos(), (x, y)));
        }
    }
    let fa = |i: int, j: int| a.pairs_at(i, j);
    let fb = |i: int, j: int| b.pairs_at(i, j);
    assert forall|i: int, j: int| 0 <= i < a.width && 0 <= j < a.height implies #[trigger] fa(i, j) <= fb(i, j) by {
        assert(a.open_dir(i, j, 1) ==> b.open_dir(i, j, 1));
        assert(a.open_dir(i, j, 2) ==> b.open_dir(i, j, 2));
    }
    crate::graph::lemma_grid_sum_mono(fa, fb, a.width as int, a.height as int);
}

impl Maze {
    /// The directions from `(x, y)` that lead to unvisited cells, in random order.
    fn candidates(&self, x: usize, y: usize, rng: &mut rand::rngs::StdRng) -> (v: Vec<usize>)
        requires
            self.wf(),
            self.in_bounds(x as int, y as int),
        ensures
            forall|j: int| 0 <= j < v@.len() ==> self.has_neighbor(x as int, y as int, #[trigger] v@[j] as int),
            forall|e: int|
                #![trigger self.has_neighbor(x as int, y as int, e)]
                self.has_neighbor(x as int, y as int, e) && !self.grid@[x + dx(e)]@[y + dy(e)].visited
                    ==> exists|j: int| 0 <= j < v@.len() && #[trigger] v@[j] as int == e,
    {
        let mut v: Vec<usize> = Vec::new();
        let mut d: usize = 0;
        while d < 4
            invariant
                self.wf(),
                self.in_bounds(x as int, y as int),
                d <= 4,
                forall|j: int| 0 <= j < v@.len() ==> self.has_neighbor(x as int, y as int, #[trigger] v@[j] as int),
                forall|e: int|
                    #![trigger self.has_neighbor(x as int, y as int, e)]
                    0 <= e < d && self.has_neighbor(x as int, y as int, e) && !self.grid@[x + dx(e)]@[y + dy(e)].visited
                        ==> exists|j: int| 0 <= j < v@.len() && #[trigger] v@[j] as int == e,
            decreases 4 - d,
        {
            let ghost prev = v@;
            match self.step(x, y, d) {
                Some((nx, ny)) => {
                    if !self.grid[nx][ny].visited {
                        v.push(d);
                        assert(v@[v@.len() - 1] as int == d as int);
                    }
                },
                None => {},
            }
            assert forall|e: int|
                #![trigger self.has_neighbor(x as int, y as int, e)]
                0 <= e < d && self.has_neighbor(x as int, y as int, e) && !self.grid@[x + dx(e)]@[y + dy(e)].visited
                    implies exists|j: int| 0 <= j < v@.len() && #[trigger] v@[j] as int == e by {
                let j0 = choose|j: int| 0 <= j < prev.len() && #[trigger] prev[j] as int == e;
                assert(v@[j0] == prev[j0]);
            }
            d = d + 1;
        }
        let ghost before = v@;
        shuffle(&mut v, rng);
        proof {
            before.to_multiset_ensures();
            v@.to_multiset_ensures();
            assert forall|j: int| 0 <= j < v@.len() implies self.has_neighbor(x as int, y as int, #[trigger] v@[j] as int) by {
                assert(v@.contains(v@[j]));
                assert(v@.to_multiset().count(v@[j]) > 0);
                assert(before.to_multiset().count(v@[j]) > 0);
                assert(before.contains(v@[j]));
                let i = choose|i: int| 0 <= i < before.len() && before[i] == v@[j];
                assert(before[i] == v@[j]);
            }
            assert forall|e: int|
                #![trigger self.has_neighbor(x as int, y as int, e)]
                self.has_neighbor(x as int, y as int, e) && !self.grid@[x + dx(e)]@[y + dy(e)].visited
                    implies exists|j: int| 0 <= j < v@.len() && #[trigger] v@[j] as int == e by {
                let j0 = choose|j: int| 0 <= j < before.len() && #[trigger] before[j] as int == e;
                assert(before.contains(before[j0]));
                assert(before.to_multiset().count(before[j0]) > 0);
                assert(v@.to_multiset().count(before[j0]) > 0);
                assert(v@.contains(before[j0]));
                let i = choose|i: int| 0 <= i < v@.len() && v@[i] == before[j0];
                assert(v@[i] as int == e);
            }
        }
        v
    }
    /// Open the edge of every pick `(x, y, d)` whose cell and neighbor lie in
    /// the grid; other picks are skipped.
    pub fn apply_openings(&mut self, picks: &Vec<(usize, usize, usize)>)
        requires
            old(self).wf(),
        ensures
            openings_applied(old(self), final(self), picks@),
    {
        let mut k: usize = 0;
        proof {
            lemma_same_frame_shaped(self, self);
        }
        while k < picks.len()
            invariant
                k <= picks@.len(),
                old(self).wf(),
                self.wf(),
                self.same_marks(old(self)),
                forall|i: int, j: int, e: int|
                    #![trigger self.wall(i, j, e)]
                    old(self).in_bounds(i, j) && is_dir(e) ==> self.wall(i, j, e) == (old(self).wall(i, j, e)
                        && !opened_by(old(self), picks@.take(k as int), i, j, e)),
            decreases picks@.len() - k,
        {
            let (x, y, d) = picks[k];
            let ghost pre = *self;
            if x < self.width && y < self.height && d < 4 {
                match self.step(x, y, d) {
                    Some(_) => {
                        self.open_pair(x, y, d);
                        proof {
                            lemma_marks_trans(old(self), &pre, self);
                        }
                    },
                    None => {},
                }
            }
            proof {
                let before = picks@.take(k as int);
                let after = picks@.take(k as int + 1);
                assert forall|i: int, j: int, e: int|
                    #![trigger self.wall(i, j, e)]
                    old(self).in_bounds(i, j) && is_dir(e) implies self.wall(i, j, e) == (old(self).wall(i, j, e)
                        && !opened_by(old(self), after, i, j, e)) by {
                    if opened_by(old(self), before, i, j, e) {
                        let q = choose|q: int| 0 <= q < before.len() && #[trigger] pick_opens(old(self), before[q], i, j, e);
                        assert(after[q] == before[q]);
                    }
                    if opened_by(old(self), after, i, j, e) && !opened_by(old(self), before, i, j, e) {
                        let q = choose|q: int| 0 <= q < after.len() && #[trigger] pick_opens(old(self), after[q], i, j, e);
                        if q < k {
                            assert(before[q] == after[q]);
                        }
                    }
                    if pick_opens(old(self), after[k as int], i, j, e) {
                        assert(pick_opens(old(self), after[k as int], i, j, e));
                    }
                }
            }
            k = k + 1;
        }
        proof {
            assert(picks@.take(picks@.len() as int) == picks@);
        }
    }

    /// Draw the random picks of the loop-adding pass: `(width * height) /
    /// open_percent` of them, each a random cell and direction; none for 0.
    fn draw_picks(&self, open_percent: u8, rng: &mut rand::rngs::StdRng) -> (picks: Vec<(usize, usize, usize)>)
        requires
            self.wf(),
        ensures
            picks@.len() == opening_budget(self.width * self.height, open_percent as int),
            forall|k: int|
                0 <= k < picks@.len() ==> self.in_bounds((#[trigger] picks@[k]).0 as int, picks@[k].1 as int)
                    && picks@[k].2 < 4,
    {
        let mut picks: Vec<(usize, usize, usize)> = Vec::new();
        if open_percent == 0 {
            return picks;
        }
        let area = self.width * self.height;
        let trials = area / (open_percent as usize);
        let mut t: usize = 0;
        while t < trials
            invariant
                self.wf(),
                t <= trials,
                picks@.len() == t,
                forall|k: int|
                    0 <= k < picks@.len() ==> self.in_bounds((#[trigger] picks@[k]).0 as int, picks@[k].1 as int)
                        && picks@[k].2 < 4,
            decreases trials - t,
        {
            let x = below(rng, self.width);
            let y = below(rng, self.height);
            let d = below(rng, 4);
            picks.push((x, y, d));
            t = t + 1;
        }
        picks
    }

    /// Set the end cell on the edge opposite the start: the rightmost column
    /// when the start lies in the left half, else the leftmost, at a random row.
    fn set_far_end(&mut self, rng: &mut rand::rngs::StdRng)
        requires
            old(self).wf(),
        ensures
            final(self).width == old(self).width,
            final(self).height == old(self).height,
            final(self).start_cell == old(self).start_cell,
            final(self).end_cell.0 == (if old(self).start_cell.0 < old(self).width / 2 {
                old(self).width - 1
            } else {
                0
            }),
            final(self).end_cell.1 < old(self).height,
            final(self).grid@.len() == old(self).grid@.len(),
            forall|i: int| 0 <= i < old(self).width ==> (#[trigger] final(self).grid@[i])@.len() == old(self).grid@[i]@.len(),
            forall|i: int, j: int|
                #![trigger final(self).grid@[i]@[j]]
                old(self).in_bounds(i, j) ==> final(self).grid@[i]@[j] == (if (i, j) == (
                    final(self).end_cell.0 as int,
                    final(self).end_cell.1 as int,
                ) {
                    Cell { end: true, ..old(self).grid@[i]@[j] }
                } else {
                    old(self).grid@[i]@[j]
                }),
    {
        let ey = below(rng, self.height);
        let ex = if self.start_cell.0 < self.width / 2 {
            self.width - 1
        } else {
            0
        };
        self.grid[ex][ey].end = true;
        self.end_cell = (ex, ey);
    }

    /// Everything that generation establishes: a well-formed, connected maze
    /// with every cell visited, no path marked, exactly one start and one end
    /// cell, and the end on the edge opposite the start.
    pub open spec fn generated(&self) -> bool {
        &&& self.wf()
        &&& self.connected()
        &&& self.all_visited()
        &&& self.ends_marked()
        &&& forall|x: int, y: int|
            #![trigger self.grid@[x]@[y]]
            self.in_bounds(x, y) ==> !self.grid@[x]@[y].path
        &&& self.end_cell.0 == (if self.start_cell.0 < self.width / 2 {
            self.width - 1
        } else {
            0
        })
    }

    /// Generate the maze from the generator seeded with `seed`: pick a random
    /// start cell, carve a perfect maze depth-first from it, put the end on the
    /// far edge, then open `(width * height) / open_percent` random edges
    /// (none when `open_percent` is 0).
    pub fn dfs_gen_seeded(&mut self, open_percent: u8, seed: u64)
        requires
            old(self).pristine(),
        ensures
            final(self).width == old(self).width,
            final(self).height == old(self).height,
            final(self).generated(),
            final(self).open_pairs() >= final(self).width * final(self).height - 1,
            open_percent == 0 ==> final(self).open_pairs() == final(self).width * final(self).height - 1,
            open_percent == 0 ==> exists|rank: Map<(int, int), int>, pdir: Map<(int, int), int>|
                spanning_tree(final(self), final(self).start_pos(), rank, pdir),
    {
        let mut rng = seeded_rng(seed);
        let sx = below(&mut rng, self.width);
        let sy = below(&mut rng, self.height);
        self.grid[sx][sy].start = true;
        self.start_cell = (sx, sy);
        proof {
            lemma_same_frame_shaped(old(self), self);
            assert forall|x: int, y: int, d: int|
                #![trigger self.wall(x, y, d)]
                self.in_bounds(x, y) implies self.wall(x, y, d) == old(self).wall(x, y, d) by {
                assert(self.grid@[x]@[y].walls == old(self).grid@[x]@[y].walls);
            }
            assert forall|x: int, y: int|
                #![trigger self.grid@[x]@[y]]
                self.in_bounds(x, y) implies !self.grid@[x]@[y].visited && !self.grid@[x]@[y].path
                    && self.grid@[x]@[y].start == ((x, y) == (sx as int, sy as int)) && !self.grid@[x]@[y].end by {
                assert(old(self).grid@[x]@[y].visited == self.grid@[x]@[y].visited);
            }
        }
        let ghost marked = *self;
        self.carve(&mut rng);
        let ghost carved = *self;
        self.set_far_end(&mut rng);
        let ghost ended = *self;
        proof {
            lemma_same_frame_shaped(&carved, self);
            assert forall|x: int, y: int, d: int| #[trigger] carved.open_dir(x, y, d) implies self.open_dir(x, y, d) by {
                assert(self.grid@[x]@[y].walls == carved.grid@[x]@[y].walls);
            }
            assert forall|x: int, y: int, d: int|
                #![trigger self.wall(x, y, d)]
                self.has_neighbor(x, y, d) implies self.wall(x, y, d) == self.wall(x + dx(d), y + dy(d), opposite(d)) by {
                assert(self.grid@[x]@[y].walls == carved.grid@[x]@[y].walls);
                assert(self.grid@[x + dx(d)]@[y + dy(d)].walls == carved.grid@[x + dx(d)]@[y + dy(d)].walls);
                assert(carved.has_neighbor(x, y, d));
                assert(carved.wall(x, y, d) == carved.wall(x + dx(d), y + dy(d), opposite(d)));
            }
            lemma_more_open(&carved, self);
            assert forall|x: int, y: int, d: int| #[trigger] self.open_dir(x, y, d) implies carved.open_dir(x, y, d) by {
                assert(self.grid@[x]@[y].walls == carved.grid@[x]@[y].walls);
            }
            lemma_more_open(self, &carved);
            assert(self.wf());
            let (rank, pdir) = choose|rank: Map<(int, int), int>, pdir: Map<(int, int), int>|
                spanning_tree(&carved, carved.start_pos(), rank, pdir);
            assert forall|x: int, y: int, d: int| #[trigger] self.open_dir(x, y, d) == carved.open_dir(x, y, d) by {
                if self.open_dir(x, y, d) {
                    assert(carved.open_dir(x, y, d));
                }
                if carved.open_dir(x, y, d) {
                    assert(self.open_dir(x, y, d));
                }
            }
            lemma_tree_same_passages(&carved, self, carved.start_pos(), rank, pdir);
        }
        let picks = self.draw_picks(open_percent, &mut rng);
        self.apply_openings(&picks);
        proof {
            assert forall|x: int, y: int, d: int| #[trigger] ended.open_dir(x, y, d) implies self.open_dir(x, y, d) by {
                assert(self.wall(x, y, d) == (ended.wall(x, y, d) && !opened_by(&ended, picks@, x, y, d)));
            }
            lemma_more_open(&ended, self);
            if open_percent == 0 {
                assert forall|x: int, y: int, d: int| #[trigger] self.open_dir(x, y, d) implies ended.open_dir(x, y, d) by {
                    assert(self.wall(x, y, d) == (ended.wall(x, y, d) && !opened_by(&ended, picks@, x, y, d)));
                }
                lemma_more_open(self, &ended);
                let (rank, pdir) = choose|rank: Map<(int, int), int>, pdir: Map<(int, int), int>|
                    spanning_tree(&ended, ended.start_pos(), rank, pdir);
                assert forall|x: int, y: int, d: int| #[trigger] self.open_dir(x, y, d) == ended.open_dir(x, y, d) by {
                    if self.open_dir(x, y, d) {
                        assert(ended.open_dir(x, y, d));
                    }
                    if ended.open_dir(x, y, d) {
                        assert(self.open_dir(x, y, d));
                    }
                }
                lemma_tree_same_passages(&ended, self, ended.start_pos(), rank, pdir);
            }
            assert forall|x: int, y: int|
                #![trigger self.grid@[x]@[y]]
                self.in_bounds(x, y) implies self.grid@[x]@[y].visited && !self.grid@[x]@[y].path
                    && self.grid@[x]@[y].start == ((x, y) == (self.start_cell.0 as int, self.start_cell.1 as int))
                    && self.grid@[x]@[y].end == ((x, y) == (self.end_cell.0 as int, self.end_cell.1 as int)) by {
                assert(ended.grid@[x]@[y].start == self.grid@[x]@[y].start);
                assert(carved.grid@[x]@[y].visited);
                assert(carved.grid@[x]@[y].start == marked.grid@[x]@[y].start);
            }
        }
    }

    /// Generate the maze as `dfs_gen_seeded` does, from a fresh random seed.
    pub fn dfs_gen(&mut self, open_percent: u8)
        requires
            old(self).pristine(),
        ensures
            final(self).width == old(self).width,
            final(self).height == old(self).height,
            final(self).generated(),
            final(self).open_pairs() >= final(self).width * final(self).height - 1,
            open_percent == 0 ==> final(self).open_pairs() == final(self).width * final(self).height - 1,
            open_percent == 0 ==> exists|rank: Map<(int, int), int>, pdir: Map<(int, int), int>|
                spanning_tree(final(self), final(self).start_pos(), rank, pdir),
    {
        let seed = fresh_seed();
        self.dfs_gen_seeded(open_percent, seed);
    }

    /// Carve passages depth-first from the start cell until every cell is
    /// visited: from the cell on top of the stack, open the wall towards the
    /// next of its shuffled directions whose neighbor is still unvisited and
    /// descend into it; when none is left, backtrack.
    fn carve(&mut self, rng: &mut rand::rngs::StdRng)
        requires
            old(self).wf(),
            old(self).sealed(),
            old(self).cleared(),
        ensures
            final(self).wf(),
            grows(old(self), final(self)),
            final(self).all_visited(),
            final(self).connected(),
            final(self).open_pairs() == final(self).width * final(self).height - 1,
            exists|rank: Map<(int, int), int>, pdir: Map<(int, int), int>|
                spanning_tree(final(self), final(self).start_pos(), rank, pdir),
    {
        let sx = self.start_cell.0;
        let sy = self.start_cell.1;
        let ghost s = (sx as int, sy as int);
        proof {
            lemma_counts_empty(self);
        }
        self.mark_visited(sx, sy);
        proof {
            lemma_mark_counts(old(self), self, s.0, s.1);
        }
        let ghost mut rank: Map<(int, int), int> = Map::empty().insert(s, 0);
        let ghost mut pdir: Map<(int, int), int> = Map::empty();
        let dirs = self.candidates(sx, sy, rng);
        let mut stack: Vec<Frame> = Vec::new();
        stack.push(Frame { x: sx, y: sy, dirs, next: 0 });
        proof {
            lemma_visited_count_bound(self);
            assert(stack@[0].x == sx && stack@[0].y == sy);
            assert forall|x: int, y: int|
                #![trigger self.grid@[x]@[y]]
                self.in_bounds(x, y) && self.grid@[x]@[y].visited implies (x, y) == s by {
                if (x, y) != s {
                    assert(self.grid@[x]@[y] == old(self).grid@[x]@[y]);
                }
            }
            assert forall|x: int, y: int, e: int|
                #![trigger self.wall(x, y, e)]
                self.in_bounds(x, y) && is_dir(e) && !self.grid@[x]@[y].visited implies self.wall(x, y, e) by {
                assert(self.grid@[x]@[y].walls == old(self).grid@[x]@[y].walls);
                assert(old(self).wall(x, y, e));
            }
            assert forall|x: int, y: int, e: int|
                #![trigger self.wall(x, y, e)]
                old(self).in_bounds(x, y) && is_dir(e) && !old(self).wall(x, y, e) implies !self.wall(x, y, e) by {
                assert(old(self).wall(x, y, e));
            }
            assert forall|x: int, y: int|
                #![trigger self.grid@[x]@[y]]
                old(self).in_bounds(x, y) implies {
                    let p = old(self).grid@[x]@[y];
                    let q = self.grid@[x]@[y];
                    &&& q.start == p.start
                    &&& q.end == p.end
                    &&& q.path == p.path
                    &&& p.visited ==> q.visited
                } by {
                assert(!old(self).grid@[x]@[y].visited);
            }
            assert forall|c: (int, int)| #[trigger] ranked(rank, c) implies rooted_at(self, s, rank, pdir, c) by {
                assert(c == s);
            }
            assert forall|x: int, y: int, d: int|
                #![trigger self.open_dir(x, y, d)]
                self.open_dir(x, y, d) implies ((x, y) != s && pdir[(x, y)] == d) || ((x + dx(d), y + dy(d)) != s
                    && pdir[(x + dx(d), y + dy(d))] == opposite(d)) by {
                assert(self.grid@[x]@[y].walls == old(self).grid@[x]@[y].walls);
                assert(old(self).wall(x, y, d));
            }
            assert(closed_off(self, stack@)) by {
                assert forall|x: int, y: int|
                    #![trigger self.grid@[x]@[y]]
                    self.in_bounds(x, y) && self.grid@[x]@[y].visited implies (exists|k: int|
                        0 <= k < stack@.len() && #[trigger] stack@[k].x == x && stack@[k].y == y) by {
                    assert(stack@[0].x == x && stack@[0].y == y);
                }
            }
        }
        while stack.len() > 0
            invariant
                self.wf(),
                s == (self.start_cell.0 as int, self.start_cell.1 as int),
                grows(old(self), self),
                unvisited_sealed(self),
                rooted(self, s, rank, pdir),
                tree_edges(self, s, pdir),
                forall|x: int, y: int|
                    #![trigger self.grid@[x]@[y]]
                    self.in_bounds(x, y) && self.grid@[x]@[y].visited ==> rank[(x, y)] < self.visited_count(),
                self.open_pairs() == self.visited_count() - 1,
                self.visited_count() <= self.width * self.height,
                forall|k: int| 0 <= k < stack@.len() ==> frame_ok(self, #[trigger] stack@[k], None),
                closed_off(self, stack@),
            decreases self.width * self.height - self.visited_count(), stack@.len(),
        {
            let k = stack.len() - 1;
            let mut target: Option<usize> = None;
            while stack[k].next < stack[k].dirs.len() && target.is_none()
                invariant
                    self.wf(),
                    stack@.len() == k + 1,
                    forall|i: int| 0 <= i < k ==> frame_ok(self, #[trigger] stack@[i], None),
                    frame_ok(self, stack@[k as int], target),
                    closed_off(self, stack@),
                    target.is_some() ==> {
                        let t = target.unwrap() as int;
                        let f = stack@[k as int];
                        self.has_neighbor(f.x as int, f.y as int, t) && !self.grid@[f.x + dx(t)]@[f.y + dy(t)].visited
                    },
                decreases stack@[k as int].dirs@.len() - stack@[k as int].next,
            {
                let ghost before = stack@;
                let d = stack[k].dirs[stack[k].next];
                stack[k].next = stack[k].next + 1;
                let x = stack[k].x;
                let y = stack[k].y;
                match self.step(x, y, d) {
                    Some((nx, ny)) => {
                        if !self.grid[nx][ny].visited {
                            target = Some(d);
                        }
                    },
                    None => {},
                }
                proof {
                    assert forall|i: int| 0 <= i < k implies frame_ok(self, #[trigger] stack@[i], None) by {
                        assert(stack@[i] == before[i]);
                    }
                    assert forall|x: int, y: int|
                        #![trigger self.grid@[x]@[y]]
                        self.in_bounds(x, y) && self.grid@[x]@[y].visited && (exists|i: int|
                            0 <= i < before.len() && #[trigger] before[i].x == x && before[i].y == y)
                        implies (exists|i: int|
                            0 <= i < stack@.len() && #[trigger] stack@[i].x == x && stack@[i].y == y) by {
                        let i = choose|i: int| 0 <= i < before.len() && #[trigger] before[i].x == x && before[i].y == y;
                        assert(stack@[i].x == x && stack@[i].y == y);
                    }
                    let f = stack@[k as int];
                    assert forall|e: int|
                        #![trigger self.has_neighbor(f.x as int, f.y as int, e)]
                        self.has_neighbor(f.x as int, f.y as int, e) && !self.grid@[f.x + dx(e)]@[f.y + dy(e)].visited
                            implies target == Some(e as usize) || exists|j: int|
                            f.next <= j < f.dirs@.len() && #[trigger] f.dirs@[j] as int == e by {
                        let j = choose|j: int| before[k as int].next <= j < f.dirs@.len() && #[trigger] f.dirs@[j] as int == e;
                        if j == before[k as int].next {
                            assert(d as int == e);
                        } else {
                            assert(f.next <= j);
                        }
                    }
                }
            }
            match target {
                Some(d) => {
                    let x = stack[k].x;
                    let y = stack[k].y;
                    let (nx, ny) = self.step(x, y, d).unwrap();
                    let ghost pre = *self;
                    proof {
                        assert(pre.wall(nx as int, ny as int, opposite(d as int)));
                    }
                    self.open_pair(x, y, d);
                    let ghost mid = *self;
                    proof {
                        lemma_open_pair_counts(&pre, &mid, x as int, y as int, d as int);
                    }
                    self.mark_visited(nx, ny);
                    let ghost n = (nx as int, ny as int);
                    proof {
                        lemma_mark_counts(&mid, self, nx as int, ny as int);
                        lemma_visited_count_bound(self);
                        lemma_descended(&pre, &mid, self, x as int, y as int, d as int, n);
                        lemma_descend_grows(old(self), &pre, self, x as int, y as int, d as int, n);
                        lemma_descend_sealed(&pre, self, x as int, y as int, d as int, n);
                        lemma_descend_rooted(&pre, self, x as int, y as int, d as int, n, s, rank, pdir);
                        assert(ranked(rank, s));
                        lemma_descend_tree_edges(&pre, self, x as int, y as int, d as int, n, s, pdir);
                        lemma_descend_frames(&pre, self, x as int, y as int, d as int, n, stack@);
                        rank = rank.insert(n, pre.visited_count());
                        pdir = pdir.insert(n, opposite(d as int));
                    }
                    let dirs = self.candidates(nx, ny, rng);
                    let ghost old_stack = stack@;
                    let nf = Frame { x: nx, y: ny, dirs, next: 0 };
                    proof {
                        lemma_descend_closed(&pre, self, x as int, y as int, d as int, n, old_stack, nf);
                    }
                    stack.push(nf);
                    proof {
                        assert(stack@ == old_stack.push(nf));
                        assert forall|k: int| 0 <= k < stack@.len() implies frame_ok(self, #[trigger] stack@[k], None) by {
                            if k < old_stack.len() {
                                assert(stack@[k] == old_stack[k]);
                            }
                        }
                    }
                },
                None => {
                    let ghost old_stack = stack@;
                    let ghost f = stack@[k as int];
                    stack.pop();
                    proof {
                        assert(stack@ == old_stack.drop_last());
                        assert forall|k: int| 0 <= k < stack@.len() implies frame_ok(self, #[trigger] stack@[k], None) by {
                            assert(stack@[k] == old_stack[k]);
                        }
                        assert forall|e: int|
                            #![trigger self.has_neighbor(f.x as int, f.y as int, e)]
                            self.has_neighbor(f.x as int, f.y as int, e) implies self.grid@[f.x + dx(e)]@[f.y + dy(e)].visited by {
                            if !self.grid@[f.x + dx(e)]@[f.y + dy(e)].visited {
                                let j = choose|j: int| f.next <= j < f.dirs@.len() && #[trigger] f.dirs@[j] as int == e;
                            }
                        }
                        assert forall|x: int, y: int|
                            #![trigger self.grid@[x]@[y]]
                            self.in_bounds(x, y) && self.grid@[x]@[y].visited implies (exists|i: int|
                                0 <= i < stack@.len() && #[trigger] stack@[i].x == x && stack@[i].y == y) || (forall|e: int|
                                #![trigger self.has_neighbor(x, y, e)]
                                self.has_neighbor(x, y, e) ==> self.grid@[x + dx(e)]@[y + dy(e)].visited) by {
                            if exists|i: int| 0 <= i < old_stack.len() && #[trigger] old_stack[i].x == x && old_stack[i].y == y {
                                let i = choose|i: int| 0 <= i < old_stack.len() && #[trigger] old_stack[i].x == x && old_stack[i].y == y;
                                if i < stack@.len() {
                                    assert(stack@[i] == old_stack[i]);
                                } else {
                                    assert(x == f.x && y == f.y);
                                }
                            }
                        }
                    }
                },
            }
        }
        proof {
            assert forall|x: int, y: int, e: int|
                #![trigger self.has_neighbor(x, y, e)]
                self.has_neighbor(x, y, e) && self.grid@[x]@[y].visited implies self.grid@[x + dx(e)]@[y + dy(e)].visited by {
                assert(self.in_bounds(x, y));
            }
            assert(visits_closed(self));
            assert(ranked(rank, s));
            lemma_spread(self, s);
            lemma_visited_count_bound(self);
            assert forall|x: int, y: int| #[trigger] self.in_bounds(x, y) implies self.reachable(self.start_pos(), (x, y)) by {
                assert(self.grid@[x]@[y].visited);
                assert(ranked(rank, (x, y)));
                lemma_rooted_reachable(self, s, rank, pdir, (x, y));
            }
            assert forall|x: int, y: int| #[trigger] self.in_bounds(x, y) implies ranked(rank, (x, y)) by {
                assert(self.grid@[x]@[y].visited);
            }
            assert forall|c: (int, int)| #[trigger] ranked(rank, c) implies tree_at(self, s, rank, pdir, c) by {
                assert(rooted_at(self, s, rank, pdir, c));
            }
            assert(spanning_tree(self, self.start_pos(), rank, pdir));
        }
    }
}

/// Raising `open_percent` never adds openings. The loop-adding pass draws
/// `(width * height) / open_percent` picks, so from the same carved maze `m`
/// and the same stream of picks, a larger percentage uses a prefix of the
/// picks of a smaller one and leaves at most as many open wall pairs.
pub proof fn lemma_openings_antitone(
    m: &Maze,
    picks: Seq<(usize, usize, usize)>,
    low: int,
    high: int,
    m1: &Maze,
    m2: &Maze,
)
    requires
        m.wf(),
        0 < low < high,
        picks.len() >= opening_budget(m.width * m.height, low),
        openings_applied(m, m1, picks.take(opening_budget(m.width * m.height, low))),
        openings_applied(m, m2, picks.take(opening_budget(m.width * m.height, high))),
    ensures
        opening_budget(m.width * m.height, high) <= opening_budget(m.width * m.height, low),
        m2.open_pairs() <= m1.open_pairs(),
{
    let area = m.width * m.height;
    vstd::arithmetic::div_mod::lemma_div_is_ordered_by_denominator(area, low, high);
    let k1 = opening_budget(area, low);
    let k2 = opening_budget(area, high);
    let t1 = picks.take(k1);
    let t2 = picks.take(k2);
    lemma_same_frame_shaped(m, m2);
    assert forall|x: int, y: int, d: int| #[trigger] m2.open_dir(x, y, d) implies m1.open_dir(x, y, d) by {
        assert(m2.wall(x, y, d) == (m.wall(x, y, d) && !opened_by(m, t2, x, y, d)));
        assert(m1.wall(x, y, d) == (m.wall(x, y, d) && !opened_by(m, t1, x, y, d)));
        if opened_by(m, t2, x, y, d) {
            let q = choose|q: int| 0 <= q < t2.len() && #[trigger] pick_opens(m, t2[q], x, y, d);
            assert(t1[q] == t2[q]);
        }
    }
    lemma_more_open(m2, m1);
}

} // verus!
