//! Breadth-first search: marks a shortest path from the start cell to the
//! end cell.

use crate::graph::{lemma_closed_reach, lemma_path_more_open, lemma_path_prepend, lemma_potential_path};
use crate::graph::{lemma_mark_counts, lemma_visited_count_bound};
use crate::maze::{dx, dy, lemma_same_layout_trans, lemma_same_layout_wf, Maze};
use std::collections::VecDeque;
use vstd::prelude::*;

verus! {

/// The search has given cell `c` a distance label.
pub open spec fn labelled(dist: Map<(int, int), int>, c: (int, int)) -> bool {
    dist.dom().contains(c)
}

pub open spec fn pos(c: (usize, usize)) -> (int, int) {
    (c.0 as int, c.1 as int)
}

/// What a label says of cell `c`: it is visited, and unless it is the start
/// its parent is a labelled cell one passage away with a label one lower.
spec fn label_at(
    m: &Maze,
    s: (int, int),
    parent: Seq<Vec<Option<(usize, usize)>>>,
    dist: Map<(int, int), int>,
    c: (int, int),
) -> bool {
    &&& m.in_bounds(c.0, c.1)
    &&& m.grid@[c.0]@[c.1].visited
    &&& dist[c] >= 0
    &&& c == s ==> dist[c] == 0
    &&& c != s ==> match parent[c.0]@[c.1] {
        Some(p) => dist.dom().contains(pos(p)) && m.passage(pos(p), c) && dist[c] == dist[pos(p)] + 1,
        None => false,
    }
}

/// Every visited cell is labelled, and every label is sound.
#[verifier::opaque]
spec fn labels_ok(
    m: &Maze,
    s: (int, int),
    parent: Seq<Vec<Option<(usize, usize)>>>,
    dist: Map<(int, int), int>,
) -> bool {
    &&& forall|x: int, y: int|
        #![trigger m.grid@[x]@[y]]
        m.in_bounds(x, y) && m.grid@[x]@[y].visited ==> labelled(dist, (x, y))
    &&& forall|c: (int, int)| #[trigger] labelled(dist, c) ==> label_at(m, s, parent, dist, c)
}

/// The queue holds labelled cells in order of label, all within one of
/// `front`; no label exceeds `front + 1`; labels rise by at most one across
/// a passage.
#[verifier::opaque]
spec fn frontier_ok(m: &Maze, dist: Map<(int, int), int>, queue: Seq<(usize, usize)>, front: int) -> bool {
    &&& forall|i: int|
        0 <= i < queue.len() ==> labelled(dist, pos(#[trigger] queue[i])) && front <= dist[pos(queue[i])]
            <= front + 1
    &&& forall|i: int, j: int|
        0 <= i < j < queue.len() ==> dist[pos(#[trigger] queue[i])] <= dist[pos(#[trigger] queue[j])]
    &&& forall|c: (int, int)| #[trigger] labelled(dist, c) ==> dist[c] <= front + 1
    &&& forall|a: (int, int), b: (int, int)|
        #[trigger] m.passage(a, b) && labelled(dist, a) && labelled(dist, b) ==> dist[b] <= dist[a] + 1
}

/// A visited cell with an open passage to an unvisited cell is waiting in
/// the queue, or is the cell `cur` being expanded, with that direction not
/// yet tried.
#[verifier::opaque]
spec fn waiting(m: &Maze, queue: Seq<(usize, usize)>, cur: (int, int), from: int) -> bool {
    forall|x: int, y: int, e: int|
        #![trigger m.open_dir(x, y, e)]
        m.open_dir(x, y, e) && m.grid@[x]@[y].visited && !m.grid@[x + dx(e)]@[y + dy(e)].visited
            ==> queue.contains((x as usize, y as usize)) || ((x, y) == cur && e >= from)
}

/// A `width` by `height` table of absent parent links.
fn unlinked(width: usize, height: usize) -> (t: Vec<Vec<Option<(usize, usize)>>>)
    ensures
        t@.len() == width,
        forall|i: int| 0 <= i < width ==> (#[trigger] t@[i])@.len() == height,
{
    let mut t: Vec<Vec<Option<(usize, usize)>>> = Vec::new();
    let mut i: usize = 0;
    while i < width
        invariant
            i <= width,
            t@.len() == i,
            forall|k: int| 0 <= k < i ==> (#[trigger] t@[k])@.len() == height,
        decreases width - i,
    {
        let mut row: Vec<Option<(usize, usize)>> = Vec::new();
        let mut j: usize = 0;
        while j < height
            invariant
                j <= height,
                row@.len() == j,
            decreases height - j,
        {
            row.push(None);
            j = j + 1;
        }
        t.push(row);
        i = i + 1;
    }
    t
}

/// Mazes with the same layout have the same open passages.
pub proof fn lemma_same_passages(a: &Maze, b: &Maze)
    requires
        a.shaped(),
        b.same_layout(a),
    ensures
        forall|x: int, y: int, d: int| #[trigger] b.open_dir(x, y, d) == a.open_dir(x, y, d),
        forall|u: (int, int), v: (int, int)| #[trigger] b.passage(u, v) == a.passage(u, v),
{
    lemma_same_layout_wf(a, b);
    assert forall|x: int, y: int, d: int| #[trigger] b.open_dir(x, y, d) == a.open_dir(x, y, d) by {
        if a.in_bounds(x, y) {
            assert(b.wall(x, y, d) == a.wall(x, y, d));
        }
    }
    assert forall|u: (int, int), v: (int, int)| #[trigger] b.passage(u, v) == a.passage(u, v) by {
        if b.passage(u, v) {
            let d = choose|d: int| #[trigger] b.open_dir(u.0, u.1, d) && v == (u.0 + dx(d), u.1 + dy(d));
            assert(a.open_dir(u.0, u.1, d));
        }
        if a.passage(u, v) {
            let d = choose|d: int| #[trigger] a.open_dir(u.0, u.1, d) && v == (u.0 + dx(d), u.1 + dy(d));
            assert(b.open_dir(u.0, u.1, d));
        }
    }
}

/// Taking the head off the queue makes its label the new front, and the
/// head the cell under expansion with every direction still to try.
proof fn lemma_pop(
    m: &Maze,
    dist: Map<(int, int), int>,
    q: Seq<(usize, usize)>,
    front: int,
    e: (int, int),
)
    requires
        q.len() > 0,
        frontier_ok(m, dist, q, front),
        waiting(m, q, e, 4),
    ensures
        frontier_ok(m, dist, q.drop_first(), dist[pos(q[0])]),
        waiting(m, q.drop_first(), pos(q[0]), 0),
        front <= dist[pos(q[0])],
        labelled(dist, pos(q[0])),
{
    reveal(labels_ok);
    reveal(frontier_ok);
    reveal(waiting);
    let r = q.drop_first();
    let f = dist[pos(q[0])];
    assert(labelled(dist, pos(q[0])));
    assert forall|i: int| 0 <= i < r.len() implies labelled(dist, pos(#[trigger] r[i])) && f <= dist[pos(r[i])] <= f + 1 by {
        assert(r[i] == q[i + 1]);
        assert(dist[pos(q[0])] <= dist[pos(q[i + 1])]);
    }
    assert forall|i: int, j: int| 0 <= i < j < r.len() implies dist[pos(#[trigger] r[i])] <= dist[pos(#[trigger] r[j])] by {
        assert(r[i] == q[i + 1] && r[j] == q[j + 1]);
        assert(dist[pos(q[i + 1])] <= dist[pos(q[j + 1])]);
    }
    assert forall|x: int, y: int, d: int|
        #![trigger m.open_dir(x, y, d)]
        m.open_dir(x, y, d) && m.grid@[x]@[y].visited && !m.grid@[x + dx(d)]@[y + dy(d)].visited
            implies r.contains((x as usize, y as usize)) || ((x, y) == pos(q[0]) && d >= 0) by {
        assert(q.contains((x as usize, y as usize)));
        let i = choose|i: int| 0 <= i < q.len() && q[i] == (x as usize, y as usize);
        if i > 0 {
            assert(r[i - 1] == q[i]);
        }
    }
}

/// A direction that leads to no unvisited cell through an open passage
/// needs no further attention.
proof fn lemma_skip(m: &Maze, q: Seq<(usize, usize)>, c: (int, int), d: int)
    requires
        waiting(m, q, c, d),
        !(m.open_dir(c.0, c.1, d) && !m.grid@[c.0 + dx(d)]@[c.1 + dy(d)].visited),
    ensures
        waiting(m, q, c, d + 1),
{
    reveal(labels_ok);
    reveal(frontier_ok);
    reveal(waiting);
}

/// Discovering the unvisited cell `n` through direction `d` of the cell `c`
/// under expansion keeps the labels, the frontier and the waiting cells in
/// order.
proof fn lemma_discover(
    a: &Maze,
    b: &Maze,
    s: (int, int),
    pa: Seq<Vec<Option<(usize, usize)>>>,
    pb: Seq<Vec<Option<(usize, usize)>>>,
    dist: Map<(int, int), int>,
    q: Seq<(usize, usize)>,
    front: int,
    c: (usize, usize),
    d: int,
    n: (usize, usize),
)
    requires
        a.wf(),
        labels_ok(a, s, pa, dist),
        frontier_ok(a, dist, q, front),
        labelled(dist, pos(c)),
        labelled(dist, s),
        dist[pos(c)] == front,
        waiting(a, q, pos(c), d),
        a.open_dir(c.0 as int, c.1 as int, d),
        pos(n) == (c.0 + dx(d), c.1 + dy(d)),
        !a.grid@[n.0 as int]@[n.1 as int].visited,
        b.same_layout(a),
        b.grid@[n.0 as int]@[n.1 as int].visited,
        forall|i: int, j: int|
            #![trigger b.grid@[i]@[j]]
            a.in_bounds(i, j) && (i, j) != pos(n) ==> b.grid@[i]@[j] == a.grid@[i]@[j],
        forall|i: int, j: int|
            #![trigger pb[i]@[j]]
            a.in_bounds(i, j) ==> pb[i]@[j] == (if (i, j) == pos(n) {
                Some(c)
            } else {
                pa[i]@[j]
            }),
    ensures
        labels_ok(b, s, pb, dist.insert(pos(n), front + 1)),
        frontier_ok(b, dist.insert(pos(n), front + 1), q.push(n), front),
        waiting(b, q.push(n), pos(c), d + 1),
        labelled(dist.insert(pos(n), front + 1), s),
{
    reveal(labels_ok);
    reveal(frontier_ok);
    reveal(waiting);
    let d2 = dist.insert(pos(n), front + 1);
    let q2 = q.push(n);
    lemma_same_passages(a, b);
    assert(!labelled(dist, pos(n))) by {
        if labelled(dist, pos(n)) {
            assert(label_at(a, s, pa, dist, pos(n)));
        }
    }
    assert(label_at(a, s, pa, dist, pos(c)));
    assert(label_at(a, s, pa, dist, s));
    // labels
    assert forall|x: int, y: int|
        #![trigger b.grid@[x]@[y]]
        b.in_bounds(x, y) && b.grid@[x]@[y].visited implies labelled(d2, (x, y)) by {
        if (x, y) != pos(n) {
            assert(a.grid@[x]@[y].visited);
        }
    }
    assert forall|u: (int, int)| #[trigger] labelled(d2, u) implies label_at(b, s, pb, d2, u) by {
        if u == pos(n) {
            assert(a.passage(pos(c), pos(n)));
            assert(pos(n) != s);
        } else {
            assert(labelled(dist, u));
            assert(label_at(a, s, pa, dist, u));
            assert(b.grid@[u.0]@[u.1] == a.grid@[u.0]@[u.1]);
            if u != s {
                let p = pa[u.0]@[u.1].unwrap();
                assert(labelled(dist, pos(p)));
            }
        }
    }
    // frontier
    {
        assert forall|i: int| 0 <= i < q2.len() implies labelled(d2, pos(#[trigger] q2[i])) && front <= d2[pos(q2[i])]
            <= front + 1 by {
            if i < q.len() {
                assert(q2[i] == q[i]);
                assert(labelled(dist, pos(q[i])));
            }
        }
        assert forall|i: int, j: int| 0 <= i < j < q2.len() implies d2[pos(#[trigger] q2[i])] <= d2[pos(#[trigger] q2[j])] by {
            assert(q2[i] == q[i]);
            assert(labelled(dist, pos(q[i])));
            if j < q.len() {
                assert(q2[j] == q[j]);
                assert(labelled(dist, pos(q[j])));
            }
        }
        assert forall|u: (int, int)| #[trigger] labelled(d2, u) implies d2[u] <= front + 1 by {
            if u != pos(n) {
                assert(labelled(dist, u));
            }
        }
        assert forall|u: (int, int), v: (int, int)|
            #[trigger] b.passage(u, v) && labelled(d2, u) && labelled(d2, v) implies d2[v] <= d2[u] + 1 by {
            if v == pos(n) && u != pos(n) {
                assert(labelled(dist, u));
                assert(a.passage(u, v));
                let e = choose|e: int| #[trigger] a.open_dir(u.0, u.1, e) && v == (u.0 + dx(e), u.1 + dy(e));
                assert(label_at(a, s, pa, dist, u));
                assert(a.grid@[u.0]@[u.1].visited);
                if q.contains((u.0 as usize, u.1 as usize)) {
                    let i = choose|i: int| 0 <= i < q.len() && q[i] == (u.0 as usize, u.1 as usize);
                    assert(pos(q[i]) == u);
                }
            } else if u == pos(n) && v != pos(n) {
                assert(labelled(dist, v));
            } else if u != pos(n) && v != pos(n) {
                assert(labelled(dist, u) && labelled(dist, v));
                assert(a.passage(u, v));
            }
        }
    }
    // waiting cells
    assert forall|x: int, y: int, e: int|
        #![trigger b.open_dir(x, y, e)]
        b.open_dir(x, y, e) && b.grid@[x]@[y].visited && !b.grid@[x + dx(e)]@[y + dy(e)].visited
            implies q2.contains((x as usize, y as usize)) || ((x, y) == pos(c) && e >= d + 1) by {
        if (x, y) == pos(n) {
            assert(q2[q.len() as int] == n);
        } else {
            assert(a.open_dir(x, y, e));
            assert(a.grid@[x]@[y].visited);
            assert((x + dx(e), y + dy(e)) != pos(n));
            assert(!a.grid@[x + dx(e)]@[y + dy(e)].visited);
            if q.contains((x as usize, y as usize)) {
                let i = choose|i: int| 0 <= i < q.len() && q[i] == (x as usize, y as usize);
                assert(q2[i] == q[i]);
            }
        }
    }
}

/// Once the end cell is taken off the queue, labels extended by `front + 1`
/// on unlabelled cells rise by at most one across every passage.
proof fn lemma_potential(
    m: &Maze,
    s: (int, int),
    parent: Seq<Vec<Option<(usize, usize)>>>,
    dist: Map<(int, int), int>,
    q: Seq<(usize, usize)>,
    front: int,
    e: (int, int),
)
    requires
        labels_ok(m, s, parent, dist),
        frontier_ok(m, dist, q, front),
        labelled(dist, e),
        dist[e] == front,
        waiting(m, q, e, 0),
    ensures
        forall|u: (int, int), v: (int, int)| #[trigger] m.passage(u, v) ==> (|c: (int, int)|
            if labelled(dist, c) {
                dist[c]
            } else {
                front + 1
            })(v) <= (|c: (int, int)|
            if labelled(dist, c) {
                dist[c]
            } else {
                front + 1
            })(u) + 1,
{
    reveal(labels_ok);
    reveal(frontier_ok);
    reveal(waiting);
    assert forall|u: (int, int), v: (int, int)| #[trigger] m.passage(u, v) implies (if labelled(dist, v) {
        dist[v]
    } else {
        front + 1
    }) <= (if labelled(dist, u) {
        dist[u]
    } else {
        front + 1
    }) + 1 by {
        let d = choose|d: int| #[trigger] m.open_dir(u.0, u.1, d) && v == (u.0 + dx(d), u.1 + dy(d));
        if labelled(dist, u) && !labelled(dist, v) {
            assert(label_at(m, s, parent, dist, u));
            assert(!m.grid@[v.0]@[v.1].visited);
            if q.contains((u.0 as usize, u.1 as usize)) {
                let i = choose|i: int| 0 <= i < q.len() && q[i] == (u.0 as usize, u.1 as usize);
                assert(pos(q[i]) == u);
            }
        } else if !labelled(dist, u) && labelled(dist, v) {
        }
    }
}

/// With the cell under expansion done, only queued cells wait.
proof fn lemma_done(m: &Maze, q: Seq<(usize, usize)>, c: (int, int), e: (int, int))
    requires
        waiting(m, q, c, 4),
    ensures
        waiting(m, q, e, 4),
{
    reveal(waiting);
}

/// A labelled cell satisfies what its label says.
proof fn lemma_label(
    m: &Maze,
    s: (int, int),
    parent: Seq<Vec<Option<(usize, usize)>>>,
    dist: Map<(int, int), int>,
    c: (int, int),
)
    requires
        labels_ok(m, s, parent, dist),
        labelled(dist, c),
    ensures
        label_at(m, s, parent, dist, c),
{
    reveal(labels_ok);
}

/// With the queue empty and nothing waiting, visits are closed under
/// crossing passages, so the end cell is reachable only if it was visited.
proof fn lemma_exhausted(m: &Maze, e: (int, int), s: (int, int), parent: Seq<Vec<Option<(usize, usize)>>>, dist: Map<(int, int), int>)
    requires
        waiting(m, Seq::empty(), e, 4),
        labels_ok(m, s, parent, dist),
        labelled(dist, s),
        m.reachable(s, e),
    ensures
        m.grid@[e.0]@[e.1].visited,
{
    reveal(waiting);
    lemma_label(m, s, parent, dist, s);
    let p = choose|p: Seq<(int, int)>| m.path_between(p, s, e);
    assert forall|x: int, y: int, k: int|
        #![trigger m.open_dir(x, y, k)]
        m.open_dir(x, y, k) && m.grid@[x]@[y].visited implies m.grid@[x + dx(k)]@[y + dy(k)].visited by {
        if !m.grid@[x + dx(k)]@[y + dy(k)].visited {
            assert(Seq::<(usize, usize)>::empty().contains((x as usize, y as usize)));
        }
    }
    lemma_closed_reach(m, p);
}

/// The labels and waiting cells at the start: only the start cell is
/// visited, labelled 0, and queued.
proof fn lemma_initial(
    m: &Maze,
    s: (int, int),
    parent: Seq<Vec<Option<(usize, usize)>>>,
    dist: Map<(int, int), int>,
    q: Seq<(usize, usize)>,
    e: (int, int),
)
    requires
        m.in_bounds(s.0, s.1),
        m.grid@[s.0]@[s.1].visited,
        forall|x: int, y: int|
            #![trigger m.grid@[x]@[y]]
            m.in_bounds(x, y) && m.grid@[x]@[y].visited ==> (x, y) == s,
        dist == Map::<(int, int), int>::empty().insert(s, 0),
        q.len() == 1,
        pos(q[0]) == s,
    ensures
        labels_ok(m, s, parent, dist),
        frontier_ok(m, dist, q, 0),
        waiting(m, q, e, 4),
{
    reveal(labels_ok);
    reveal(frontier_ok);
    reveal(waiting);
    assert(q.contains(q[0]));
}

/// Expand the cell `(x, y)`: in the order top, right, bottom, left, label
/// each unvisited cell behind an open wall one further than `(x, y)`, link
/// it to `(x, y)` and queue it.
fn expand(
    maze: &mut Maze,
    parent: &mut Vec<Vec<Option<(usize, usize)>>>,
    queue: &mut VecDeque<(usize, usize)>,
    x: usize,
    y: usize,
    s: Ghost<(int, int)>,
    e: Ghost<(int, int)>,
    dist: Ghost<Map<(int, int), int>>,
    front: Ghost<int>,
) -> (r: Ghost<Map<(int, int), int>>)
    requires
        old(maze).wf(),
        s@ == pos(old(maze).start_cell),
        e@ == pos(old(maze).end_cell),
        old(maze).no_path_marked(),
        old(parent)@.len() == old(maze).width,
        forall|i: int| 0 <= i < old(maze).width ==> (#[trigger] old(parent)@[i])@.len() == old(maze).height,
        labels_ok(old(maze), s@, old(parent)@, dist@),
        frontier_ok(old(maze), dist@, old(queue)@, front@),
        labelled(dist@, pos((x, y))),
        dist@[pos((x, y))] == front@,
        waiting(old(maze), old(queue)@, pos((x, y)), 0),
        labelled(dist@, s@),
        x < old(maze).width && y < old(maze).height,
        old(maze).grid@[e@.0]@[e@.1].visited ==> old(queue)@.contains(old(maze).end_cell),
        old(maze).visited_count() <= old(maze).width * old(maze).height,
    ensures
        final(maze).wf(),
        final(maze).same_layout(old(maze)),
        final(maze).no_path_marked(),
        final(parent)@.len() == final(maze).width,
        forall|i: int| 0 <= i < final(maze).width ==> (#[trigger] final(parent)@[i])@.len() == final(maze).height,
        labels_ok(final(maze), s@, final(parent)@, r@),
        frontier_ok(final(maze), r@, final(queue)@, front@),
        waiting(final(maze), final(queue)@, e@, 4),
        labelled(r@, s@),
        final(maze).grid@[e@.0]@[e@.1].visited ==> final(queue)@.contains(final(maze).end_cell),
        final(maze).visited_count() - old(maze).visited_count() == final(queue)@.len() - old(queue)@.len(),
        final(queue)@.len() >= old(queue)@.len(),
        final(maze).visited_count() <= final(maze).width * final(maze).height,
{
    let end = maze.end_cell;
    let ghost s = s@;
    let ghost e = e@;
    let ghost front = front@;
    let ghost vc0 = maze.visited_count();
    let ghost ql0 = queue@.len();
    let ghost mut dist = dist@;
    let mut d: usize = 0;
    while d < 4
        invariant
            s == pos(maze.start_cell),
            e == pos(maze.end_cell),
            end == maze.end_cell,
            labelled(dist, s),
            x < maze.width && y < maze.height,
            maze.grid@[e.0]@[e.1].visited ==> queue@.contains(end),
            maze.visited_count() - vc0 == queue@.len() - ql0,
            queue@.len() >= ql0,
            maze.visited_count() <= maze.width * maze.height,
            maze.wf(),
            maze.same_layout(old(maze)),
            maze.no_path_marked(),
            parent@.len() == maze.width,
            forall|i: int| 0 <= i < maze.width ==> (#[trigger] parent@[i])@.len() == maze.height,
            labels_ok(maze, s, parent@, dist),
            frontier_ok(maze, dist, queue@, front),
            labelled(dist, pos((x, y))),
            dist[pos((x, y))] == front,
            d <= 4,
            waiting(maze, queue@, pos((x, y)), d as int),
        decreases 4 - d,
    {
        match maze.step(x, y, d) {
            Some((nx, ny)) => {
                if !maze.grid[x][y].walls[d] && !maze.grid[nx][ny].visited {
                    let ghost a = *maze;
                    let ghost pa = parent@;
                    let ghost qa = queue@;
                    maze.mark_visited(nx, ny);
                    parent[nx][ny] = Some((x, y));
                    queue.push_back((nx, ny));
                    proof {
                        lemma_mark_counts(&a, maze, nx as int, ny as int);
                        lemma_visited_count_bound(maze);
                        assert forall|i: int, j: int|
                            #![trigger parent@[i]@[j]]
                            a.in_bounds(i, j) implies parent@[i]@[j] == (if (i, j) == pos((nx, ny)) {
                                Some((x, y))
                            } else {
                                pa[i]@[j]
                            }) by {
                            if i != nx {
                                assert(parent@[i] == pa[i]);
                            }
                        }
                        assert(queue@ == qa.push((nx, ny)));
                        lemma_discover(&a, maze, s, pa, parent@, dist, qa, front, (x, y), d as int, (nx, ny));
                        dist = dist.insert((nx as int, ny as int), front + 1);
                        lemma_same_layout_trans(old(maze), &a, maze);
                        assert forall|i: int, j: int|
                            #![trigger maze.grid@[i]@[j]]
                            maze.in_bounds(i, j) implies !maze.grid@[i]@[j].path by {
                            assert(!a.grid@[i]@[j].path);
                        }
                        if maze.grid@[e.0]@[e.1].visited {
                            if (nx as int, ny as int) == e {
                                assert(queue@[queue@.len() - 1] == end);
                            } else {
                                assert(a.grid@[e.0]@[e.1].visited);
                                let i = choose|i: int| 0 <= i < qa.len() && qa[i] == end;
                                assert(queue@[i] == end);
                            }
                        }
                    }
                } else {
                    proof {
                        lemma_skip(maze, queue@, pos((x, y)), d as int);
                    }
                }
            },
            None => {
                proof {
                    lemma_skip(maze, queue@, pos((x, y)), d as int);
                }
            },
        }
        d = d + 1;
    }
    proof {
        lemma_done(maze, queue@, pos((x, y)), e);
    }
    Ghost(dist)
}

/// Follow the parent links back from the end cell to the start cell and
/// mark every cell on the way; the route is a shortest one.
fn mark_route(
    maze: &mut Maze,
    parent: &Vec<Vec<Option<(usize, usize)>>>,
    dist: Ghost<Map<(int, int), int>>,
    queue: Ghost<Seq<(usize, usize)>>,
    front: Ghost<int>,
)
    requires
        old(maze).wf(),
        old(maze).no_path_marked(),
        parent@.len() == old(maze).width,
        forall|i: int| 0 <= i < old(maze).width ==> (#[trigger] parent@[i])@.len() == old(maze).height,
        labels_ok(old(maze), pos(old(maze).start_cell), parent@, dist@),
        frontier_ok(old(maze), dist@, queue@, front@),
        labelled(dist@, pos(old(maze).end_cell)),
        dist@[pos(old(maze).end_cell)] == front@,
        waiting(old(maze), queue@, pos(old(maze).end_cell), 0),
    ensures
        final(maze).wf(),
        final(maze).same_layout(old(maze)),
        exists|p: Seq<(int, int)>| final(maze).solved_by(p) && final(maze).shortest(p),
{
    let start = maze.start_cell;
    let end = maze.end_cell;
    let ghost s = pos(start);
    let ghost e = pos(end);
    let ghost dist = dist@;
    let ghost front = front@;
    proof {
        lemma_potential(maze, s, parent@, dist, queue@, front, e);
    }
    let ghost mb = *maze;
    let ghost f = |c: (int, int)|
        if labelled(dist, c) {
            dist[c]
        } else {
            front + 1
        };
    let mut cx = end.0;
    let mut cy = end.1;
    let ghost mut route: Seq<(int, int)> = Seq::empty();
    proof {
        lemma_label(maze, s, parent@, dist, e);
        assert(mb.path_between(seq![e] + route, e, e)) by {
            assert(seq![e] + route == seq![e]);
        }
    }
    while !(cx == start.0 && cy == start.1)
        invariant
            mb.wf(),
            maze.wf(),
            maze.same_layout(&mb),
            s == pos(start),
            e == pos(end),
            s == pos(mb.start_cell),
            parent@.len() == mb.width,
            forall|i: int| 0 <= i < mb.width ==> (#[trigger] parent@[i])@.len() == mb.height,
            labels_ok(&mb, s, parent@, dist),
            labelled(dist, pos((cx, cy))),
            mb.path_between(seq![pos((cx, cy))] + route, pos((cx, cy)), e),
            (seq![pos((cx, cy))] + route).len() == dist[e] - dist[pos((cx, cy))] + 1,
            forall|x: int, y: int|
                #![trigger maze.grid@[x]@[y]]
                maze.in_bounds(x, y) ==> (maze.grid@[x]@[y].path <==> route.contains((x, y))),
        decreases dist[pos((cx, cy))],
    {
        proof {
            lemma_label(&mb, s, parent@, dist, pos((cx, cy)));
        }
        let ghost pre = *maze;
        maze.mark_path(cx, cy);
        let ghost here = pos((cx, cy));
        let ghost full = seq![here] + route;
        proof {
            lemma_same_layout_trans(&mb, &pre, maze);
            assert forall|x: int, y: int|
                #![trigger maze.grid@[x]@[y]]
                maze.in_bounds(x, y) implies (maze.grid@[x]@[y].path <==> full.contains((x, y))) by {
                if (x, y) != here {
                    assert(maze.grid@[x]@[y] == pre.grid@[x]@[y]);
                    if route.contains((x, y)) {
                        let i = choose|i: int| 0 <= i < route.len() && route[i] == (x, y);
                        assert(full[i + 1] == (x, y));
                    }
                    if full.contains((x, y)) {
                        let i = choose|i: int| 0 <= i < full.len() && full[i] == (x, y);
                        assert(route[i - 1] == (x, y));
                    }
                } else {
                    assert(full[0] == here);
                }
            }
            route = full;
        }
        match parent[cx][cy] {
            Some((px, py)) => {
                proof {
                    lemma_path_prepend(&mb, pos((px, py)), route);
                    lemma_label(&mb, s, parent@, dist, pos((px, py)));
                }
                cx = px;
                cy = py;
            },
            None => {},
        }
    }
    let ghost pre = *maze;
    maze.mark_path(start.0, start.1);
    proof {
        lemma_same_layout_trans(&mb, &pre, maze);
        lemma_label(&mb, s, parent@, dist, s);
        let full = seq![s] + route;
        assert(full == seq![pos((cx, cy))] + route);
        assert forall|x: int, y: int|
            #![trigger maze.grid@[x]@[y]]
            maze.in_bounds(x, y) implies (maze.grid@[x]@[y].path <==> full.contains((x, y))) by {
            if (x, y) != s {
                assert(maze.grid@[x]@[y] == pre.grid@[x]@[y]);
                if route.contains((x, y)) {
                    let i = choose|i: int| 0 <= i < route.len() && route[i] == (x, y);
                    assert(full[i + 1] == (x, y));
                }
                if full.contains((x, y)) {
                    let i = choose|i: int| 0 <= i < full.len() && full[i] == (x, y);
                    assert(route[i - 1] == (x, y));
                }
            } else {
                assert(full[0] == s);
            }
        }
        lemma_same_passages(&mb, maze);
        lemma_path_more_open(&mb, maze, full);
        assert(maze.solved_by(full));
        assert forall|q: Seq<(int, int)>| #[trigger] maze.path_between(q, maze.start_pos(), maze.end_pos()) implies full.len() <= q.len() by {
            lemma_path_more_open(maze, &mb, q);
            lemma_potential_path(&mb, f, q);
            lemma_label(&mb, s, parent@, dist, e);
        }
        assert(maze.shortest(full));
    }
}

/// Search breadth-first from the start cell, expanding directions in the
/// order top, right, bottom, left; on reaching the end cell, follow the
/// parent links back and mark that route. Walls and start and end marks are
/// left as they are; when no route exists no cell is marked.
pub fn traverse(maze: &mut Maze)
    requires
        old(maze).wf(),
    ensures
        final(maze).wf(),
        final(maze).same_layout(old(maze)),
        final(maze).reachable(final(maze).start_pos(), final(maze).end_pos()) ==> exists|p: Seq<(int, int)>|
            final(maze).solved_by(p) && final(maze).shortest(p),
        !final(maze).reachable(final(maze).start_pos(), final(maze).end_pos()) ==> final(maze).no_path_marked(),
{
    let start = maze.start_cell;
    let end = maze.end_cell;
    let ghost s = pos(start);
    let ghost e = pos(end);
    maze.reset_visited();
    let ghost cleared = *maze;
    let mut queue: VecDeque<(usize, usize)> = VecDeque::new();
    let mut parent = unlinked(maze.width, maze.height);
    queue.push_back(start);
    maze.mark_visited(start.0, start.1);
    let ghost mut dist: Map<(int, int), int> = Map::empty().insert(s, 0);
    let ghost mut front: int = 0;
    proof {
        lemma_same_layout_trans(old(maze), &cleared, maze);
        assert forall|x: int, y: int|
            #![trigger maze.grid@[x]@[y]]
            maze.in_bounds(x, y) && maze.grid@[x]@[y].visited implies (x, y) == s by {
            if (x, y) != s {
                assert(maze.grid@[x]@[y] == cleared.grid@[x]@[y]);
            }
        }
        assert(queue@[0] == start);
        assert(queue@.contains(start));
    }
    let mut found = false;
    proof {
        lemma_mark_counts(&cleared, maze, s.0, s.1);
        lemma_visited_count_bound(maze);
        lemma_initial(maze, s, parent@, dist, queue@, e);
    }
    while !found && queue.len() > 0
        invariant
            maze.wf(),
            maze.same_layout(old(maze)),
            s == pos(maze.start_cell),
            e == pos(maze.end_cell),
            s == pos(start),
            e == pos(end),
            maze.no_path_marked(),
            parent@.len() == maze.width,
            forall|i: int| 0 <= i < maze.width ==> (#[trigger] parent@[i])@.len() == maze.height,
            labels_ok(maze, s, parent@, dist),
            frontier_ok(maze, dist, queue@, front),
            found ==> labelled(dist, e) && dist[e] == front,
            !found ==> (maze.grid@[e.0]@[e.1].visited ==> queue@.contains(end)),
            waiting(maze, queue@, e, if found { 0int } else { 4int }),
            labelled(dist, s),
            maze.visited_count() <= maze.width * maze.height,
        decreases maze.width * maze.height - maze.visited_count(), queue@.len(),
    {
        let ghost q_old = queue@;
        let (x, y) = queue.pop_front().unwrap();
        proof {
            lemma_pop(maze, dist, q_old, front, e);
            front = dist[pos((x, y))];
            assert(queue@ == q_old.drop_first());
            assert(q_old[0] == (x, y));
            lemma_label(maze, s, parent@, dist, pos((x, y)));
        }
        if x == end.0 && y == end.1 {
            found = true;
            proof {
                assert(pos((x, y)) == e);
                assert(labelled(dist, e));
            }
        } else {
            proof {
                if maze.grid@[e.0]@[e.1].visited {
                    let i = choose|i: int| 0 <= i < q_old.len() && q_old[i] == end;
                    assert(i > 0);
                    assert(queue@[i - 1] == end);
                }
            }
            let r = expand(maze, &mut parent, &mut queue, x, y, Ghost(s), Ghost(e), Ghost(dist), Ghost(front));
            proof {
                dist = r@;
            }
        }
    }
    if found {
        mark_route(maze, &parent, Ghost(dist), Ghost(queue@), Ghost(front));
    } else {
        proof {
            if maze.reachable(maze.start_pos(), maze.end_pos()) {
                assert(queue@ =~= Seq::<(usize, usize)>::empty());
                lemma_exhausted(maze, e, s, parent@, dist);
                assert(queue@.contains(end));
            }
        }
    }
}

} // verus!
