//! Depth-first search with explicit backtracking: marks a simple path from
//! the start cell to the end cell.

use crate::graph::{lemma_closed_reach, lemma_mark_counts, lemma_path_push, lemma_visited_count_bound};
use crate::maze::{dx, dy, lemma_same_layout_trans, Cell, Maze};
use vstd::prelude::*;

verus! {

/// The cells of the trail, without the directions still to try.
pub open spec fn cells(st: Seq<(usize, usize, usize)>) -> Seq<(int, int)> {
    st.map_values(|f: (usize, usize, usize)| (f.0 as int, f.1 as int))
}

/// Directions still to try on the trail, counting one more per cell for
/// its removal.
spec fn todo(st: Seq<(usize, usize, usize)>) -> nat
    decreases st.len(),
{
    if st.len() == 0 {
        0
    } else if st.last().2 < 5 {
        todo(st.drop_last()) + (5 - st.last().2) as nat
    } else {
        todo(st.drop_last())
    }
}

/// The trail is a path of distinct visited cells from `s`.
#[verifier::opaque]
spec fn trail(m: &Maze, s: (int, int), st: Seq<(usize, usize, usize)>) -> bool {
    &&& st.len() > 0 ==> m.is_path(cells(st)) && cells(st)[0] == s
    &&& cells(st).no_duplicates()
    &&& forall|i: int|
        0 <= i < st.len() ==> (#[trigger] st[i]).2 <= 4 && m.grid@[st[i].0 as int]@[st[i].1 as int].visited
}

/// A visited cell with an open passage to an unvisited cell lies on the
/// trail, with that direction not yet tried.
#[verifier::opaque]
spec fn trail_waiting(m: &Maze, st: Seq<(usize, usize, usize)>) -> bool {
    forall|x: int, y: int, e: int|
        #![trigger m.open_dir(x, y, e)]
        m.open_dir(x, y, e) && m.grid@[x]@[y].visited && !m.grid@[x + dx(e)]@[y + dy(e)].visited
            ==> exists|i: int| 0 <= i < st.len() && cells(st)[i] == (x, y) && #[trigger] st[i].2 <= e
}

proof fn lemma_trail_start(m: &Maze, s: (int, int), st: Seq<(usize, usize, usize)>)
    requires
        m.in_bounds(s.0, s.1),
        m.grid@[s.0]@[s.1].visited,
        forall|x: int, y: int|
            #![trigger m.grid@[x]@[y]]
            m.in_bounds(x, y) && m.grid@[x]@[y].visited ==> (x, y) == s,
        st.len() == 1,
        (st[0].0 as int, st[0].1 as int) == s,
        st[0].2 == 0,
    ensures
        trail(m, s, st),
        trail_waiting(m, st),
{
    reveal(trail);
    reveal(trail_waiting);
    assert(cells(st)[0] == s);
    assert forall|x: int, y: int, e: int|
        #![trigger m.open_dir(x, y, e)]
        m.open_dir(x, y, e) && m.grid@[x]@[y].visited && !m.grid@[x + dx(e)]@[y + dy(e)].visited
            implies exists|i: int| 0 <= i < st.len() && cells(st)[i] == (x, y) && #[trigger] st[i].2 <= e by {
        assert(cells(st)[0] == (x, y) && st[0].2 <= e);
    }
}

/// Backtracking from a cell whose directions are all tried.
proof fn lemma_trail_pop(m: &Maze, s: (int, int), st: Seq<(usize, usize, usize)>)
    requires
        st.len() > 0,
        st.last().2 == 4,
        trail(m, s, st),
        trail_waiting(m, st),
    ensures
        trail(m, s, st.drop_last()),
        trail_waiting(m, st.drop_last()),
        todo(st.drop_last()) < todo(st),
{
    reveal(trail);
    reveal(trail_waiting);
    let r = st.drop_last();
    let k = st.len() - 1;
    assert(cells(r) =~= cells(st).drop_last());
    assert forall|i: int| 0 <= i < r.len() implies (#[trigger] r[i]).2 <= 4 && m.grid@[r[i].0 as int]@[r[i].1 as int].visited by {
        assert(r[i] == st[i]);
    }
    if r.len() > 0 {
        assert forall|i: int| 0 <= i < cells(r).len() - 1 implies #[trigger] m.passage(cells(r)[i], cells(r)[i + 1]) by {
            assert(m.passage(cells(st)[i], cells(st)[i + 1]));
        }
        assert forall|i: int| 0 <= i < cells(r).len() implies m.in_bounds(#[trigger] cells(r)[i].0, cells(r)[i].1) by {
            assert(m.in_bounds(cells(st)[i].0, cells(st)[i].1));
        }
    }
    assert forall|x: int, y: int, e: int|
        #![trigger m.open_dir(x, y, e)]
        m.open_dir(x, y, e) && m.grid@[x]@[y].visited && !m.grid@[x + dx(e)]@[y + dy(e)].visited
            implies exists|i: int| 0 <= i < r.len() && cells(r)[i] == (x, y) && #[trigger] r[i].2 <= e by {
        let i = choose|i: int| 0 <= i < st.len() && cells(st)[i] == (x, y) && #[trigger] st[i].2 <= e;
        assert(i != k);
        assert(r[i] == st[i]);
    }
}

/// Trying direction `d` of the top cell without descending.
proof fn lemma_trail_skip(m: &Maze, s: (int, int), st: Seq<(usize, usize, usize)>, d: int)
    requires
        st.len() > 0,
        st.last().2 == d,
        d < 4,
        trail(m, s, st),
        trail_waiting(m, st),
        !(m.open_dir(st.last().0 as int, st.last().1 as int, d) && !m.grid@[st.last().0 + dx(d)]@[st.last().1 + dy(d)].visited),
    ensures
        trail(m, s, st.update(st.len() - 1, (st.last().0, st.last().1, (d + 1) as usize))),
        trail_waiting(m, st.update(st.len() - 1, (st.last().0, st.last().1, (d + 1) as usize))),
        todo(st.update(st.len() - 1, (st.last().0, st.last().1, (d + 1) as usize))) < todo(st),
{
    reveal(trail);
    reveal(trail_waiting);
    let k = st.len() - 1;
    let r = st.update(k, (st.last().0, st.last().1, (d + 1) as usize));
    assert(cells(r) =~= cells(st));
    assert(r.drop_last() =~= st.drop_last());
    assert forall|i: int| 0 <= i < r.len() implies (#[trigger] r[i]).2 <= 4 && m.grid@[r[i].0 as int]@[r[i].1 as int].visited by {
        assert(r[i].0 == st[i].0 && r[i].1 == st[i].1);
    }
    assert forall|x: int, y: int, e: int|
        #![trigger m.open_dir(x, y, e)]
        m.open_dir(x, y, e) && m.grid@[x]@[y].visited && !m.grid@[x + dx(e)]@[y + dy(e)].visited
            implies exists|i: int| 0 <= i < r.len() && cells(r)[i] == (x, y) && #[trigger] r[i].2 <= e by {
        let i = choose|i: int| 0 <= i < st.len() && cells(st)[i] == (x, y) && #[trigger] st[i].2 <= e;
        if i == k {
            assert(e != d);
        }
        assert(r[i].2 <= e);
    }
}

/// Descending through direction `d` of the top cell into the unvisited
/// cell `n`, now marked visited in `b`.
#[verifier::rlimit(80)]
proof fn lemma_trail_push(a: &Maze, b: &Maze, s: (int, int), st: Seq<(usize, usize, usize)>, d: int, n: (usize, usize))
    requires
        a.shaped(),
        st.len() > 0,
        st.last().2 == d,
        d < 4,
        trail(a, s, st),
        trail_waiting(a, st),
        a.open_dir(st.last().0 as int, st.last().1 as int, d),
        (n.0 as int, n.1 as int) == (st.last().0 + dx(d), st.last().1 + dy(d)),
        !a.grid@[n.0 as int]@[n.1 as int].visited,
        b.same_layout(a),
        b.grid@[n.0 as int]@[n.1 as int] == (Cell { visited: true, ..a.grid@[n.0 as int]@[n.1 as int] }),
        forall|i: int, j: int|
            #![trigger b.grid@[i]@[j]]
            a.in_bounds(i, j) && (i, j) != (n.0 as int, n.1 as int) ==> b.grid@[i]@[j] == a.grid@[i]@[j],
    ensures
        trail(b, s, st.update(st.len() - 1, (st.last().0, st.last().1, (d + 1) as usize)).push((n.0, n.1, 0))),
{
    reveal(trail);
    let k = st.len() - 1;
    let u = st.update(k, (st.last().0, st.last().1, (d + 1) as usize));
    let r = u.push((n.0, n.1, 0));
    let np = (n.0 as int, n.1 as int);
    let p = cells(st);
    let extended = p.push(np);
    crate::bfs_traversal::lemma_same_passages(a, b);
    assert(cells(u) =~= p);
    assert(cells(r) =~= extended);
    let c = p.last();
    assert(c == (st.last().0 as int, st.last().1 as int));
    assert(a.open_dir(c.0, c.1, d));
    assert(a.passage(c, np));
    lemma_path_push(a, p, np);
    crate::graph::lemma_path_more_open(a, b, extended);
    assert forall|i: int| 0 <= i < p.len() implies #[trigger] p[i] != np by {
        assert(p[i] == (st[i].0 as int, st[i].1 as int));
        assert(a.grid@[st[i].0 as int]@[st[i].1 as int].visited);
    }
    assert forall|i: int| 0 <= i < r.len() implies (#[trigger] r[i]).2 <= 4 && b.grid@[r[i].0 as int]@[r[i].1 as int].visited by {
        if i < st.len() {
            assert(r[i].0 == st[i].0 && r[i].1 == st[i].1);
            assert(a.grid@[st[i].0 as int]@[st[i].1 as int].visited);
            assert(p[i] != np);
            assert(a.in_bounds(p[i].0, p[i].1));
            assert(b.grid@[st[i].0 as int]@[st[i].1 as int] == a.grid@[st[i].0 as int]@[st[i].1 as int]);
        } else {
            assert(r[i] == (n.0, n.1, 0usize));
        }
    }
    assert forall|i: int, j: int| 0 <= i < extended.len() && 0 <= j < extended.len() && i != j implies extended[i] != extended[j] by {
        if i < p.len() && j < p.len() {
            assert(p[i] != p[j]);
        } else if i < p.len() {
            assert(p[i] != np);
        } else if j < p.len() {
            assert(p[j] != np);
        }
    }
}

proof fn lemma_trail_push_waiting(a: &Maze, b: &Maze, s: (int, int), st: Seq<(usize, usize, usize)>, d: int, n: (usize, usize))
    requires
        a.shaped(),
        st.len() > 0,
        st.last().2 == d,
        d < 4,
        trail(a, s, st),
        trail_waiting(a, st),
        a.open_dir(st.last().0 as int, st.last().1 as int, d),
        (n.0 as int, n.1 as int) == (st.last().0 + dx(d), st.last().1 + dy(d)),
        !a.grid@[n.0 as int]@[n.1 as int].visited,
        b.same_layout(a),
        b.grid@[n.0 as int]@[n.1 as int] == (Cell { visited: true, ..a.grid@[n.0 as int]@[n.1 as int] }),
        forall|i: int, j: int|
            #![trigger b.grid@[i]@[j]]
            a.in_bounds(i, j) && (i, j) != (n.0 as int, n.1 as int) ==> b.grid@[i]@[j] == a.grid@[i]@[j],
    ensures
        trail_waiting(b, st.update(st.len() - 1, (st.last().0, st.last().1, (d + 1) as usize)).push((n.0, n.1, 0))),
{
    reveal(trail);
    reveal(trail_waiting);
    let k = st.len() - 1;
    let u = st.update(k, (st.last().0, st.last().1, (d + 1) as usize));
    let r = u.push((n.0, n.1, 0));
    let np = (n.0 as int, n.1 as int);
    crate::bfs_traversal::lemma_same_passages(a, b);
    assert(cells(u) =~= cells(st));
    assert(cells(r) =~= cells(st).push(np));
    assert forall|x: int, y: int, e: int|
        #![trigger b.open_dir(x, y, e)]
        b.open_dir(x, y, e) && b.grid@[x]@[y].visited && !b.grid@[x + dx(e)]@[y + dy(e)].visited
            implies exists|i: int| 0 <= i < r.len() && cells(r)[i] == (x, y) && #[trigger] r[i].2 <= e by {
        if (x, y) == np {
            assert(cells(r)[st.len() as int] == (x, y) && r[st.len() as int].2 <= e);
        } else {
            assert(a.open_dir(x, y, e));
            assert(a.grid@[x]@[y].visited);
            assert((x + dx(e), y + dy(e)) != np);
            assert(!a.grid@[x + dx(e)]@[y + dy(e)].visited);
            let i = choose|i: int| 0 <= i < st.len() && cells(st)[i] == (x, y) && #[trigger] st[i].2 <= e;
            if i == k {
                assert(e != d);
            }
            assert(cells(r)[i] == (x, y) && r[i].2 <= e);
        }
    }
}

/// With the trail exhausted nothing waits, so the end cell is reachable only
/// if it was visited.
proof fn lemma_trail_exhausted(m: &Maze, s: (int, int), e: (int, int))
    requires
        trail_waiting(m, Seq::empty()),
        m.grid@[s.0]@[s.1].visited,
        m.reachable(s, e),
    ensures
        m.grid@[e.0]@[e.1].visited,
{
    reveal(trail_waiting);
    let p = choose|p: Seq<(int, int)>| m.path_between(p, s, e);
    lemma_closed_reach(m, p);
}

/// A found trail is a simple path from the start cell to the end cell.
proof fn lemma_trail_found(m: &Maze, s: (int, int), e: (int, int), st: Seq<(usize, usize, usize)>)
    requires
        trail(m, s, st),
        st.len() > 0,
        cells(st).last() == e,
    ensures
        m.path_between(cells(st), s, e),
        cells(st).no_duplicates(),
        forall|i: int| 0 <= i < st.len() ==> m.in_bounds(st[i].0 as int, #[trigger] st[i].1 as int),
{
    reveal(trail);
    assert forall|i: int| 0 <= i < st.len() implies m.in_bounds(st[i].0 as int, #[trigger] st[i].1 as int) by {
        assert(cells(st)[i] == (st[i].0 as int, st[i].1 as int));
        assert(m.in_bounds(cells(st)[i].0, cells(st)[i].1));
    }
}

/// Search depth-first from the start cell, trying directions in the order
/// top, right, bottom, left and backtracking from dead ends; on reaching the
/// end cell, mark the cells of the current trail. Walls and start and end
/// marks are left as they are; when no route exists no cell is marked.
pub fn traverse(maze: &mut Maze)
    requires
        old(maze).wf(),
    ensures
        final(maze).wf(),
        final(maze).same_layout(old(maze)),
        final(maze).reachable(final(maze).start_pos(), final(maze).end_pos()) ==> exists|p: Seq<(int, int)>|
            final(maze).solved_by(p) && p.no_duplicates(),
        !final(maze).reachable(final(maze).start_pos(), final(maze).end_pos()) ==> final(maze).no_path_marked(),
{
    let start = maze.start_cell;
    let end = maze.end_cell;
    let ghost s = (start.0 as int, start.1 as int);
    let ghost e = (end.0 as int, end.1 as int);
    maze.reset_visited();
    let ghost cleared = *maze;
    let mut stack: Vec<(usize, usize, usize)> = Vec::new();
    stack.push((start.0, start.1, 0));
    maze.mark_visited(start.0, start.1);
    let mut found = start.0 == end.0 && start.1 == end.1;
    proof {
        lemma_same_layout_trans(old(maze), &cleared, maze);
        lemma_mark_counts(&cleared, maze, s.0, s.1);
        lemma_visited_count_bound(maze);
        assert forall|x: int, y: int|
            #![trigger maze.grid@[x]@[y]]
            maze.in_bounds(x, y) && maze.grid@[x]@[y].visited implies (x, y) == s by {
            if (x, y) != s {
                assert(maze.grid@[x]@[y] == cleared.grid@[x]@[y]);
            }
        }
        lemma_trail_start(maze, s, stack@);
        assert(cells(stack@)[0] == s);
    }
    while !found && stack.len() > 0
        invariant
            maze.wf(),
            maze.same_layout(old(maze)),
            s == (start.0 as int, start.1 as int),
            e == (end.0 as int, end.1 as int),
            start == maze.start_cell,
            end == maze.end_cell,
            maze.no_path_marked(),
            maze.grid@[s.0]@[s.1].visited,
            trail(maze, s, stack@),
            trail_waiting(maze, stack@),
            found ==> stack@.len() > 0 && cells(stack@).last() == e,
            !found ==> !maze.grid@[e.0]@[e.1].visited,
            maze.visited_count() <= maze.width * maze.height,
        decreases maze.width * maze.height - maze.visited_count(), todo(stack@),
    {
        let k = stack.len() - 1;
        let (x, y, d) = stack[k];
        let ghost st = stack@;
        if d >= 4 {
            stack.pop();
            proof {
                assert(d == 4) by {
                    reveal(trail);
                }
                assert(stack@ == st.drop_last());
                lemma_trail_pop(maze, s, st);
            }
        } else {
            stack.set(k, (x, y, d + 1));
            proof {
                assert(stack@ == st.update(k as int, (x, y, (d + 1) as usize)));
                reveal(trail);
                assert(maze.in_bounds(x as int, y as int)) by {
                    assert(maze.in_bounds(cells(st)[k as int].0, cells(st)[k as int].1));
                }
            }
            let mut descended = false;
            match maze.step(x, y, d) {
                Some((nx, ny)) => {
                    if !maze.grid[x][y].walls[d] && !maze.grid[nx][ny].visited {
                        let ghost a = *maze;
                        maze.mark_visited(nx, ny);
                        stack.push((nx, ny, 0));
                        descended = true;
                        proof {
                            lemma_trail_push(&a, maze, s, st, d as int, (nx, ny));
                            lemma_trail_push_waiting(&a, maze, s, st, d as int, (nx, ny));
                            lemma_mark_counts(&a, maze, nx as int, ny as int);
                            lemma_visited_count_bound(maze);
                            lemma_same_layout_trans(old(maze), &a, maze);
                            assert forall|i: int, j: int|
                                #![trigger maze.grid@[i]@[j]]
                                maze.in_bounds(i, j) implies !maze.grid@[i]@[j].path by {
                                assert(!a.grid@[i]@[j].path);
                            }
                        }
                        if nx == end.0 && ny == end.1 {
                            found = true;
                        }
                    }
                },
                None => {},
            }
            if !descended {
                proof {
                    lemma_trail_skip(maze, s, st, d as int);
                }
            }
        }
    }
    if found {
        let ghost trail_cells = cells(stack@);
        let ghost mb = *maze;
        proof {
            lemma_trail_found(maze, s, e, stack@);
        }
        let mut i: usize = 0;
        while i < stack.len()
            invariant
                mb.wf(),
                maze.wf(),
                maze.same_layout(&mb),
                trail_cells == cells(stack@),
                forall|j: int| 0 <= j < stack@.len() ==> mb.in_bounds(stack@[j].0 as int, #[trigger] stack@[j].1 as int),
                i <= stack@.len(),
                forall|x: int, y: int|
                    #![trigger maze.grid@[x]@[y]]
                    maze.in_bounds(x, y) ==> (maze.grid@[x]@[y].path <==> trail_cells.take(i as int).contains((x, y))),
            decreases stack@.len() - i,
        {
            let (px, py, _) = stack[i];
            let ghost pre = *maze;
            maze.mark_path(px, py);
            proof {
                lemma_same_layout_trans(&mb, &pre, maze);
                let here = (px as int, py as int);
                assert(trail_cells[i as int] == here);
                assert forall|x: int, y: int|
                    #![trigger maze.grid@[x]@[y]]
                    maze.in_bounds(x, y) implies (maze.grid@[x]@[y].path <==> trail_cells.take(i + 1).contains((x, y))) by {
                    let t0 = trail_cells.take(i as int);
                    let t1 = trail_cells.take(i + 1);
                    assert(t1[i as int] == here);
                    if (x, y) != here {
                        assert(maze.grid@[x]@[y] == pre.grid@[x]@[y]);
                        if t0.contains((x, y)) {
                            let j = choose|j: int| 0 <= j < t0.len() && t0[j] == (x, y);
                            assert(t1[j] == (x, y));
                        }
                        if t1.contains((x, y)) {
                            let j = choose|j: int| 0 <= j < t1.len() && t1[j] == (x, y);
                            assert(t0[j] == (x, y));
                        }
                    }
                }
            }
            i = i + 1;
        }
        proof {
            assert(trail_cells.take(stack@.len() as int) == trail_cells);
            crate::bfs_traversal::lemma_same_passages(&mb, maze);
            crate::graph::lemma_path_more_open(&mb, maze, trail_cells);
            assert(maze.solved_by(trail_cells));
        }
    } else {
        proof {
            if maze.reachable(maze.start_pos(), maze.end_pos()) {
                assert(stack@ =~= Seq::<(usize, usize, usize)>::empty());
                lemma_trail_exhausted(maze, s, e);
            }
        }
    }
}

/// On one maze, the route that breadth-first search marks is never longer
/// than the route that depth-first search marks: `mb` and `md` are the maze
/// after each search, `pb` and `pd` the routes they mark.
pub proof fn lemma_bfs_route_not_longer(
    m: &Maze,
    mb: &Maze,
    md: &Maze,
    pb: Seq<(int, int)>,
    pd: Seq<(int, int)>,
)
    requires
        m.wf(),
        mb.same_layout(m),
        md.same_layout(m),
        mb.solved_by(pb),
        mb.shortest(pb),
        md.solved_by(pd),
    ensures
        pb.len() <= pd.len(),
{
    crate::maze::lemma_same_layout_wf(m, mb);
    crate::bfs_traversal::lemma_same_passages(m, mb);
    crate::bfs_traversal::lemma_same_passages(m, md);
    crate::graph::lemma_path_more_open(md, mb, pd);
    assert(mb.path_between(pd, mb.start_pos(), mb.end_pos()));
}

} // verus!
