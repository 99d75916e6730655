//! Paths in a maze whose open passages form a spanning tree: a simple path
//! between two cells is unique.

use crate::graph::{lemma_passage_back, ranked, spanning_tree, tree_at};
use crate::maze::{dx, dy, opposite, Maze};
use vstd::prelude::*;

verus! {

/// The parent of `c`: the cell beyond the passage in direction `pdir[c]`.
pub open spec fn parent_of(pdir: Map<(int, int), int>, c: (int, int)) -> (int, int) {
    (c.0 + dx(pdir[c]), c.1 + dy(pdir[c]))
}

/// The `j`-th ancestor of `c`.
pub open spec fn ancestor(pdir: Map<(int, int), int>, c: (int, int), j: nat) -> (int, int)
    decreases j,
{
    if j == 0 {
        c
    } else {
        parent_of(pdir, ancestor(pdir, c, (j - 1) as nat))
    }
}

/// Step `i` of `p` goes from a cell to its parent.
pub open spec fn step_down(pdir: Map<(int, int), int>, s: (int, int), p: Seq<(int, int)>, i: int) -> bool {
    p[i] != s && p[i + 1] == parent_of(pdir, p[i])
}

/// Step `i` of `p` goes from a cell to one of its children.
pub open spec fn step_up(pdir: Map<(int, int), int>, s: (int, int), p: Seq<(int, int)>, i: int) -> bool {
    p[i + 1] != s && p[i] == parent_of(pdir, p[i + 1])
}

/// In a spanning tree every passage joins a cell and its parent.
proof fn lemma_step_kind(
    m: &Maze,
    s: (int, int),
    rank: Map<(int, int), int>,
    pdir: Map<(int, int), int>,
    u: (int, int),
    v: (int, int),
)
    requires
        spanning_tree(m, s, rank, pdir),
        m.passage(u, v),
    ensures
        (u != s && v == parent_of(pdir, u) && rank[v] < rank[u]) || (v != s && u == parent_of(pdir, v)
            && rank[u] < rank[v]),
{
    let d = choose|d: int| #[trigger] m.open_dir(u.0, u.1, d) && v == (u.0 + dx(d), u.1 + dy(d));
    assert(m.in_bounds(u.0, u.1));
    assert(m.in_bounds(v.0, v.1));
    assert(ranked(rank, u));
    assert(ranked(rank, v));
    assert(tree_at(m, s, rank, pdir, u));
    assert(tree_at(m, s, rank, pdir, v));
    assert(dx(opposite(d)) == -dx(d) && dy(opposite(d)) == -dy(d));
}

proof fn lemma_path_prefix(m: &Maze, p: Seq<(int, int)>)
    requires
        m.is_path(p),
        p.len() > 1,
        p.no_duplicates(),
    ensures
        m.is_path(p.drop_last()),
        p.drop_last().no_duplicates(),
{
    let q = p.drop_last();
    assert forall|i: int| 0 <= i < q.len() - 1 implies #[trigger] m.passage(q[i], q[i + 1]) by {
        assert(m.passage(p[i], p[i + 1]));
    }
    assert forall|i: int| 0 <= i < q.len() implies m.in_bounds(#[trigger] q[i].0, q[i].1) by {
        assert(m.in_bounds(p[i].0, p[i].1));
    }
    assert forall|i: int, j: int| 0 <= i < q.len() && 0 <= j < q.len() && i != j implies q[i] != q[j] by {
        assert(p[i] != p[j]);
    }
}

/// A simple path first climbs towards the root, then descends: its first
/// `k` steps go to parents and the rest to children.
proof fn lemma_shape(
    m: &Maze,
    s: (int, int),
    rank: Map<(int, int), int>,
    pdir: Map<(int, int), int>,
    p: Seq<(int, int)>,
) -> (k: int)
    requires
        spanning_tree(m, s, rank, pdir),
        m.is_path(p),
        p.no_duplicates(),
    ensures
        0 <= k <= p.len() - 1,
        forall|i: int| 0 <= i < k ==> #[trigger] step_down(pdir, s, p, i),
        forall|i: int| k <= i < p.len() - 1 ==> #[trigger] step_up(pdir, s, p, i),
    decreases p.len(),
{
    if p.len() == 1 {
        0
    } else {
        let q = p.drop_last();
        lemma_path_prefix(m, p);
        let k0 = lemma_shape(m, s, rank, pdir, q);
        let i = p.len() - 2;
        assert(m.passage(p[i], p[i + 1]));
        lemma_step_kind(m, s, rank, pdir, p[i], p[i + 1]);
        assert forall|j: int| 0 <= j < k0 implies #[trigger] step_down(pdir, s, p, j) by {
            assert(step_down(pdir, s, q, j));
            assert(q[j] == p[j] && q[j + 1] == p[j + 1]);
        }
        assert forall|j: int| k0 <= j < q.len() - 1 implies #[trigger] step_up(pdir, s, p, j) by {
            assert(step_up(pdir, s, q, j));
            assert(q[j] == p[j] && q[j + 1] == p[j + 1]);
        }
        if step_up(pdir, s, p, i) {
            k0
        } else {
            if k0 < i {
                assert(step_up(pdir, s, q, i - 1));
                assert(q[i - 1] == p[i - 1] && q[i] == p[i]);
                assert(p[i - 1] == p[i + 1]);
            }
            i + 1
        }
    }
}

/// Up to its turning point a simple path runs through the ancestors of its
/// first cell, none of them the root but the last.
proof fn lemma_climb(pdir: Map<(int, int), int>, s: (int, int), p: Seq<(int, int)>, k: int, i: int)
    requires
        0 <= i <= k < p.len(),
        forall|j: int| 0 <= j < k ==> #[trigger] step_down(pdir, s, p, j),
    ensures
        p[i] == ancestor(pdir, p[0], i as nat),
        forall|t: nat| t < i ==> #[trigger] ancestor(pdir, p[0], t) != s,
    decreases i,
{
    if i > 0 {
        lemma_climb(pdir, s, p, k, i - 1);
        assert(step_down(pdir, s, p, i - 1));
        assert forall|t: nat| t < i implies #[trigger] ancestor(pdir, p[0], t) != s by {
            if t == i - 1 {
                assert(ancestor(pdir, p[0], t) == p[i - 1]);
            }
        }
    }
}

/// After its turning point a simple path runs down through the ancestors of
/// its last cell, none of them the root but the first.
proof fn lemma_descend(pdir: Map<(int, int), int>, s: (int, int), p: Seq<(int, int)>, k: int, i: int)
    requires
        0 <= k <= i < p.len(),
        forall|j: int| k <= j < p.len() - 1 ==> #[trigger] step_up(pdir, s, p, j),
    ensures
        p[i] == ancestor(pdir, p.last(), (p.len() - 1 - i) as nat),
        forall|t: nat| t < p.len() - 1 - i ==> #[trigger] ancestor(pdir, p.last(), t) != s,
    decreases p.len() - i,
{
    if i < p.len() - 1 {
        lemma_descend(pdir, s, p, k, i + 1);
        assert(step_up(pdir, s, p, i));
        assert forall|t: nat| t < p.len() - 1 - i implies #[trigger] ancestor(pdir, p.last(), t) != s by {
            if t == p.len() - 2 - i {
                assert(ancestor(pdir, p.last(), t) == p[i + 1]);
            }
        }
    }
}

/// The ancestors of an ancestor are ancestors.
proof fn lemma_ancestor_add(pdir: Map<(int, int), int>, c: (int, int), i: nat, j: nat)
    ensures
        ancestor(pdir, ancestor(pdir, c, i), j) == ancestor(pdir, c, i + j),
    decreases j,
{
    if j > 0 {
        lemma_ancestor_add(pdir, c, i, (j - 1) as nat);
        assert((i + j - 1) as nat == i + (j - 1) as nat);
    }
}

/// Ranks fall strictly along a chain of ancestors that avoids the root.
proof fn lemma_ancestor_rank(
    m: &Maze,
    s: (int, int),
    rank: Map<(int, int), int>,
    pdir: Map<(int, int), int>,
    c: (int, int),
    j1: nat,
    j2: nat,
)
    requires
        spanning_tree(m, s, rank, pdir),
        m.in_bounds(c.0, c.1),
        j1 <= j2,
        forall|t: nat| t < j2 ==> #[trigger] ancestor(pdir, c, t) != s,
    ensures
        ranked(rank, ancestor(pdir, c, j2)),
        m.in_bounds(ancestor(pdir, c, j2).0, ancestor(pdir, c, j2).1),
        j1 < j2 ==> rank[ancestor(pdir, c, j2)] < rank[ancestor(pdir, c, j1)],
    decreases j2,
{
    if j2 == 0 {
        assert(ranked(rank, c));
    } else {
        let prev = (j2 - 1) as nat;
        lemma_ancestor_rank(m, s, rank, pdir, c, if j1 < j2 { j1 } else { prev }, prev);
        let a = ancestor(pdir, c, prev);
        assert(a != s);
        assert(tree_at(m, s, rank, pdir, a));
        assert(ranked(rank, parent_of(pdir, a)));
    }
}

/// Two simple paths between the same cells, the first turning no later than
/// the second, are equal.
proof fn lemma_unique_ordered(
    m: &Maze,
    s: (int, int),
    rank: Map<(int, int), int>,
    pdir: Map<(int, int), int>,
    p: Seq<(int, int)>,
    k1: int,
    q: Seq<(int, int)>,
    k2: int,
)
    requires
        spanning_tree(m, s, rank, pdir),
        m.is_path(p),
        m.is_path(q),
        q.no_duplicates(),
        p[0] == q[0],
        p.last() == q.last(),
        0 <= k1 <= k2,
        k1 <= p.len() - 1,
        k2 <= q.len() - 1,
        forall|i: int| 0 <= i < k1 ==> #[trigger] step_down(pdir, s, p, i),
        forall|i: int| k1 <= i < p.len() - 1 ==> #[trigger] step_up(pdir, s, p, i),
        forall|i: int| 0 <= i < k2 ==> #[trigger] step_down(pdir, s, q, i),
        forall|i: int| k2 <= i < q.len() - 1 ==> #[trigger] step_up(pdir, s, q, i),
    ensures
        p == q,
{
    let a = p[0];
    let b = p.last();
    let l1 = p.len() - 1;
    let l2 = q.len() - 1;
    assert(m.in_bounds(b.0, b.1)) by {
        assert(m.in_bounds(p[l1].0, p[l1].1));
    }
    lemma_climb(pdir, s, p, k1, k1);
    lemma_descend(pdir, s, p, k1, k1);
    lemma_climb(pdir, s, q, k2, k1);
    lemma_climb(pdir, s, q, k2, k2);
    lemma_descend(pdir, s, q, k2, k2);
    let mid = p[k1];
    assert(q[k1] == mid);
    if k1 == k2 {
        if l1 != l2 {
            let (lo, hi) = if l1 < l2 {
                ((l1 - k1) as nat, (l2 - k1) as nat)
            } else {
                ((l2 - k1) as nat, (l1 - k1) as nat)
            };
            lemma_ancestor_rank(m, s, rank, pdir, b, lo, hi);
        }
        assert forall|i: int| 0 <= i < p.len() implies p[i] == q[i] by {
            if i <= k1 {
                lemma_climb(pdir, s, p, k1, i);
                lemma_climb(pdir, s, q, k2, i);
            } else {
                lemma_descend(pdir, s, p, k1, i);
                lemma_descend(pdir, s, q, k2, i);
            }
        }
        assert(p =~= q);
    } else {
        let up1 = (l1 - k1) as nat;
        let extra = (k2 - k1) as nat;
        lemma_ancestor_add(pdir, a, k1 as nat, extra);
        lemma_ancestor_add(pdir, b, up1, extra);
        let jj = (up1 + extra) as nat;
        assert(ancestor(pdir, b, jj) == q[k2]);
        assert forall|t: nat| t < jj implies #[trigger] ancestor(pdir, b, t) != s by {
            if t >= up1 {
                let r = (t - up1) as nat;
                lemma_ancestor_add(pdir, b, up1, r);
                lemma_ancestor_add(pdir, a, k1 as nat, r);
                assert(ancestor(pdir, b, t) == ancestor(pdir, a, (k1 + r) as nat));
            }
        }
        let l2k2 = (l2 - k2) as nat;
        if l2k2 != jj {
            let (lo, hi) = if l2k2 < jj {
                (l2k2, jj)
            } else {
                (jj, l2k2)
            };
            lemma_ancestor_rank(m, s, rank, pdir, b, lo, hi);
        }
        let j = l2 - up1;
        lemma_descend(pdir, s, q, k2, j);
        assert(q[j] == mid);
        assert(j != k1);
    }
}

/// When the open passages of a maze form a spanning tree, two simple paths
/// between the same two cells are the same path: no cycle can be walked.
pub proof fn lemma_unique_simple_path(
    m: &Maze,
    s: (int, int),
    rank: Map<(int, int), int>,
    pdir: Map<(int, int), int>,
    a: (int, int),
    b: (int, int),
    p: Seq<(int, int)>,
    q: Seq<(int, int)>,
)
    requires
        spanning_tree(m, s, rank, pdir),
        m.path_between(p, a, b),
        m.path_between(q, a, b),
        p.no_duplicates(),
        q.no_duplicates(),
    ensures
        p == q,
{
    let k1 = lemma_shape(m, s, rank, pdir, p);
    let k2 = lemma_shape(m, s, rank, pdir, q);
    if k1 <= k2 {
        lemma_unique_ordered(m, s, rank, pdir, p, k1, q, k2);
    } else {
        lemma_unique_ordered(m, s, rank, pdir, q, k2, p, k1);
    }
}

/// A path walked backwards is a path.
proof fn lemma_path_reverse(m: &Maze, p: Seq<(int, int)>)
    requires
        m.symmetric(),
        m.is_path(p),
    ensures
        m.is_path(p.reverse()),
        p.reverse()[0] == p.last(),
        p.reverse().last() == p[0],
{
    let r = p.reverse();
    assert forall|i: int| 0 <= i < r.len() implies m.in_bounds(#[trigger] r[i].0, r[i].1) by {
        assert(r[i] == p[p.len() - 1 - i]);
        assert(m.in_bounds(p[p.len() - 1 - i].0, p[p.len() - 1 - i].1));
    }
    assert forall|i: int| 0 <= i < r.len() - 1 implies #[trigger] m.passage(r[i], r[i + 1]) by {
        let j = p.len() - 2 - i;
        assert(r[i] == p[j + 1] && r[i + 1] == p[j]);
        assert(m.passage(p[j], p[j + 1]));
        lemma_passage_back(m, p[j], p[j + 1]);
    }
}

/// Two paths that meet end to start join into one.
proof fn lemma_path_join(m: &Maze, p: Seq<(int, int)>, q: Seq<(int, int)>)
    requires
        m.is_path(p),
        m.is_path(q),
        p.last() == q[0],
    ensures
        m.is_path(p + q.drop_first()),
        (p + q.drop_first())[0] == p[0],
        (p + q.drop_first()).last() == q.last(),
{
    let r = p + q.drop_first();
    assert forall|i: int| 0 <= i < r.len() implies m.in_bounds(#[trigger] r[i].0, r[i].1) by {
        if i < p.len() {
            assert(m.in_bounds(p[i].0, p[i].1));
        } else {
            assert(r[i] == q[i - p.len() + 1]);
            assert(m.in_bounds(q[i - p.len() + 1].0, q[i - p.len() + 1].1));
        }
    }
    assert forall|i: int| 0 <= i < r.len() - 1 implies #[trigger] m.passage(r[i], r[i + 1]) by {
        if i < p.len() - 1 {
            assert(m.passage(p[i], p[i + 1]));
        } else {
            let j = i - p.len() + 1;
            assert(r[i] == q[j] && r[i + 1] == q[j + 1]);
            assert(m.passage(q[j], q[j + 1]));
        }
    }
    if q.len() > 1 {
        assert(r.last() == q.last());
    }
}

/// Cutting out the loops of a path leaves a simple path between the same cells.
proof fn lemma_simple_path(m: &Maze, p: Seq<(int, int)>)
    requires
        m.is_path(p),
    ensures
        exists|r: Seq<(int, int)>| m.path_between(r, p[0], p.last()) && r.no_duplicates(),
    decreases p.len(),
{
    if p.no_duplicates() {
        assert(m.path_between(p, p[0], p.last()));
    } else {
        let (i, j) = choose|i: int, j: int| 0 <= i < p.len() && 0 <= j < p.len() && i != j && p[i] == p[j];
        let (lo, hi) = if i < j {
            (i, j)
        } else {
            (j, i)
        };
        let r = p.subrange(0, lo) + p.subrange(hi, p.len() as int);
        assert forall|k: int| 0 <= k < r.len() implies m.in_bounds(#[trigger] r[k].0, r[k].1) by {
            if k < lo {
                assert(r[k] == p[k]);
                assert(m.in_bounds(p[k].0, p[k].1));
            } else {
                assert(r[k] == p[k - lo + hi]);
                assert(m.in_bounds(p[k - lo + hi].0, p[k - lo + hi].1));
            }
        }
        assert forall|k: int| 0 <= k < r.len() - 1 implies #[trigger] m.passage(r[k], r[k + 1]) by {
            if k < lo - 1 {
                assert(r[k] == p[k] && r[k + 1] == p[k + 1]);
                assert(m.passage(p[k], p[k + 1]));
            } else if k == lo - 1 {
                assert(r[k] == p[k] && r[k + 1] == p[hi] && p[hi] == p[lo]);
                assert(m.passage(p[k], p[k + 1]));
            } else {
                let t = k - lo + hi;
                assert(r[k] == p[t] && r[k + 1] == p[t + 1]);
                assert(m.passage(p[t], p[t + 1]));
            }
        }
        assert(r[0] == p[0]) by {
            if lo == 0 {
                assert(p[hi] == p[lo]);
            }
        }
        assert(r.last() == p.last());
        lemma_simple_path(m, r);
    }
}

/// A maze whose passages form a spanning tree rooted at its start cell, as
/// generation without extra openings leaves it, joins every two cells by
/// exactly one simple path.
pub proof fn lemma_exactly_one_simple_path(
    m: &Maze,
    rank: Map<(int, int), int>,
    pdir: Map<(int, int), int>,
    a: (int, int),
    b: (int, int),
)
    requires
        m.generated(),
        spanning_tree(m, m.start_pos(), rank, pdir),
        m.in_bounds(a.0, a.1),
        m.in_bounds(b.0, b.1),
    ensures
        exists|p: Seq<(int, int)>| m.path_between(p, a, b) && p.no_duplicates(),
        forall|p: Seq<(int, int)>, q: Seq<(int, int)>|
            m.path_between(p, a, b) && p.no_duplicates() && m.path_between(q, a, b) && q.no_duplicates() ==> p == q,
{
    let s = m.start_pos();
    assert(m.reachable(s, a));
    assert(m.reachable(s, b));
    let pa = choose|p: Seq<(int, int)>| m.path_between(p, s, a);
    let pb = choose|p: Seq<(int, int)>| m.path_between(p, s, b);
    lemma_path_reverse(m, pa);
    lemma_path_join(m, pa.reverse(), pb);
    lemma_simple_path(m, pa.reverse() + pb.drop_first());
    assert forall|p: Seq<(int, int)>, q: Seq<(int, int)>|
        m.path_between(p, a, b) && p.no_duplicates() && m.path_between(q, a, b) && q.no_duplicates() implies p == q by {
        lemma_unique_simple_path(m, s, rank, pdir, a, b, p, q);
    }
}

} // verus!
