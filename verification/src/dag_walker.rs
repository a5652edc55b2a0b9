//! The graph walker: a reusable reachability primitive over the dependency
//! graph, walking either upstream (in-edges) or downstream (out-edges) and
//! recording every node reached in a boolean set.

use crate::counting::{count_true, lemma_count_true_le, lemma_count_true_update};
use crate::cycle::{chain_ok, edges_rel};
use crate::dag::{BuildDag, Edge};
use vstd::prelude::*;

verus! {

/// Direction of a walk: upstream follows in-edges toward producers,
/// downstream follows out-edges toward consumers.
#[derive(Clone, Copy, PartialEq, Eq, Structural)]
pub enum Direction {
    Incoming,
    Outgoing,
}

/// There is a path from `a` to `b` along the edges (a node reaches itself).
pub open spec fn reach(edges: Seq<Edge>, a: int, b: int) -> bool {
    exists|p: Seq<int>|
        p.len() >= 1 && p[0] == a && p[p.len() - 1] == b && chain_ok(edges_rel(edges), p)
}

/// Reachability in the chosen walk direction: for `Incoming`, `x` is an
/// ancestor of `start`; for `Outgoing`, a descendant.
pub open spec fn reach_dir(edges: Seq<Edge>, dir: Direction, start: int, x: int) -> bool {
    match dir {
        Direction::Incoming => reach(edges, x, start),
        Direction::Outgoing => reach(edges, start, x),
    }
}

/// The set is closed in the walk direction: for `Incoming` every member's
/// producers are members, for `Outgoing` every member's consumers are.
pub open spec fn closed_dir(d: BuildDag, s: Seq<bool>, dir: Direction) -> bool {
    match dir {
        Direction::Incoming => forall|j: int|
            0 <= j < d.edges.len() && s[(#[trigger] d.edges[j]).to as int] ==> s[d.edges[j].from as int],
        Direction::Outgoing => forall|j: int|
            0 <= j < d.edges.len() && s[(#[trigger] d.edges[j]).from as int] ==> s[d.edges[j].to as int],
    }
}

/// Closure under upstream dependency: every selected node's producers are
/// selected.
pub open spec fn up_closed(d: BuildDag, s: Seq<bool>) -> bool {
    closed_dir(d, s, Direction::Incoming)
}

pub proof fn lemma_reach_self(edges: Seq<Edge>, a: int)
    ensures
        reach(edges, a, a),
{
    let p = seq![a];
    assert(p[0] == a && p[p.len() - 1] == a && chain_ok(edges_rel(edges), p));
}

/// Extend a path by one edge.
pub proof fn lemma_reach_step(edges: Seq<Edge>, a: int, b: int, j: int)
    requires
        reach(edges, a, b),
        0 <= j < edges.len(),
        edges[j].from as int == b,
    ensures
        reach(edges, a, edges[j].to as int),
{
    let p = choose|p: Seq<int>|
        p.len() >= 1 && p[0] == a && p[p.len() - 1] == b && chain_ok(edges_rel(edges), p);
    let q = p.push(edges[j].to as int);
    assert(edges_rel(edges)(b, edges[j].to as int));
    assert(chain_ok(edges_rel(edges), q)) by {
        assert forall|x: int| #![trigger q[x]] 0 <= x < q.len() - 1 implies edges_rel(edges)(
            q[x],
            q[x + 1],
        ) by {
            if x < p.len() - 1 {
                assert(q[x] == p[x] && q[x + 1] == p[x + 1]);
            } else {
                assert(q[x] == b);
            }
        }
    }
    assert(q[0] == a && q[q.len() - 1] == edges[j].to as int);
}

/// A set closed in a direction and containing `start` contains everything
/// the walk can reach from `start`.
pub proof fn lemma_closed_contains_reach(
    d: BuildDag,
    s: Seq<bool>,
    dir: Direction,
    start: int,
    x: int,
)
    requires
        d.wf(),
        s.len() == d.n_nodes(),
        closed_dir(d, s, dir),
        0 <= start < d.n_nodes(),
        s[start],
        reach_dir(d.edges@, dir, start, x),
        0 <= x < d.n_nodes(),
    ensures
        s[x],
{
    match dir {
        Direction::Incoming => {
            let p = choose|p: Seq<int>|
                p.len() >= 1 && p[0] == x && p[p.len() - 1] == start && chain_ok(
                    edges_rel(d.edges@),
                    p,
                );
            lemma_closed_chain_up(d, s, p);
        }
        Direction::Outgoing => {
            let p = choose|p: Seq<int>|
                p.len() >= 1 && p[0] == start && p[p.len() - 1] == x && chain_ok(
                    edges_rel(d.edges@),
                    p,
                );
            lemma_closed_chain_down(d, s, p);
        }
    }
}

/// Walking a chain backwards through an upstream-closed set stays inside it.
proof fn lemma_closed_chain_up(d: BuildDag, s: Seq<bool>, p: Seq<int>)
    requires
        d.wf(),
        s.len() == d.n_nodes(),
        closed_dir(d, s, Direction::Incoming),
        p.len() >= 1,
        chain_ok(edges_rel(d.edges@), p),
        0 <= p[p.len() - 1] < d.n_nodes(),
        s[p[p.len() - 1]],
    ensures
        s[p[0]],
    decreases p.len(),
{
    if p.len() >= 2 {
        assert(edges_rel(d.edges@)(p[p.len() - 2], p[p.len() - 1]));
        let j = choose|j: int|
            0 <= j < d.edges@.len() && (#[trigger] d.edges@[j]).from as int == p[p.len() - 2]
                && d.edges@[j].to as int == p[p.len() - 1];
        assert(d.edges[j] == d.edges@[j]);
        assert(s[p[p.len() - 2]]);
        let q = p.drop_last();
        crate::cycle::lemma_chain_subrange(edges_rel(d.edges@), p, 0, p.len() - 1);
        assert(q =~= p.subrange(0, p.len() - 1));
        lemma_closed_chain_up(d, s, q);
    }
}

/// Walking a chain forwards through a downstream-closed set stays inside it.
proof fn lemma_closed_chain_down(d: BuildDag, s: Seq<bool>, p: Seq<int>)
    requires
        d.wf(),
        s.len() == d.n_nodes(),
        closed_dir(d, s, Direction::Outgoing),
        p.len() >= 1,
        chain_ok(edges_rel(d.edges@), p),
        0 <= p[0] < d.n_nodes(),
        s[p[0]],
    ensures
        s[p[p.len() - 1]],
    decreases p.len(),
{
    if p.len() >= 2 {
        assert(edges_rel(d.edges@)(p[0], p[1]));
        let j = choose|j: int|
            0 <= j < d.edges@.len() && (#[trigger] d.edges@[j]).from as int == p[0]
                && d.edges@[j].to as int == p[1];
        assert(d.edges[j] == d.edges@[j]);
        assert(s[p[1]]);
        let q = p.subrange(1, p.len() as int);
        crate::cycle::lemma_chain_subrange(edges_rel(d.edges@), p, 1, p.len() as int);
        lemma_closed_chain_down(d, s, q);
    }
}

impl BuildDag {
    /// Walk the graph from `start` in the chosen direction, adding every
    /// node reached to the set.  On a set already closed in that direction,
    /// the result is exactly the old set plus everything reachable from
    /// `start`.
    pub fn walk_recursively(&self, start: usize, dir: Direction, to: &mut Vec<bool>)
        requires
            self.wf(),
            start < self.n_nodes(),
            old(to).len() == self.n_nodes(),
            closed_dir(*self, old(to)@, dir),
        ensures
            final(to).len() == old(to).len(),
            closed_dir(*self, final(to)@, dir),
            forall|x: int|
                0 <= x < final(to)@.len() ==> (final(to)@[x] <==> old(to)@[x] || reach_dir(
                    self.edges@,
                    dir,
                    start as int,
                    x,
                )),
    {
        let ghost n = self.n_nodes();
        let ghost old_set = to@;
        let mut pending: Vec<usize> = Vec::new();
        pending.push(start);
        proof {
            lemma_count_true_le(to@);
            assert(pending@[0] == start);
            lemma_reach_self(self.edges@, start as int);
            assert(reach_dir(self.edges@, dir, start as int, start as int));
        }
        while pending.len() > 0
            invariant
                self.wf(),
                start < n,
                n == self.n_nodes(),
                to.len() == n,
                count_true(to@) <= n,
                forall|i: int| 0 <= i < pending.len() ==> (#[trigger] pending[i]) < n,
                forall|i: int|
                    0 <= i < pending.len() ==> reach_dir(
                        self.edges@,
                        dir,
                        start as int,
                        (#[trigger] pending[i]) as int,
                    ),
                forall|x: int| 0 <= x < n && old_set[x] ==> to@[x],
                forall|x: int|
                    0 <= x < n && #[trigger] to@[x] ==> old_set[x] || reach_dir(
                        self.edges@,
                        dir,
                        start as int,
                        x,
                    ),
                to@[start as int] || pending@.contains(start),
                forall|jj: int|
                    0 <= jj < self.edges.len() && to@[walk_src(
                        (#[trigger] self.edges[jj]),
                        dir,
                    ) as int] ==> to@[walk_dst(self.edges[jj], dir) as int] || pending@.contains(
                        walk_dst(self.edges[jj], dir),
                    ),
            decreases n - count_true(to@), pending.len(),
        {
            let ghost pend_old = pending@;
            let v = pending.pop().unwrap();
            proof {
                assert forall|x: usize|
                    pend_old.contains(x) && x != v implies pending@.contains(x) by {
                    let i = choose|i: int| 0 <= i < pend_old.len() && pend_old[i] == x;
                    assert(i < pend_old.len() - 1);
                    assert(pending@[i] == x);
                }
            }
            if !to[v] {
                proof {
                    lemma_count_true_update(to@, v as int);
                    lemma_count_true_le(to@.update(v as int, true));
                }
                to[v] = true;
                let mut j: usize = 0;
                while j < self.edges.len()
                    invariant
                        self.wf(),
                        start < n,
                        n == self.n_nodes(),
                        to.len() == n,
                        v < n,
                        to@[v as int],
                        count_true(to@) <= n,
                        j <= self.edges.len(),
                        reach_dir(self.edges@, dir, start as int, v as int),
                        forall|i: int| 0 <= i < pending.len() ==> (#[trigger] pending[i]) < n,
                        forall|i: int|
                            0 <= i < pending.len() ==> reach_dir(
                                self.edges@,
                                dir,
                                start as int,
                                (#[trigger] pending[i]) as int,
                            ),
                        forall|x: int| 0 <= x < n && old_set[x] ==> to@[x],
                        forall|x: int|
                            0 <= x < n && #[trigger] to@[x] ==> old_set[x] || reach_dir(
                                self.edges@,
                                dir,
                                start as int,
                                x,
                            ),
                        to@[start as int] || pending@.contains(start),
                        forall|jj: int|
                            0 <= jj < self.edges.len() && to@[walk_src(
                                (#[trigger] self.edges[jj]),
                                dir,
                            ) as int] && (walk_src(self.edges[jj], dir) as int != v as int || jj
                                < j) ==> to@[walk_dst(self.edges[jj], dir) as int]
                                || pending@.contains(walk_dst(self.edges[jj], dir)),
                    decreases self.edges.len() - j,
                {
                    let e = self.edges[j];
                    let nbr = match dir {
                        Direction::Incoming => {
                            if e.to == v {
                                Some(e.from)
                            } else {
                                None
                            }
                        }
                        Direction::Outgoing => {
                            if e.from == v {
                                Some(e.to)
                            } else {
                                None
                            }
                        }
                    };
                    if let Some(w) = nbr {
                        let ghost pend_before = pending@;
                        pending.push(w);
                        proof {
                            assert(pending@[pending@.len() - 1] == w);
                            assert(walk_dst(self.edges@[j as int], dir) == w);
                            assert(reach_dir(self.edges@, dir, start as int, w as int)) by {
                                match dir {
                                    Direction::Incoming => {
                                        lemma_reach_up_step(
                                            self.edges@,
                                            v as int,
                                            j as int,
                                            start as int,
                                        );
                                    }
                                    Direction::Outgoing => {
                                        lemma_reach_step(
                                            self.edges@,
                                            start as int,
                                            v as int,
                                            j as int,
                                        );
                                    }
                                }
                            }
                            assert forall|x: usize|
                                pend_before.contains(x) implies pending@.contains(x) by {
                                let i = choose|i: int|
                                    0 <= i < pend_before.len() && pend_before[i] == x;
                                assert(pending@[i] == x);
                            }
                        }
                    }
                    j = j + 1;
                }
            }
        }
        proof {
            assert(pending@.len() == 0);
            walk_closed_helper(*self, to@, dir);
            assert forall|x: int|
                0 <= x < to@.len() && (old_set[x] || reach_dir(
                    self.edges@,
                    dir,
                    start as int,
                    x,
                )) implies to@[x] by {
                if !old_set[x] && reach_dir(self.edges@, dir, start as int, x) {
                    assert(to@[start as int]);
                    lemma_closed_contains_reach(*self, to@, dir, start as int, x);
                }
            }
        }
    }
}

/// The endpoint of an edge that a walk leaves from, per direction.
pub open spec fn walk_src(e: Edge, dir: Direction) -> usize {
    match dir {
        Direction::Incoming => e.to,
        Direction::Outgoing => e.from,
    }
}

/// The endpoint of an edge that a walk moves to, per direction.
pub open spec fn walk_dst(e: Edge, dir: Direction) -> usize {
    match dir {
        Direction::Incoming => e.from,
        Direction::Outgoing => e.to,
    }
}

/// A set whose members' walk-neighbors are members is closed.
proof fn walk_closed_helper(d: BuildDag, s: Seq<bool>, dir: Direction)
    requires
        forall|j: int|
            0 <= j < d.edges.len() && s[walk_src((#[trigger] d.edges[j]), dir) as int] ==> s[walk_dst(
                d.edges[j],
                dir,
            ) as int],
    ensures
        closed_dir(d, s, dir),
{
}

/// Step upstream: an edge into `b` extends a path that ends at `start`.
proof fn lemma_reach_up_step(edges: Seq<Edge>, b: int, j: int, start: int)
    requires
        reach(edges, b, start),
        0 <= j < edges.len(),
        edges[j].to as int == b,
    ensures
        reach(edges, edges[j].from as int, start),
{
    let p = choose|p: Seq<int>|
        p.len() >= 1 && p[0] == b && p[p.len() - 1] == start && chain_ok(edges_rel(edges), p);
    let q = seq![edges[j].from as int] + p;
    assert(edges_rel(edges)(edges[j].from as int, b));
    assert(chain_ok(edges_rel(edges), q)) by {
        assert forall|x: int| #![trigger q[x]] 0 <= x < q.len() - 1 implies edges_rel(edges)(
            q[x],
            q[x + 1],
        ) by {
            if x == 0 {
                assert(q[0] == edges[j].from as int && q[1] == p[0]);
            } else {
                assert(q[x] == p[x - 1] && q[x + 1] == p[x]);
            }
        }
    }
    assert(q[0] == edges[j].from as int && q[q.len() - 1] == start);
}

} // verus!
