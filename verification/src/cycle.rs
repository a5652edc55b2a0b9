//! Acyclicity: the specification of cycles in an edge list, and a verified
//! check that decides it.  The check peels nodes with no remaining in-edges;
//! it succeeds on exactly the acyclic graphs.

use crate::counting::{
    count_true, lemma_count_true_full, lemma_count_true_le, lemma_count_true_missing,
    lemma_count_true_update,
};
use crate::dag::Edge;
use vstd::prelude::*;
use vstd::set_lib::{lemma_int_range, lemma_len_subset, set_int_range};

verus! {

/// Every consecutive pair of `p` is related by `r`.
pub open spec fn chain_ok(r: spec_fn(int, int) -> bool, p: Seq<int>) -> bool {
    forall|k: int| #![trigger p[k]] 0 <= k < p.len() - 1 ==> r(p[k], p[k + 1])
}

/// Some chain of length at least two returns to its starting point.
pub open spec fn relation_cyclic(r: spec_fn(int, int) -> bool) -> bool {
    exists|p: Seq<int>| p.len() >= 2 && p[0] == p[p.len() - 1] && chain_ok(r, p)
}

/// There is an edge from `u` to `v` in the list.
pub open spec fn has_edge_between(edges: Seq<Edge>, u: int, v: int) -> bool {
    exists|j: int|
        0 <= j < edges.len() && (#[trigger] edges[j]).from as int == u && edges[j].to as int == v
}

/// The edge relation of an edge list.
pub open spec fn edges_rel(edges: Seq<Edge>) -> spec_fn(int, int) -> bool {
    |u: int, v: int| has_edge_between(edges, u, v)
}

/// Relations that agree pointwise have the same cycles.
pub proof fn lemma_relation_cyclic_congruent(
    r1: spec_fn(int, int) -> bool,
    r2: spec_fn(int, int) -> bool,
)
    requires
        forall|u: int, v: int| #[trigger] r1(u, v) <==> #[trigger] r2(u, v),
    ensures
        relation_cyclic(r1) <==> relation_cyclic(r2),
{
    if relation_cyclic(r1) {
        let p = choose|p: Seq<int>| p.len() >= 2 && p[0] == p[p.len() - 1] && chain_ok(r1, p);
        assert(chain_ok(r2, p)) by {
            assert forall|k: int| #![trigger p[k]] 0 <= k < p.len() - 1 implies r2(
                p[k],
                p[k + 1],
            ) by {
                assert(r1(p[k], p[k + 1]));
            }
        }
        assert(relation_cyclic(r2));
    }
    if relation_cyclic(r2) {
        let p = choose|p: Seq<int>| p.len() >= 2 && p[0] == p[p.len() - 1] && chain_ok(r2, p);
        assert(chain_ok(r1, p)) by {
            assert forall|k: int| #![trigger p[k]] 0 <= k < p.len() - 1 implies r1(
                p[k],
                p[k + 1],
            ) by {
                assert(r2(p[k], p[k + 1]));
            }
        }
        assert(relation_cyclic(r1));
    }
}

/// A chain stays a chain on a subrange.
pub proof fn lemma_chain_subrange(r: spec_fn(int, int) -> bool, p: Seq<int>, a: int, b: int)
    requires
        chain_ok(r, p),
        0 <= a <= b <= p.len(),
    ensures
        chain_ok(r, p.subrange(a, b)),
{
    let q = p.subrange(a, b);
    assert forall|k: int| #![trigger q[k]] 0 <= k < q.len() - 1 implies r(q[k], q[k + 1]) by {
        assert(q[k] == p[a + k]);
        assert(q[k + 1] == p[a + k + 1]);
        assert(r(p[a + k], p[a + k + 1]));
    }
}

/// How many of the edges numbered `[0, m)` enter `w` from a node that is not
/// yet popped.
pub open spec fn count_in_upto(edges: Seq<Edge>, popped: Seq<bool>, w: int, m: int) -> nat
    decreases m,
{
    if m <= 0 {
        0
    } else {
        count_in_upto(edges, popped, w, m - 1) + if edges[m - 1].to as int == w && !popped[edges[m
            - 1].from as int] {
            1nat
        } else {
            0nat
        }
    }
}

/// How many of the edges numbered `[m, len)` enter `w` from a node that is
/// not yet popped.
pub open spec fn count_in_from(edges: Seq<Edge>, popped: Seq<bool>, w: int, m: int) -> nat
    decreases edges.len() - m,
{
    if m >= edges.len() || m < 0 {
        0
    } else {
        (if edges[m].to as int == w && !popped[edges[m].from as int] {
            1nat
        } else {
            0nat
        }) + count_in_from(edges, popped, w, m + 1)
    }
}

/// The in-edges of `w` that have not yet been consumed: prefix and suffix
/// counts together cover the whole list.
pub proof fn lemma_count_split(edges: Seq<Edge>, popped: Seq<bool>, w: int, m: int)
    requires
        0 <= m <= edges.len(),
    ensures
        count_in_upto(edges, popped, w, m) + count_in_from(edges, popped, w, m) == count_in_from(
            edges,
            popped,
            w,
            0,
        ),
    decreases m,
{
    if m > 0 {
        lemma_count_split(edges, popped, w, m - 1);
    }
}

/// A zero live in-degree means every in-edge comes from a popped node.
pub proof fn lemma_count_zero(edges: Seq<Edge>, popped: Seq<bool>, w: int, m: int)
    requires
        count_in_from(edges, popped, w, m) == 0,
        m >= 0,
    ensures
        forall|j: int|
            m <= j < edges.len() && (#[trigger] edges[j]).to as int == w ==> popped[edges[j].from
                as int],
    decreases edges.len() - m,
{
    if m < edges.len() {
        lemma_count_zero(edges, popped, w, m + 1);
    }
}

/// A positive live in-degree exhibits an in-edge from an unpopped node.
pub proof fn lemma_count_pos(edges: Seq<Edge>, popped: Seq<bool>, w: int, m: int)
    requires
        count_in_from(edges, popped, w, m) > 0,
        m >= 0,
    ensures
        exists|j: int|
            m <= j < edges.len() && (#[trigger] edges[j]).to as int == w && !popped[edges[j].from
                as int],
    decreases edges.len() - m,
{
    if m < edges.len() {
        if !(edges[m].to as int == w && !popped[edges[m].from as int]) {
            lemma_count_pos(edges, popped, w, m + 1);
        }
    }
}

/// The pop order respects the edges: an edge's head is popped only after its
/// tail, and the tail's rank is lower.
pub open spec fn rank_respects(edges: Seq<Edge>, popped: Seq<bool>, rank: Map<int, nat>) -> bool {
    forall|j: int|
        0 <= j < edges.len() && popped[(#[trigger] edges[j]).to as int] ==> popped[edges[j].from
            as int] && rank.contains_key(edges[j].from as int) && rank.contains_key(
            edges[j].to as int,
        ) && rank[edges[j].from as int] < rank[edges[j].to as int]
}

/// Along a chain of popped nodes the rank strictly increases.
proof fn lemma_rank_increases(
    edges: Seq<Edge>,
    popped: Seq<bool>,
    rank: Map<int, nat>,
    p: Seq<int>,
)
    requires
        rank_respects(edges, popped, rank),
        chain_ok(edges_rel(edges), p),
        p.len() >= 2,
        forall|k: int| 0 <= k < p.len() ==> popped[#[trigger] p[k]],
    ensures
        rank.contains_key(p[0]),
        rank.contains_key(p[p.len() - 1]),
        rank[p[0]] < rank[p[p.len() - 1]],
    decreases p.len(),
{
    assert(edges_rel(edges)(p[0], p[1]));
    let j = choose|j: int|
        0 <= j < edges.len() && (#[trigger] edges[j]).from as int == p[0] && edges[j].to as int
            == p[1];
    assert(popped[p[1]]);
    assert(rank[p[0]] < rank[p[1]]);
    if p.len() > 2 {
        let q = p.subrange(1, p.len() as int);
        lemma_chain_subrange(edges_rel(edges), p, 1, p.len() as int);
        assert(forall|k: int| 0 <= k < q.len() ==> popped[#[trigger] q[k]]);
        lemma_rank_increases(edges, popped, rank, q);
        assert(q[0] == p[1] && q[q.len() - 1] == p[p.len() - 1]);
    }
}

/// Walk in-edges backwards from `v0` through unpopped nodes, for `steps`
/// steps; every unpopped node has an unpopped predecessor, so the walk never
/// gets stuck.
proof fn build_chain(edges: Seq<Edge>, popped: Seq<bool>, n: int, v0: int, steps: nat) -> (p: Seq<
    int,
>)
    requires
        popped.len() == n,
        forall|j: int|
            0 <= j < edges.len() ==> 0 <= (#[trigger] edges[j]).from < n && 0 <= edges[j].to < n,
        forall|w: int|
            0 <= w < n && !popped[w] ==> exists|j: int|
                0 <= j < edges.len() && (#[trigger] edges[j]).to as int == w && !popped[edges[j].from
                    as int],
        0 <= v0 < n,
        !popped[v0],
    ensures
        p.len() == steps + 1,
        p[p.len() - 1] == v0,
        forall|k: int| 0 <= k < p.len() ==> 0 <= #[trigger] p[k] < n && !popped[p[k]],
        chain_ok(edges_rel(edges), p),
    decreases steps,
{
    if steps == 0 {
        let p = seq![v0];
        assert(p[0] == v0);
        p
    } else {
        let j = choose|j: int|
            0 <= j < edges.len() && (#[trigger] edges[j]).to as int == v0 && !popped[edges[j].from
                as int];
        let u = edges[j].from as int;
        let q = build_chain(edges, popped, n, u, (steps - 1) as nat);
        let p = q.push(v0);
        assert(edges_rel(edges)(u, v0)) by {
            assert(0 <= j < edges.len() && edges[j].from as int == u && edges[j].to as int == v0);
        }
        assert(chain_ok(edges_rel(edges), p)) by {
            assert forall|k: int| #![trigger p[k]] 0 <= k < p.len() - 1 implies edges_rel(edges)(
                p[k],
                p[k + 1],
            ) by {
                if k < q.len() - 1 {
                    assert(p[k] == q[k] && p[k + 1] == q[k + 1]);
                    assert(edges_rel(edges)(q[k], q[k + 1]));
                } else {
                    assert(p[k] == q[q.len() - 1] && p[k + 1] == v0);
                }
            }
        }
        p
    }
}

/// A sequence of more than `n` values drawn from `[0, n)` repeats one.
proof fn lemma_pigeonhole(s: Seq<int>, n: int)
    requires
        n >= 0,
        s.len() > n,
        forall|k: int| 0 <= k < s.len() ==> 0 <= #[trigger] s[k] < n,
    ensures
        exists|i: int, j: int| 0 <= i < j < s.len() && s[i] == s[j],
{
    broadcast use vstd::set::group_set_axioms;

    if !(exists|i: int, j: int| 0 <= i < j < s.len() && s[i] == s[j]) {
        assert(s.no_duplicates()) by {
            assert forall|i: int, j: int|
                0 <= i < s.len() && 0 <= j < s.len() && i != j implies s[i] != s[j] by {
                if s[i] == s[j] {
                    if i < j {
                        assert(0 <= i < j < s.len() && s[i] == s[j]);
                    } else {
                        assert(0 <= j < i < s.len() && s[j] == s[i]);
                    }
                }
            }
        }
        s.unique_seq_to_set();
        lemma_int_range(0, n);
        assert(s.to_set().subset_of(set_int_range(0, n))) by {
            assert forall|x: int| s.to_set().contains(x) implies set_int_range(0, n).contains(
                x,
            ) by {
                assert(s.contains(x));
                let k = choose|k: int| 0 <= k < s.len() && s[k] == x;
                assert(0 <= s[k] < n);
            }
        }
        lemma_len_subset(s.to_set(), set_int_range(0, n));
        assert(false);
    }
}

pub(crate) fn make_false_vec(n: usize) -> (v: Vec<bool>)
    ensures
        v.len() == n,
        forall|i: int| 0 <= i < n ==> !v[i],
{
    let mut v: Vec<bool> = Vec::new();
    let mut i: usize = 0;
    while i < n
        invariant
            v.len() == i,
            i <= n,
            forall|x: int| 0 <= x < i ==> !v[x],
        decreases n - i,
    {
        v.push(false);
        i = i + 1;
    }
    v
}

pub(crate) fn make_zero_vec(n: usize) -> (v: Vec<usize>)
    ensures
        v.len() == n,
        forall|i: int| 0 <= i < n ==> v[i] == 0,
{
    let mut v: Vec<usize> = Vec::new();
    let mut i: usize = 0;
    while i < n
        invariant
            v.len() == i,
            i <= n,
            forall|x: int| 0 <= x < i ==> v[x] == 0,
        decreases n - i,
    {
        v.push(0);
        i = i + 1;
    }
    v
}

/// When every node was popped in an edge-respecting order, no cycle exists.
proof fn lemma_all_popped_acyclic(edges: Seq<Edge>, popped: Seq<bool>, rank: Map<int, nat>, n: int)
    requires
        popped.len() == n,
        forall|j: int| 0 <= j < edges.len() ==> (#[trigger] edges[j]).from < n && edges[j].to < n,
        forall|x: int| 0 <= x < n ==> popped[x],
        rank_respects(edges, popped, rank),
    ensures
        !relation_cyclic(edges_rel(edges)),
{
    if relation_cyclic(edges_rel(edges)) {
        let p = choose|p: Seq<int>|
            p.len() >= 2 && p[0] == p[p.len() - 1] && chain_ok(edges_rel(edges), p);
        assert forall|k: int| 0 <= k < p.len() implies popped[#[trigger] p[k]] by {
            if k < p.len() - 1 {
                assert(edges_rel(edges)(p[k], p[k + 1]));
                let j = choose|j: int|
                    0 <= j < edges.len() && (#[trigger] edges[j]).from as int == p[k]
                        && edges[j].to as int == p[k + 1];
                assert(0 <= p[k] < n);
            } else {
                assert(p[k] == p[0]);
                assert(edges_rel(edges)(p[0], p[1]));
                let j = choose|j: int|
                    0 <= j < edges.len() && (#[trigger] edges[j]).from as int == p[0]
                        && edges[j].to as int == p[1];
                assert(0 <= p[0] < n);
            }
        }
        lemma_rank_increases(edges, popped, rank, p);
        assert(false);
    }
}

/// When some node is stuck behind an unpopped predecessor, a cycle exists.
pub proof fn lemma_stuck_cyclic(edges: Seq<Edge>, popped: Seq<bool>, n: int, v0: int)
    requires
        popped.len() == n,
        forall|j: int| 0 <= j < edges.len() ==> (#[trigger] edges[j]).from < n && edges[j].to < n,
        forall|w: int|
            0 <= w < n && !popped[w] ==> exists|j: int|
                0 <= j < edges.len() && (#[trigger] edges[j]).to as int == w && !popped[edges[j].from
                    as int],
        0 <= v0 < n,
        !popped[v0],
    ensures
        relation_cyclic(edges_rel(edges)),
{
    let p = build_chain(edges, popped, n, v0, n as nat);
    lemma_pigeonhole(p, n);
    let (i, j) = choose|i: int, j: int| 0 <= i < j < p.len() && p[i] == p[j];
    let c = p.subrange(i, j + 1);
    lemma_chain_subrange(edges_rel(edges), p, i, j + 1);
    assert(c.len() >= 2);
    assert(c[0] == p[i] && c[c.len() - 1] == p[j]);
    assert(relation_cyclic(edges_rel(edges)));
}

/// Decide whether the graph on nodes `[0, n)` with the given edges is
/// acyclic, by repeatedly removing nodes with no remaining in-edges.
#[verifier::rlimit(100)]
pub fn check_acyclic(n: usize, edges: &Vec<Edge>) -> (r: bool)
    requires
        forall|j: int|
            0 <= j < edges@.len() ==> (#[trigger] edges@[j]).from < n && edges@[j].to < n,
    ensures
        r == !relation_cyclic(edges_rel(edges@)),
{
    // Live in-degree of every node.
    let mut indeg: Vec<usize> = make_zero_vec(n);
    let empty = make_false_vec(n);
    let mut j: usize = 0;
    while j < edges.len()
        invariant
            indeg.len() == n,
            empty.len() == n,
            forall|x: int| 0 <= x < n ==> !empty[x],
            j <= edges.len(),
            forall|k: int|
                0 <= k < edges@.len() ==> (#[trigger] edges@[k]).from < n && edges@[k].to < n,
            forall|x: int| 0 <= x < n ==> indeg[x] == count_in_upto(edges@, empty@, x, j as int),
            forall|x: int| 0 <= x < n ==> indeg[x] <= j,
        decreases edges.len() - j,
    {
        let t = edges[j].to;
        let cur = indeg[t];
        indeg[t] = cur + 1;
        j = j + 1;
    }
    proof {
        assert forall|x: int| 0 <= x < n implies indeg[x] == count_in_from(
            edges@,
            empty@,
            x,
            0,
        ) by {
            lemma_count_split(edges@, empty@, x, edges@.len() as int);
        }
    }
    // Seed the queue with the nodes that have no in-edges at all.
    let mut queue: Vec<usize> = Vec::new();
    let mut w: usize = 0;
    while w < n
        invariant
            indeg.len() == n,
            w <= n,
            queue@.no_duplicates(),
            forall|i: int|
                0 <= i < queue.len() ==> (#[trigger] queue[i]) < w && indeg[queue[i] as int] == 0,
            forall|x: int| 0 <= x < w && indeg[x] == 0 ==> queue@.contains(x as usize),
        decreases n - w,
    {
        if indeg[w] == 0 {
            let ghost q0 = queue@;
            queue.push(w);
            proof {
                assert(queue@.no_duplicates()) by {
                    assert forall|i1: int, i2: int|
                        0 <= i1 < queue@.len() && 0 <= i2 < queue@.len() && i1 != i2 implies queue@[i1]
                        != queue@[i2] by {
                        if i1 < queue@.len() - 1 && i2 < queue@.len() - 1 {
                            assert(q0[i1] != q0[i2]);
                        }
                    }
                }
                assert forall|x: int| 0 <= x < w + 1 && indeg[x] == 0 implies queue@.contains(
                    x as usize,
                ) by {
                    if x < w {
                        let i = choose|i: int| 0 <= i < q0.len() && q0[i] == x as usize;
                        assert(queue@[i] == x as usize);
                    } else {
                        assert(queue@[queue@.len() - 1] == w);
                    }
                }
            }
        }
        w = w + 1;
    }
    let mut popped: Vec<bool> = make_false_vec(n);
    let mut popped_count: usize = 0;
    let ghost mut rank: Map<int, nat> = Map::empty();
    proof {
        assert(popped@ =~= empty@);
        crate::counting::lemma_count_true_zero(popped@);
    }
    while queue.len() > 0
        invariant
            popped.len() == n,
            indeg.len() == n,
            forall|k: int|
                0 <= k < edges@.len() ==> (#[trigger] edges@[k]).from < n && edges@[k].to < n,
            popped_count == count_true(popped@),
            popped_count <= n,
            forall|x: int| 0 <= x < n ==> indeg[x] == count_in_from(edges@, popped@, x, 0),
            queue@.no_duplicates(),
            forall|i: int|
                0 <= i < queue.len() ==> (#[trigger] queue[i]) < n && !popped[queue[i] as int]
                    && indeg[queue[i] as int] == 0,
            forall|x: int| 0 <= x < n && !popped[x] && indeg[x] == 0 ==> queue@.contains(x as usize),
            forall|x: int| 0 <= x < n ==> (popped[x] <==> rank.contains_key(x)),
            forall|x: int| rank.contains_key(x) ==> #[trigger] rank[x] < popped_count,
            rank_respects(edges@, popped@, rank),
        decreases n - popped_count, queue.len(),
    {
        let ghost q0 = queue@;
        let v = queue.pop().unwrap();
        let ghost popped_old = popped@;
        proof {
            lemma_count_true_update(popped@, v as int);
            lemma_count_true_le(popped@.update(v as int, true));
        }
        popped[v] = true;
        popped_count = popped_count + 1;
        proof {
            rank = rank.insert(v as int, (popped_count - 1) as nat);
            // Every in-edge of `v` comes from an already popped node.
            lemma_count_zero(edges@, popped_old, v as int, 0);
            // Queue membership survives the pop for every node but `v`.
            assert forall|x: int|
                0 <= x < n && !popped@[x] && indeg[x] == 0 implies queue@.contains(x as usize) by {
                assert(q0.contains(x as usize));
                let i = choose|i: int| 0 <= i < q0.len() && q0[i] == x as usize;
                assert(q0[q0.len() - 1] == v);
                assert(i < q0.len() - 1);
                assert(queue@[i] == x as usize);
            }
            assert(queue@.no_duplicates()) by {
                assert forall|i1: int, i2: int|
                    0 <= i1 < queue@.len() && 0 <= i2 < queue@.len() && i1 != i2 implies queue@[i1]
                    != queue@[i2] by {
                    assert(q0[i1] == queue@[i1] && q0[i2] == queue@[i2]);
                }
            }
            assert forall|i: int| 0 <= i < queue@.len() implies !popped@[queue@[i] as int]
                && indeg[queue@[i] as int] == 0 && queue@[i] < n by {
                assert(q0[i] == queue@[i]);
                assert(q0[q0.len() - 1] == v);
                assert(q0[i] != v);
            }
        }
        let mut j: usize = 0;
        while j < edges.len()
            invariant
                popped.len() == n,
                indeg.len() == n,
                v < n,
                popped[v as int],
                !popped_old[v as int],
                popped_old.len() == n,
                popped@ == popped_old.update(v as int, true),
                j <= edges.len(),
                forall|k: int|
                    0 <= k < edges@.len() ==> (#[trigger] edges@[k]).from < n && edges@[k].to < n,
                forall|x: int|
                    0 <= x < n ==> indeg[x] == count_in_upto(edges@, popped@, x, j as int)
                        + count_in_from(edges@, popped_old, x, j as int),
                queue@.no_duplicates(),
                forall|i: int|
                    0 <= i < queue.len() ==> (#[trigger] queue[i]) < n && !popped[queue[i] as int]
                        && indeg[queue[i] as int] == 0,
                forall|x: int|
                    0 <= x < n && !popped[x] && indeg[x] == 0 ==> queue@.contains(x as usize),
            decreases edges.len() - j,
        {
            let e = edges[j];
            if e.from == v {
                let cur = indeg[e.to];
                proof {
                    assert(count_in_from(edges@, popped_old, e.to as int, j as int) >= 1);
                }
                proof {
                    assert forall|i: int| 0 <= i < queue@.len() implies queue@[i] != e.to by {
                        assert(indeg[queue@[i] as int] == 0);
                    }
                }
                indeg[e.to] = cur - 1;
                if cur - 1 == 0 && !popped[e.to] {
                    let ghost q1 = queue@;
                    queue.push(e.to);
                    proof {
                        assert(queue@.no_duplicates()) by {
                            assert forall|i1: int, i2: int|
                                0 <= i1 < queue@.len() && 0 <= i2 < queue@.len() && i1 != i2 implies
                                queue@[i1] != queue@[i2] by {
                                if i1 < queue@.len() - 1 && i2 < queue@.len() - 1 {
                                    assert(q1[i1] != q1[i2]);
                                }
                            }
                        }
                        assert forall|x: int|
                            0 <= x < n && !popped@[x] && indeg[x] == 0 implies queue@.contains(
                            x as usize,
                        ) by {
                            if x == e.to as int {
                                assert(queue@[queue@.len() - 1] == e.to);
                            } else {
                                let i = choose|i: int| 0 <= i < q1.len() && q1[i] == x as usize;
                                assert(queue@[i] == x as usize);
                            }
                        }
                    }
                }
            }
            j = j + 1;
        }
        proof {
            assert forall|x: int| 0 <= x < n implies indeg[x] == count_in_from(
                edges@,
                popped@,
                x,
                0,
            ) by {
                lemma_count_split(edges@, popped@, x, edges@.len() as int);
            }
        }
    }
    if popped_count == n {
        proof {
            lemma_count_true_full(popped@);
            lemma_all_popped_acyclic(edges@, popped@, rank, n as int);
        }
        true
    } else {
        proof {
            lemma_count_true_le(popped@);
            lemma_count_true_missing(popped@);
            let v0 = choose|i: int| 0 <= i < popped@.len() && !popped@[i];
            assert forall|x: int| 0 <= x < n && !popped@[x] implies exists|j: int|
                0 <= j < edges@.len() && (#[trigger] edges@[j]).to as int == x
                    && !popped@[edges@[j].from as int] by {
                assert(!queue@.contains(x as usize));
                assert(indeg[x] != 0);
                lemma_count_pos(edges@, popped@, x, 0);
            }
            lemma_stuck_cyclic(edges@, popped@, n as int, v0);
        }
        false
    }
}

} // verus!
