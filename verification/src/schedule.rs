//! The scheduler: drives the selected set through the graph in dependency
//! order.  A node becomes ready only after every one of its in-edge
//! predecessors has completed; ready nodes are handed out highest node
//! index first.  A failing test never aborts the run; a failing build
//! command does.

use crate::counting::{count_true, lemma_count_true_le, lemma_count_true_update};
use crate::cycle::count_in_from;
use crate::dag::BuildDag;
use crate::dag_walker::up_closed;
use vstd::prelude::*;

verus! {

pub struct Scheduler {
    /// The selected set, fixed at construction.
    pub selected: Vec<bool>,
    /// Per node, the number of in-edges from nodes not yet completed.
    pub remaining: Vec<usize>,
    /// Selected nodes with no remaining dependencies, not yet started.
    pub ready: Vec<usize>,
    /// Nodes handed out by `next_ready`.
    pub started: Vec<bool>,
    /// Nodes whose execution was reported done.
    pub completed: Vec<bool>,
    /// The node currently handed out, if any.
    pub running: Option<usize>,
}

impl Scheduler {
    pub open spec fn wf(self, d: BuildDag) -> bool {
        &&& d.wf()
        &&& self.selected.len() == d.n_nodes()
        &&& self.remaining.len() == d.n_nodes()
        &&& self.started.len() == d.n_nodes()
        &&& self.completed.len() == d.n_nodes()
        &&& up_closed(d, self.selected@)
        &&& forall|x: int|
            0 <= x < d.n_nodes() ==> self.remaining[x] == count_in_from(
                d.edges@,
                self.completed@,
                x,
                0,
            )
        &&& forall|x: int| 0 <= x < d.n_nodes() && #[trigger] self.started[x] ==> self.selected[x]
        &&& forall|x: int| 0 <= x < d.n_nodes() && #[trigger] self.completed[x] ==> self.started[x]
        &&& self.ready@.no_duplicates()
        &&& forall|i: int|
            0 <= i < self.ready.len() ==> (#[trigger] self.ready[i]) < d.n_nodes()
                && self.selected[self.ready[i] as int] && !self.started[self.ready[i] as int]
                && self.remaining[self.ready[i] as int] == 0
        &&& forall|x: int|
            0 <= x < d.n_nodes() && self.selected[x] && !(#[trigger] self.started[x])
                && self.remaining[x] == 0 ==> self.ready@.contains(x as usize)
        &&& match self.running {
            Some(v) => v < d.n_nodes() && self.started[v as int] && !self.completed[v as int],
            None => true,
        }
        &&& forall|x: int|
            0 <= x < d.n_nodes() && #[trigger] self.started[x] && !self.completed[x]
                ==> self.running == Some(x as usize)
    }

    /// Set up the counts and the initial ready set for a selected set that
    /// is closed under upstream dependency.
    pub fn new(d: &BuildDag, selected: &Vec<bool>) -> (s: Scheduler)
        requires
            d.wf(),
            selected.len() == d.n_nodes(),
            up_closed(*d, selected@),
        ensures
            s.wf(*d),
            s.selected@ == selected@,
            s.running is None,
            forall|x: int| 0 <= x < d.n_nodes() ==> !s.started@[x] && !s.completed@[x],
    {
        let n = d.num_nodes();
        let mut remaining: Vec<usize> = crate::cycle::make_zero_vec(n);
        let completed: Vec<bool> = crate::cycle::make_false_vec(n);
        let started: Vec<bool> = crate::cycle::make_false_vec(n);
        let mut j: usize = 0;
        while j < d.edges.len()
            invariant
                d.wf(),
                remaining.len() == n,
                n == d.n_nodes(),
                completed.len() == n,
                forall|x: int| 0 <= x < n ==> !completed@[x],
                j <= d.edges.len(),
                forall|x: int|
                    0 <= x < n ==> remaining[x] == crate::cycle::count_in_upto(
                        d.edges@,
                        completed@,
                        x,
                        j as int,
                    ),
                forall|x: int| 0 <= x < n ==> remaining[x] <= j,
            decreases d.edges.len() - j,
        {
            let t = d.edges[j].to;
            let cur = remaining[t];
            remaining[t] = cur + 1;
            j = j + 1;
        }
        proof {
            assert forall|x: int| 0 <= x < n implies remaining[x] == count_in_from(
                d.edges@,
                completed@,
                x,
                0,
            ) by {
                crate::cycle::lemma_count_split(d.edges@, completed@, x, d.edges@.len() as int);
            }
        }
        let mut ready: Vec<usize> = Vec::new();
        let mut w: usize = 0;
        while w < n
            invariant
                remaining.len() == n,
                selected.len() == n,
                w <= n,
                ready@.no_duplicates(),
                forall|i: int|
                    0 <= i < ready.len() ==> (#[trigger] ready[i]) < w && selected@[ready[i] as int]
                        && remaining[ready[i] as int] == 0,
                forall|x: int|
                    0 <= x < w && selected@[x] && remaining[x] == 0 ==> ready@.contains(x as usize),
            decreases n - w,
        {
            if selected[w] && remaining[w] == 0 {
                let ghost r0 = ready@;
                ready.push(w);
                proof {
                    assert(ready@.no_duplicates()) by {
                        assert forall|i1: int, i2: int|
                            0 <= i1 < ready@.len() && 0 <= i2 < ready@.len() && i1 != i2 implies
                            ready@[i1] != ready@[i2] by {
                            if i1 < ready@.len() - 1 && i2 < ready@.len() - 1 {
                                assert(r0[i1] != r0[i2]);
                            }
                        }
                    }
                    assert forall|x: int|
                        0 <= x < w + 1 && selected@[x] && remaining[x] == 0 implies ready@.contains(
                        x as usize,
                    ) by {
                        if x < w {
                            let i = choose|i: int| 0 <= i < r0.len() && r0[i] == x as usize;
                            assert(ready@[i] == x as usize);
                        } else {
                            assert(ready@[ready@.len() - 1] == w);
                        }
                    }
                }
            }
            w = w + 1;
        }
        Scheduler {
            selected: selected.clone(),
            remaining,
            ready,
            started,
            completed,
            running: None,
        }
    }

    /// Hand out the highest-priority ready node, if any.  The node handed
    /// out has every one of its in-edge predecessors completed: a command
    /// starts only after everything it depends on has finished.
    pub fn next_ready(&mut self, d: &BuildDag) -> (r: Option<usize>)
        requires
            old(self).wf(*d),
            old(self).running is None,
        ensures
            final(self).wf(*d),
            final(self).selected@ == old(self).selected@,
            final(self).completed@ == old(self).completed@,
            match r {
                Some(v) => {
                    &&& v < d.n_nodes()
                    &&& old(self).selected@[v as int]
                    &&& !old(self).started@[v as int]
                    &&& final(self).started@ == old(self).started@.update(v as int, true)
                    &&& final(self).running == Some(v)
                    &&& forall|j: int|
                        0 <= j < d.edges.len() && (#[trigger] d.edges[j]).to == v
                            ==> old(self).completed@[d.edges[j].from as int]
                    &&& forall|i: int|
                        0 <= i < old(self).ready.len() ==> (#[trigger] old(self).ready[i]) <= v
                }
                None => {
                    &&& *final(self) == *old(self)
                    &&& forall|x: int|
                        0 <= x < d.n_nodes() && old(self).selected@[x] && !old(self).started@[x]
                            ==> old(self).remaining@[x] != 0
                }
            },
    {
        if self.ready.len() == 0 {
            proof {
                assert forall|x: int|
                    0 <= x < d.n_nodes() && self.selected@[x] && !self.started@[x]
                        implies self.remaining@[x] != 0 by {
                    if self.remaining@[x] == 0 {
                        assert(self.ready@.contains(x as usize));
                    }
                }
            }
            return None;
        }
        let mut best: usize = 0;
        let mut i: usize = 1;
        while i < self.ready.len()
            invariant
                self.ready.len() > 0,
                best < self.ready.len(),
                i <= self.ready.len(),
                forall|i2: int|
                    0 <= i2 < i ==> (#[trigger] self.ready[i2]) <= self.ready[best as int],
            decreases self.ready.len() - i,
        {
            if self.ready[i] > self.ready[best] {
                best = i;
            }
            i = i + 1;
        }
        let v = self.ready[best];
        let ghost r0 = self.ready@;
        let last = self.ready.pop().unwrap();
        if best < self.ready.len() {
            self.ready[best] = last;
        }
        proof {
            assert(self.ready@.no_duplicates()) by {
                assert forall|i1: int, i2: int|
                    0 <= i1 < self.ready@.len() && 0 <= i2 < self.ready@.len() && i1 != i2 implies
                    self.ready@[i1] != self.ready@[i2] by {
                    if i1 == best as int && best < r0.len() - 1 {
                        assert(self.ready@[i1] == r0[r0.len() - 1] && self.ready@[i2] == r0[i2]);
                    } else if i2 == best as int && best < r0.len() - 1 {
                        assert(self.ready@[i2] == r0[r0.len() - 1] && self.ready@[i1] == r0[i1]);
                    } else {
                        assert(self.ready@[i1] == r0[i1] && self.ready@[i2] == r0[i2]);
                    }
                }
            }
            assert forall|i2: int| 0 <= i2 < self.ready@.len() implies self.ready@[i2] != v by {
                if i2 == best as int && best < r0.len() - 1 {
                    assert(self.ready@[i2] == r0[r0.len() - 1]);
                    assert(r0[best as int] == v);
                } else {
                    assert(self.ready@[i2] == r0[i2]);
                    assert(r0[best as int] == v);
                }
            }
            // Every other ready node is still in the list.
            assert forall|x: usize|
                r0.contains(x) && x != v implies self.ready@.contains(x) by {
                let i2 = choose|i2: int| 0 <= i2 < r0.len() && r0[i2] == x;
                if i2 == r0.len() - 1 {
                    assert(x == last);
                    assert(best < r0.len() - 1);
                    assert(self.ready@[best as int] == x);
                } else if i2 == best {
                    assert(false);
                } else {
                    assert(self.ready@[i2] == x);
                }
            }
            assert forall|i2: int|
                0 <= i2 < self.ready.len() implies (#[trigger] self.ready[i2]) < d.n_nodes()
                    && self.selected[self.ready[i2] as int] && !self.started[self.ready[i2] as int]
                    && self.remaining[self.ready[i2] as int] == 0 by {
                if i2 == best && best < r0.len() - 1 {
                    assert(self.ready@[i2] == r0[r0.len() - 1]);
                } else {
                    assert(self.ready@[i2] == r0[i2]);
                }
            }
        }
        self.started[v] = true;
        self.running = Some(v);
        proof {
            crate::cycle::lemma_count_zero(d.edges@, self.completed@, v as int, 0);
            assert forall|x: int|
                0 <= x < d.n_nodes() && self.selected[x] && !(#[trigger] self.started[x])
                    && self.remaining[x] == 0 implies self.ready@.contains(x as usize) by {
                assert(x != v as int);
                assert(r0.contains(x as usize));
            }
            assert forall|i2: int| 0 <= i2 < self.ready.len() implies !self.started[(
            #[trigger] self.ready[i2]) as int] by {
                assert(self.ready@[i2] != v);
            }
        }
        Some(v)
    }

    /// Record that the running node finished (successfully or not), and
    /// release any consumers whose dependencies are now all complete.
    pub fn complete(&mut self, d: &BuildDag, v: usize)
        requires
            old(self).wf(*d),
            old(self).running == Some(v),
        ensures
            final(self).wf(*d),
            final(self).selected@ == old(self).selected@,
            final(self).completed@ == old(self).completed@.update(v as int, true),
            final(self).started@ == old(self).started@,
            final(self).running is None,
    {
        let ghost completed_old = self.completed@;
        let ghost selected0 = self.selected@;
        let ghost started0 = self.started@;
        self.completed[v] = true;
        self.running = None;
        let mut j: usize = 0;
        while j < d.edges.len()
            invariant
                d.wf(),
                self.selected.len() == d.n_nodes(),
                self.remaining.len() == d.n_nodes(),
                self.started.len() == d.n_nodes(),
                self.completed.len() == d.n_nodes(),
                up_closed(*d, self.selected@),
                self.selected@ == selected0,
                self.started@ == started0,
                self.ready@.no_duplicates(),
                v < d.n_nodes(),
                self.completed@[v as int],
                !completed_old[v as int],
                completed_old.len() == d.n_nodes(),
                self.completed@ == completed_old.update(v as int, true),
                self.started@[v as int],
                j <= d.edges.len(),
                forall|x: int|
                    0 <= x < d.n_nodes() ==> self.remaining[x] == crate::cycle::count_in_upto(
                        d.edges@,
                        self.completed@,
                        x,
                        j as int,
                    ) + count_in_from(d.edges@, completed_old, x, j as int),
                forall|x: int|
                    0 <= x < d.n_nodes() && #[trigger] self.started@[x] ==> self.selected@[x],
                forall|x: int|
                    0 <= x < d.n_nodes() && #[trigger] self.completed@[x] ==> self.started@[x],
                forall|i: int|
                    0 <= i < self.ready.len() ==> (#[trigger] self.ready[i]) < d.n_nodes()
                        && self.selected[self.ready[i] as int] && !self.started[self.ready[i] as int]
                        && self.remaining[self.ready[i] as int] == 0,
                forall|x: int|
                    0 <= x < d.n_nodes() && self.selected[x] && !(#[trigger] self.started[x])
                        && self.remaining[x] == 0 ==> self.ready@.contains(x as usize),
                forall|x: int|
                    0 <= x < d.n_nodes() && #[trigger] self.started@[x] && !self.completed@[x]
                        ==> false || self.running is None,
                self.running is None,
            decreases d.edges.len() - j,
        {
            let e = d.edges[j];
            if e.from == v {
                let cur = self.remaining[e.to];
                proof {
                    assert(count_in_from(d.edges@, completed_old, e.to as int, j as int) >= 1);
                }
                self.remaining[e.to] = cur - 1;
                if cur - 1 == 0 && self.selected[e.to] && !self.started[e.to] {
                    proof {
                        assert forall|i: int|
                            0 <= i < self.ready@.len() implies self.ready@[i] != e.to by {
                            assert(self.remaining[self.ready@[i] as int] == 0);
                        }
                    }
                    let ghost r1 = self.ready@;
                    self.ready.push(e.to);
                    proof {
                        assert(self.ready@.no_duplicates()) by {
                            assert forall|i1: int, i2: int|
                                0 <= i1 < self.ready@.len() && 0 <= i2 < self.ready@.len() && i1
                                    != i2 implies self.ready@[i1] != self.ready@[i2] by {
                                if i1 < self.ready@.len() - 1 && i2 < self.ready@.len() - 1 {
                                    assert(r1[i1] != r1[i2]);
                                }
                            }
                        }
                        assert forall|x: int|
                            0 <= x < d.n_nodes() && self.selected[x] && !(
                            #[trigger] self.started[x]) && self.remaining[x] == 0
                                implies self.ready@.contains(x as usize) by {
                            if x == e.to as int {
                                assert(self.ready@[self.ready@.len() - 1] == e.to);
                            } else {
                                let i = choose|i: int| 0 <= i < r1.len() && r1[i] == x as usize;
                                assert(self.ready@[i] == x as usize);
                            }
                        }
                    }
                }
            }
            j = j + 1;
        }
        proof {
            assert forall|x: int| 0 <= x < d.n_nodes() implies self.remaining[x] == count_in_from(
                d.edges@,
                self.completed@,
                x,
                0,
            ) by {
                crate::cycle::lemma_count_split(d.edges@, self.completed@, x, d.edges@.len() as int);
            }
        }
    }

    /// Whether a selected node has not yet completed.
    pub fn unfinished_exists(&self, d: &BuildDag) -> (r: bool)
        requires
            self.wf(*d),
        ensures
            r == exists|x: int|
                0 <= x < d.n_nodes() && self.selected@[x] && !self.completed@[x],
    {
        let n = d.num_nodes();
        let mut x: usize = 0;
        while x < n
            invariant
                self.selected.len() == n,
                self.completed.len() == n,
                n == d.n_nodes(),
                x <= n,
                forall|x2: int| 0 <= x2 < x ==> !(self.selected@[x2] && !(#[trigger] self.completed@[x2])),
            decreases n - x,
        {
            if self.selected[x] && !self.completed[x] {
                return true;
            }
            x = x + 1;
        }
        false
    }
}

pub enum Verdict {
    Continue,
    Abort,
}

/// What the driver does after a command exits.  A build command that fails
/// aborts the run; a test's non-zero exit is only reported, and never
/// prevents any other selected node from executing.
pub fn command_verdict(is_test: bool, exit_ok: bool) -> (v: Verdict)
    ensures
        (v is Abort) <==> (!is_test && !exit_ok),
        (v is Continue) <==> (is_test || exit_ok),
        is_test ==> (v is Continue),
{
    if !is_test && !exit_ok {
        Verdict::Abort
    } else {
        Verdict::Continue
    }
}

/// The order in which a serial driver would dispatch the selected nodes:
/// repeatedly take the highest-priority ready node and mark it complete.
/// Every selected node appears in the order exactly once — the acyclic graph
/// and the upstream-closed selection leave nothing stuck — and each one's
/// in-edge predecessors appear before it.
pub fn execution_order(d: &BuildDag, selected: &Vec<bool>) -> (order: Vec<usize>)
    requires
        d.wf(),
        d.acyclic(),
        selected.len() == d.n_nodes(),
        up_closed(*d, selected@),
    ensures
        forall|i: int|
            0 <= i < order.len() ==> (#[trigger] order[i]) < d.n_nodes()
                && selected@[order[i] as int],
        forall|x: int|
            0 <= x < d.n_nodes() && selected@[x] ==> exists|i: int|
                0 <= i < order@.len() && order[i] == x as usize,
        forall|i1: int, i2: int| 0 <= i1 < i2 < order.len() ==> order[i1] != order[i2],
        forall|i: int, j: int|
            0 <= i < order.len() && 0 <= j < d.edges.len() && (#[trigger] d.edges[j]).to == (
            #[trigger] order[i]) ==> exists|i2: int|
                0 <= i2 < i && order[i2] == d.edges[j].from,
    {
        let mut sched = Scheduler::new(d, selected);
        let mut order: Vec<usize> = Vec::new();
        let mut done: bool = false;
        let ghost n = d.n_nodes();
        while !done
            invariant
                d.wf(),
                d.acyclic(),
                n == d.n_nodes(),
                sched.wf(*d),
                sched.running is None,
                sched.selected@ == selected@,
                selected.len() == n,
                up_closed(*d, selected@),
                forall|i: int|
                    0 <= i < order.len() ==> (#[trigger] order[i]) < n && selected@[order[i] as int]
                        && sched.started@[order[i] as int],
                forall|x: int|
                    0 <= x < n && #[trigger] sched.started@[x] ==> exists|i: int|
                        0 <= i < order.len() && order[i] == x as usize,
                forall|x: int| 0 <= x < n ==> (sched.completed@[x] == sched.started@[x]),
                forall|i1: int, i2: int| 0 <= i1 < i2 < order.len() ==> order[i1] != order[i2],
                forall|i: int, j: int|
                    0 <= i < order.len() && 0 <= j < d.edges.len() && (#[trigger] d.edges[j]).to == (
                    #[trigger] order[i]) ==> exists|i2: int|
                        0 <= i2 < i && order[i2] == d.edges[j].from,
                done ==> forall|x: int|
                    0 <= x < n && selected@[x] ==> #[trigger] sched.started@[x],
            decreases
                    n - count_true(sched.started@),
                    (if done {
                        0int
                    } else {
                        1int
                    }),
        {
            proof {
                lemma_count_true_le(sched.started@);
            }
            let ghost started0 = sched.started@;
            match sched.next_ready(d) {
                None => {
                    proof {
                        // Nothing is ready, so everything selected must have
                        // started: otherwise the stuck nodes would wait on
                        // each other in a cycle.
                        assert forall|x: int|
                            0 <= x < n && selected@[x] implies #[trigger] sched.started@[x] by {
                            if !sched.started@[x] {
                                let popped = Seq::new(
                                    n as nat,
                                    |y: int| sched.started@[y] || !selected@[y],
                                );
                                assert(!popped[x]);
                                assert forall|w: int| 0 <= w < n && !popped[w] implies exists|
                                    j: int,
                                |
                                    0 <= j < d.edges@.len() && (#[trigger] d.edges@[j]).to as int
                                        == w && !popped[d.edges@[j].from as int] by {
                                    assert(selected@[w] && !sched.started@[w]);
                                    assert(sched.remaining@[w] != 0);
                                    assert(sched.remaining[w] == count_in_from(
                                        d.edges@,
                                        sched.completed@,
                                        w,
                                        0,
                                    ));
                                    crate::cycle::lemma_count_pos(d.edges@, sched.completed@, w, 0);
                                    let j = choose|j: int|
                                        0 <= j < d.edges@.len() && (#[trigger] d.edges@[j]).to
                                            as int == w && !sched.completed@[d.edges@[j].from as int];
                                    assert(d.edges[j] == d.edges@[j]);
                                    // The predecessor is selected: the
                                    // selection is closed under upstream
                                    // dependency.
                                    assert(selected@[d.edges@[j].from as int]);
                                    assert(!sched.started@[d.edges@[j].from as int]);
                                    assert(!popped[d.edges@[j].from as int]);
                                }
                                assert forall|j: int| 0 <= j < d.edges@.len() implies 0 <= (
                                #[trigger] d.edges@[j]).from < n && 0 <= d.edges@[j].to < n by {
                                    assert(d.edges[j] == d.edges@[j]);
                                }
                                crate::cycle::lemma_stuck_cyclic(d.edges@, popped, n, x);
                                assert(false);
                            }
                        }
                    }
                    done = true;
                }
                Some(v) => {
                    let ghost order0 = order@;
                    order.push(v);
                    proof {
                        assert(order@[order@.len() - 1] == v);
                        assert forall|i: int, j: int|
                            0 <= i < order@.len() && 0 <= j < d.edges.len() && (
                            #[trigger] d.edges[j]).to == (#[trigger] order@[i]) implies exists|
                            i2: int,
                        |
                            0 <= i2 < i && order@[i2] == d.edges[j].from by {
                            if i < order@.len() - 1 {
                                assert(order@[i] == order0[i]);
                                let i2 = choose|i2: int|
                                    0 <= i2 < i && order0[i2] == d.edges[j].from;
                                assert(order@[i2] == d.edges[j].from);
                            } else {
                                // Every in-edge predecessor completed, hence
                                // started, hence already listed.
                                assert(started0[d.edges[j].from as int]);
                                let i2 = choose|i2: int|
                                    0 <= i2 < order0.len() && order0[i2] == d.edges[j].from;
                                assert(order@[i2] == d.edges[j].from);
                            }
                        }
                        assert forall|x: int|
                            0 <= x < n && #[trigger] sched.started@[x] implies exists|i: int|
                            0 <= i < order@.len() && order@[i] == x as usize by {
                            if x == v as int {
                                assert(order@[order@.len() - 1] == x as usize);
                            } else {
                                assert(started0[x]);
                                let i = choose|i: int|
                                    0 <= i < order0.len() && order0[i] == x as usize;
                                assert(order@[i] == x as usize);
                            }
                        }
                        assert forall|i1: int, i2: int|
                            0 <= i1 < i2 < order@.len() implies order@[i1] != order@[i2] by {
                            if i2 == order@.len() - 1 {
                                assert(order@[i1] == order0[i1]);
                                assert(started0[order0[i1] as int]);
                            }
                        }
                    }
                    proof {
                        lemma_count_true_update(started0, v as int);
                        lemma_count_true_le(sched.started@);
                    }
                    sched.complete(d, v);
                }
            }
        }
        proof {
            assert forall|x: int|
                0 <= x < n && selected@[x] implies exists|i: int|
                0 <= i < order@.len() && order@[i] == x as usize by {
                assert(sched.started@[x]);
            }
        }
        order
    }

} // verus!
