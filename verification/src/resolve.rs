//! Target resolution: from a target to the set of graph nodes that must
//! execute.  Every variant leaves the selected set closed under upstream
//! dependency, so the scheduler can count a node's in-edges without
//! deadlocking.

use crate::dag::BuildDag;
use crate::dag_walker::{reach, up_closed, Direction};
use crate::error::BuildError;
use crate::target::Target;
use vstd::prelude::*;
use vstd::string::*;

verus! {

/// Intermediate state of [`BuildDag::add_ancestors_of_set`]: the set `to`
/// holds its old members plus the ancestors of the first `w` seeds.
pub open spec fn ancestors_added(
    d: BuildDag,
    old_set: Seq<bool>,
    seed: Seq<bool>,
    to: Seq<bool>,
    w: int,
) -> bool {
    forall|x: int|
        0 <= x < to.len() ==> (to[x] <==> old_set[x] || exists|w2: int|
            0 <= w2 < w && #[trigger] seed[w2] && reach(d.edges@, x, w2))
}

/// Intermediate state of the downstream scan: `down` holds what is reachable
/// from the first `i` build consumers of the list.
pub open spec fn downstream_added(d: BuildDag, lst: Seq<usize>, down: Seq<bool>, i: int) -> bool {
    forall|x: int|
        0 <= x < down.len() ==> (down[x] <==> exists|i2: int|
            0 <= i2 < i && (#[trigger] lst[i2]) < d.n_builds && reach(
                d.edges@,
                lst[i2] as int,
                x,
            ))
}

/// Intermediate state of the downstream scan over every consumer in the
/// list, build or test.
pub open spec fn downstream_added_all(d: BuildDag, lst: Seq<usize>, down: Seq<bool>, i: int) -> bool {
    forall|x: int|
        0 <= x < down.len() ==> (down[x] <==> exists|i2: int|
            0 <= i2 < i && #[trigger] lst[i2] == lst[i2] && reach(d.edges@, lst[i2] as int, x))
}

/// The seed set marks exactly the test nodes of the downstream set.
pub open spec fn seed_marks_tests(d: BuildDag, down: Seq<bool>, seed: Seq<bool>, v: int) -> bool {
    forall|x: int| 0 <= x < v ==> ((#[trigger] seed[x]) <==> d.is_test(x) && down[x])
}

impl BuildDag {
    /// The map records `g` as the producer of `f`.
    pub open spec fn producer_entry(self, f: Seq<char>, g: int) -> bool {
        exists|e: int|
            0 <= e < self.output_file_generators.len()
                && (#[trigger] self.output_file_generators[e]).0@ == f
                && self.output_file_generators[e].1 as int == g
    }

    /// The map records node `x` as a consumer of `f`.
    pub open spec fn consumer_entry(self, f: Seq<char>, x: int) -> bool {
        exists|e: int, i: int|
            #![trigger self.input_file_consumers[e].1[i]]
            0 <= e < self.input_file_consumers.len() && self.input_file_consumers[e].0@ == f && 0
                <= i < self.input_file_consumers[e].1.len() && self.input_file_consumers[e].1[i]
                as int == x
    }

    /// `t` is the first test with this name.
    pub open spec fn first_test_named(self, name: Seq<char>, t: int) -> bool {
        0 <= t < self.test_names.len() && self.test_names[t]@ == name && forall|t2: int|
            0 <= t2 < t ==> self.test_names[t2]@ != name
    }

    /// The node a target selects, together with everything required for it.
    pub open spec fn selects(self, target: Target, x: int) -> bool {
        match target {
            Target::Output(p) => exists|g: int|
                #[trigger] self.producer_entry(p@, g) && reach(self.edges@, x, g),
            Target::OutputsThatDependOnFile(p) => exists|c: int, w: int|
                #[trigger] self.consumer_entry(p@, c) && self.is_build(c) && self.is_build(w)
                    && #[trigger] reach(self.edges@, c, w) && reach(self.edges@, x, w),
            Target::AllOutputs => self.is_build(x),
            Target::Test(name) => exists|t: int|
                #[trigger] self.first_test_named(name@, t) && reach(
                    self.edges@,
                    x,
                    self.n_builds + t,
                ),
            Target::TestsThatDependOnFile(p) => {
                if exists|g: int| self.producer_entry(p@, g) {
                    exists|g: int, t: int|
                        #[trigger] self.producer_entry(p@, g) && self.is_test(t) && #[trigger] reach(
                            self.edges@,
                            g,
                            t,
                        ) && reach(self.edges@, x, t)
                } else {
                    exists|c: int, t: int|
                        #[trigger] self.consumer_entry(p@, c) && self.is_test(t) && #[trigger] reach(
                            self.edges@,
                            c,
                            t,
                        ) && reach(self.edges@, x, t)
                }
            },
            Target::AllTests => exists|t: int|
                #[trigger] self.is_test(t) && reach(self.edges@, x, t),
        }
    }

    /// The target names something the graph knows.
    pub open spec fn target_resolvable(self, target: Target) -> bool {
        match target {
            Target::Output(p) => exists|g: int| self.producer_entry(p@, g),
            Target::OutputsThatDependOnFile(p) => exists|e: int|
                0 <= e < self.input_file_consumers.len()
                    && (#[trigger] self.input_file_consumers[e]).0@ == p@,
            Target::AllOutputs => true,
            Target::Test(name) => exists|t: int| self.first_test_named(name@, t),
            Target::TestsThatDependOnFile(p) => (exists|g: int| self.producer_entry(p@, g))
                || (exists|e: int|
                0 <= e < self.input_file_consumers.len()
                    && (#[trigger] self.input_file_consumers[e]).0@ == p@),
            Target::AllTests => true,
        }
    }

    /// The error a target yields when it resolves to nothing.
    pub open spec fn target_error(self, target: Target, e: BuildError) -> bool {
        match target {
            Target::Output(p) => e matches BuildError::NoProducer(f) && f@ == p@,
            Target::OutputsThatDependOnFile(p) => e matches BuildError::NoConsumer(f) && f@ == p@,
            Target::Test(name) => e matches BuildError::UnknownTest(f) && f@ == name@,
            Target::TestsThatDependOnFile(p) => e matches BuildError::NoProducer(f) && f@ == p@,
            _ => false,
        }
    }

    /// Look up the producer of an output file.
    fn find_producer(&self, path: &String) -> (r: Option<usize>)
        requires
            self.wf(),
        ensures
            match r {
                Some(g) => self.producer_entry(path@, g as int) && g < self.n_builds,
                None => forall|g: int| !self.producer_entry(path@, g),
            },
    {
        match crate::dag::assoc_index(&self.output_file_generators, path) {
            Some(e) => Some(self.output_file_generators[e].1),
            None => None,
        }
    }

    /// The first test with the given name, if any.
    fn find_test(&self, name: &String) -> (r: Option<usize>)
        ensures
            match r {
                Some(t) => self.first_test_named(name@, t as int),
                None => forall|t: int| !self.first_test_named(name@, t),
            },
    {
        let mut t: usize = 0;
        while t < self.test_names.len()
            invariant
                t <= self.test_names.len(),
                forall|t2: int| 0 <= t2 < t ==> (#[trigger] self.test_names[t2])@ != name@,
            decreases self.test_names.len() - t,
        {
            if self.test_names[t] == *name {
                return Some(t);
            }
            t = t + 1;
        }
        proof {
            assert forall|t2: int| !self.first_test_named(name@, t2) by {}
        }
        None
    }

    /// Add to `to` the ancestors (including themselves) of every node in
    /// `seed`.
    fn add_ancestors_of_set(&self, seed: &Vec<bool>, to: &mut Vec<bool>)
        requires
            self.wf(),
            seed.len() == self.n_nodes(),
            old(to).len() == self.n_nodes(),
            up_closed(*self, old(to)@),
        ensures
            final(to).len() == old(to).len(),
            up_closed(*self, final(to)@),
            ancestors_added(*self, old(to)@, seed@, final(to)@, seed@.len() as int),
    {
        let ghost n = self.n_nodes();
        let ghost old_set = to@;
        let mut w: usize = 0;
        while w < seed.len()
            invariant
                self.wf(),
                n == self.n_nodes(),
                seed.len() == n,
                to.len() == n,
                w <= n,
                up_closed(*self, to@),
                ancestors_added(*self, old_set, seed@, to@, w as int),
            decreases seed.len() - w,
        {
            let ghost before = to@;
            if seed[w] {
                self.walk_recursively(w, Direction::Incoming, to);
            }
            proof {
                assert(ancestors_added(*self, old_set, seed@, to@, w + 1)) by {
                assert forall|x: int|
                    0 <= x < n implies (to@[x] <==> old_set[x] || exists|w2: int|
                    0 <= w2 < w + 1 && #[trigger] seed@[w2] && reach(self.edges@, x, w2)) by {
                    if to@[x] {
                        if before[x] {
                            if !old_set[x] {
                                let w2 = choose|w2: int|
                                    0 <= w2 < w && #[trigger] seed@[w2] && reach(
                                        self.edges@,
                                        x,
                                        w2,
                                    );
                                assert(seed@[w2] && reach(self.edges@, x, w2));
                            }
                        } else {
                            assert(seed@[w as int] && reach(self.edges@, x, w as int));
                        }
                    } else {
                        if old_set[x] {
                            assert(before[x]);
                            assert(false);
                        }
                        if exists|w2: int|
                            0 <= w2 < w + 1 && #[trigger] seed@[w2] && reach(self.edges@, x, w2) {
                            let w2 = choose|w2: int|
                                0 <= w2 < w + 1 && #[trigger] seed@[w2] && reach(
                                    self.edges@,
                                    x,
                                    w2,
                                );
                            if w2 < w {
                                assert(before[x]);
                            }
                            assert(to@[x]);
                            assert(false);
                        }
                    }
                }
                }
            }
            w = w + 1;
        }
    }

    /// Add the target's commands to the set of commands that needs to run.
    /// On success the set grows by exactly what the target selects; it stays
    /// closed under upstream dependency either way.  A target that names an
    /// unknown output, file or test fails and leaves the set unchanged.
    pub fn add_target_commands(&self, target: &Target, to: &mut Vec<bool>) -> (r: Result<
        (),
        BuildError,
    >)
        requires
            self.wf(),
            old(to).len() == self.n_nodes(),
            up_closed(*self, old(to)@),
        ensures
            final(to).len() == old(to).len(),
            up_closed(*self, final(to)@),
            r.is_ok() <==> self.target_resolvable(*target),
            r.is_ok() ==> forall|x: int|
                0 <= x < final(to)@.len() ==> (final(to)@[x] <==> old(to)@[x] || self.selects(
                    *target,
                    x,
                )),
            r.is_err() ==> final(to)@ == old(to)@,
            match r {
                Ok(_) => true,
                Err(e) => self.target_error(*target, e),
            },
    {
        let ghost n = self.n_nodes();
        let ghost old_set = to@;
        match target {
            Target::Output(path) => {
                let g = match self.find_producer(path) {
                    Some(g) => g,
                    None => {
                        return Err(BuildError::NoProducer(path.clone()));
                    }
                };
                self.walk_recursively(g, Direction::Incoming, to);
                proof {
                    assert forall|x: int|
                        0 <= x < to@.len() implies (to@[x] <==> old_set[x] || self.selects(
                        *target,
                        x,
                    )) by {
                        if reach(self.edges@, x, g as int) {
                            assert(self.producer_entry(path@, g as int));
                        }
                        if self.selects(*target, x) && !old_set[x] {
                            let g2 = choose|g2: int|
                                #[trigger] self.producer_entry(path@, g2) && reach(
                                    self.edges@,
                                    x,
                                    g2,
                                );
                            // Producer-map keys are unique, so g2 is g.
                            let e1 = choose|e: int|
                                0 <= e < self.output_file_generators.len()
                                    && (#[trigger] self.output_file_generators[e]).0@ == path@
                                    && self.output_file_generators[e].1 as int == g2;
                            let e2 = choose|e: int|
                                0 <= e < self.output_file_generators.len()
                                    && (#[trigger] self.output_file_generators[e]).0@ == path@
                                    && self.output_file_generators[e].1 as int == g as int;
                            assert(g2 == g as int || self.output_file_generators[e1].0@
                                != self.output_file_generators[e2].0@ || e1 == e2);
                        }
                    }
                }
                Ok(())
            }
            Target::AllOutputs => {
                let nn = self.num_nodes();
                let mut seed: Vec<bool> = Vec::new();
                let mut v: usize = 0;
                while v < nn
                    invariant
                        nn == n,
                        n == self.n_nodes(),
                        v <= nn,
                        seed.len() == v,
                        forall|x: int| 0 <= x < v ==> (seed@[x] <==> self.is_build(x)),
                    decreases nn - v,
                {
                    seed.push(v < self.n_builds);
                    v = v + 1;
                }
                self.add_ancestors_of_set(&seed, to);
                proof {
                    assert forall|x: int|
                        0 <= x < to@.len() implies (to@[x] <==> old_set[x] || self.selects(
                        *target,
                        x,
                    )) by {
                        if !old_set[x] {
                            if to@[x] {
                                let w = choose|w: int|
                                    0 <= w < seed@.len() && #[trigger] seed@[w] && reach(
                                        self.edges@,
                                        x,
                                        w,
                                    );
                                // An ancestor of a build node is itself a
                                // build node: every edge leaves a build node.
                                let p = choose|p: Seq<int>|
                                    p.len() >= 1 && p[0] == x && p[p.len() - 1] == w
                                        && crate::cycle::chain_ok(
                                        crate::cycle::edges_rel(self.edges@),
                                        p,
                                    );
                                if p.len() == 1 {
                                    assert(x == w);
                                } else {
                                    assert(crate::cycle::edges_rel(self.edges@)(p[0], p[1]));
                                    let j = choose|j: int|
                                        0 <= j < self.edges@.len()
                                            && (#[trigger] self.edges@[j]).from as int == p[0]
                                            && self.edges@[j].to as int == p[1];
                                    assert(self.edges[j] == self.edges@[j]);
                                    assert(self.edges[j].from < self.n_builds);
                                }
                                assert(self.is_build(x));
                            }
                            if self.selects(*target, x) {
                                crate::dag_walker::lemma_reach_self(self.edges@, x);
                                assert(seed@[x] && reach(self.edges@, x, x));
                            }
                        }
                    }
                }
                Ok(())
            }
            Target::Test(name) => {
                let t = match self.find_test(name) {
                    Some(t) => t,
                    None => {
                        return Err(BuildError::UnknownTest(name.clone()));
                    }
                };
                let node = self.n_builds + t;
                self.walk_recursively(node, Direction::Incoming, to);
                proof {
                    assert forall|x: int|
                        0 <= x < to@.len() implies (to@[x] <==> old_set[x] || self.selects(
                        *target,
                        x,
                    )) by {
                        if reach(self.edges@, x, node as int) {
                            assert(self.first_test_named(name@, t as int));
                        }
                        if self.selects(*target, x) && !old_set[x] {
                            let t2 = choose|t2: int|
                                #[trigger] self.first_test_named(name@, t2) && reach(
                                    self.edges@,
                                    x,
                                    self.n_builds + t2,
                                );
                            assert(t2 == t as int) by {
                                if t2 < t as int {
                                    assert(self.test_names[t2]@ != name@);
                                } else if t2 > t as int {
                                    assert(self.test_names[t as int]@ != name@);
                                }
                            }
                        }
                    }
                }
                Ok(())
            }
            Target::AllTests => {
                let mut seed: Vec<bool> = Vec::new();
                let nn = self.num_nodes();
                let mut v: usize = 0;
                while v < nn
                    invariant
                        nn == n,
                        n == self.n_nodes(),
                        v <= nn,
                        seed.len() == v,
                        forall|x: int| 0 <= x < v ==> (seed@[x] <==> self.is_test(x)),
                    decreases nn - v,
                {
                    seed.push(self.n_builds <= v);
                    v = v + 1;
                }
                self.add_ancestors_of_set(&seed, to);
                proof {
                    assert forall|x: int|
                        0 <= x < to@.len() implies (to@[x] <==> old_set[x] || self.selects(
                        *target,
                        x,
                    )) by {
                        if !old_set[x] {
                            if to@[x] {
                                let w = choose|w: int|
                                    0 <= w < seed@.len() && #[trigger] seed@[w] && reach(
                                        self.edges@,
                                        x,
                                        w,
                                    );
                                assert(self.is_test(w) && reach(self.edges@, x, w));
                            }
                            if self.selects(*target, x) {
                                let t = choose|t: int|
                                    #[trigger] self.is_test(t) && reach(self.edges@, x, t);
                                assert(seed@[t] && reach(self.edges@, x, t));
                            }
                        }
                    }
                }
                Ok(())
            }
            Target::TestsThatDependOnFile(path) => {
                let g = match self.find_producer(path) {
                    Some(g) => g,
                    None => {
                        // The file is not produced by any command: fall back
                        // to the commands that consume it directly.
                        let ci = match crate::dag::assoc_index(&self.input_file_consumers, path) {
                            Some(ci) => ci,
                            None => {
                                return Err(BuildError::NoProducer(path.clone()));
                            }
                        };
                        let nn = self.num_nodes();
                        let mut down: Vec<bool> = crate::cycle::make_false_vec(nn);
                        let mut i: usize = 0;
                        while i < self.input_file_consumers[ci].1.len()
                            invariant
                                self.wf(),
                                n == self.n_nodes(),
                                nn == n,
                                ci < self.input_file_consumers.len(),
                                self.input_file_consumers[ci as int].0@ == path@,
                                i <= self.input_file_consumers[ci as int].1.len(),
                                down.len() == n,
                                downstream_added_all(
                                    *self,
                                    self.input_file_consumers[ci as int].1@,
                                    down@,
                                    i as int,
                                ),
                                crate::dag_walker::closed_dir(*self, down@, Direction::Outgoing),
                            decreases self.input_file_consumers[ci as int].1.len() - i,
                        {
                            let c = self.input_file_consumers[ci].1[i];
                            let ghost before = down@;
                            self.walk_recursively(c, Direction::Outgoing, &mut down);
                            proof {
                                let ghost lst0 = self.input_file_consumers[ci as int].1@;
                                assert(downstream_added_all(*self, lst0, down@, i + 1)) by {
                                    assert forall|x: int|
                                        0 <= x < n implies (down@[x] <==> exists|i2: int|
                                        0 <= i2 < i + 1 && #[trigger] lst0[i2] == lst0[i2] && reach(
                                            self.edges@,
                                            lst0[i2] as int,
                                            x,
                                        )) by {
                                        if down@[x] {
                                            if before[x] {
                                                let i2 = choose|i2: int|
                                                    0 <= i2 < i && #[trigger] lst0[i2] == lst0[i2]
                                                        && reach(self.edges@, lst0[i2] as int, x);
                                                assert(0 <= i2 < i + 1);
                                            } else {
                                                assert(lst0[i as int] == c);
                                                assert(reach(self.edges@, c as int, x));
                                            }
                                        } else {
                                            if exists|i2: int|
                                                0 <= i2 < i + 1 && #[trigger] lst0[i2] == lst0[i2]
                                                    && reach(self.edges@, lst0[i2] as int, x) {
                                                let i2 = choose|i2: int|
                                                    0 <= i2 < i + 1 && #[trigger] lst0[i2]
                                                        == lst0[i2] && reach(
                                                        self.edges@,
                                                        lst0[i2] as int,
                                                        x,
                                                    );
                                                if i2 < i {
                                                    assert(before[x]);
                                                    assert(down@[x]);
                                                } else {
                                                    assert(lst0[i2] == c);
                                                    assert(down@[x]);
                                                }
                                                assert(false);
                                            }
                                        }
                                    }
                                }
                            }
                            i = i + 1;
                        }
                        let mut seed: Vec<bool> = Vec::new();
                        let mut v: usize = 0;
                        while v < nn
                            invariant
                                nn == n,
                                n == self.n_nodes(),
                                v <= nn,
                                down.len() == n,
                                seed.len() == v,
                                seed_marks_tests(*self, down@, seed@, v as int),
                            decreases nn - v,
                        {
                            seed.push(self.n_builds <= v && down[v]);
                            proof {
                                assert(seed_marks_tests(*self, down@, seed@, v + 1)) by {
                                    assert(seed@[v as int] == (self.n_builds <= v && down@[v as int]));
                                }
                            }
                            v = v + 1;
                        }
                        self.add_ancestors_of_set(&seed, to);
                        proof {
                            let lst = self.input_file_consumers[ci as int].1;
                            assert forall|x: int|
                                0 <= x < to@.len() implies (to@[x] <==> old_set[x] || self.selects(
                                *target,
                                x,
                            )) by {
                                if !old_set[x] {
                                    if to@[x] {
                                        let w = choose|w: int|
                                            0 <= w < seed@.len() && #[trigger] seed@[w] && reach(
                                                self.edges@,
                                                x,
                                                w,
                                            );
                                        assert(downstream_added_all(
                                            *self,
                                            self.input_file_consumers[ci as int].1@,
                                            down@,
                                            i as int,
                                        ));
                                        assert(seed@[w] && w < seed@.len());
                                        assert(0 <= w < nn);
                                        assert(seed_marks_tests(*self, down@, seed@, nn as int));
                                        assert(self.is_test(w) && down@[w]);
                                        let lseq = self.input_file_consumers[ci as int].1@;
                                        let i2 = choose|i2: int|
                                            0 <= i2 < i && #[trigger] lseq[i2] == lseq[i2]
                                                && reach(self.edges@, lseq[i2] as int, w);
                                        assert((ci as int) < self.input_file_consumers.len());
                                        assert(self.input_file_consumers[ci as int].0@ == path@);
                                        assert(0 <= i2 < self.input_file_consumers[ci as int].1.len());
                                        assert(self.input_file_consumers[ci as int].1[i2]
                                            == lseq[i2]);
                                        assert(self.consumer_entry(path@, lseq[i2] as int));
                                        assert(self.is_test(w));
                                        assert(reach(self.edges@, lseq[i2] as int, w) && reach(
                                            self.edges@,
                                            x,
                                            w,
                                        ));
                                    }
                                    if self.selects(*target, x) {
                                        let (c2, t) = choose|c2: int, t: int|
                                            #[trigger] self.consumer_entry(path@, c2)
                                                && self.is_test(t) && #[trigger] reach(
                                                self.edges@,
                                                c2,
                                                t,
                                            ) && reach(self.edges@, x, t);
                                        let (e2, i3) = choose|e2: int, i3: int|
                                            #![trigger self.input_file_consumers[e2].1[i3]]
                                            0 <= e2 < self.input_file_consumers.len()
                                                && self.input_file_consumers[e2].0@ == path@ && 0
                                                <= i3 < self.input_file_consumers[e2].1.len()
                                                && self.input_file_consumers[e2].1[i3] as int == c2;
                                        assert(e2 == ci as int || self.input_file_consumers[e2].0@
                                            != self.input_file_consumers[ci as int].0@);
                                        assert(lst@[i3] as int == c2);
                                        assert(down@[t]);
                                        assert(seed@[t]);
                                    }
                                }
                            }
                        }
                        return Ok(());
                    }
                };
                let nn = self.num_nodes();
                let mut down: Vec<bool> = crate::cycle::make_false_vec(nn);
                self.walk_recursively(g, Direction::Outgoing, &mut down);
                let mut seed: Vec<bool> = Vec::new();
                let mut v: usize = 0;
                while v < nn
                    invariant
                        nn == n,
                        n == self.n_nodes(),
                        v <= nn,
                        down.len() == n,
                        seed.len() == v,
                        forall|x: int| 0 <= x < n ==> (down@[x] <==> reach(self.edges@, g as int, x)),
                        forall|x: int|
                            0 <= x < v ==> (seed@[x] <==> self.is_test(x) && down@[x]),
                    decreases nn - v,
                {
                    seed.push(self.n_builds <= v && down[v]);
                    v = v + 1;
                }
                self.add_ancestors_of_set(&seed, to);
                proof {
                    assert forall|x: int|
                        0 <= x < to@.len() implies (to@[x] <==> old_set[x] || self.selects(
                        *target,
                        x,
                    )) by {
                        if !old_set[x] {
                            if to@[x] {
                                let w = choose|w: int|
                                    0 <= w < seed@.len() && #[trigger] seed@[w] && reach(
                                        self.edges@,
                                        x,
                                        w,
                                    );
                                assert(self.producer_entry(path@, g as int));
                                assert(seed@[w]);
                                assert(self.is_test(w) && down@[w]);
                                assert(reach(self.edges@, g as int, w));
                                assert(reach(self.edges@, x, w));
                            }
                            if self.selects(*target, x) {
                                let (g2, t) = choose|g2: int, t: int|
                                    #[trigger] self.producer_entry(path@, g2) && self.is_test(t)
                                        && #[trigger] reach(self.edges@, g2, t) && reach(
                                        self.edges@,
                                        x,
                                        t,
                                    );
                                let e1 = choose|e: int|
                                    0 <= e < self.output_file_generators.len()
                                        && (#[trigger] self.output_file_generators[e]).0@ == path@
                                        && self.output_file_generators[e].1 as int == g2;
                                let e2 = choose|e: int|
                                    0 <= e < self.output_file_generators.len()
                                        && (#[trigger] self.output_file_generators[e]).0@ == path@
                                        && self.output_file_generators[e].1 as int == g as int;
                                assert(g2 == g as int || self.output_file_generators[e1].0@
                                    != self.output_file_generators[e2].0@ || e1 == e2);
                                assert(down@[t]);
                                assert(seed@[t]);
                            }
                        }
                    }
                }
                Ok(())
            }
            Target::OutputsThatDependOnFile(path) => {
                let ci = match crate::dag::assoc_index(&self.input_file_consumers, path) {
                    Some(ci) => ci,
                    None => {
                        proof {
                            assert forall|x: int| !self.consumer_entry(path@, x) by {
                                if self.consumer_entry(path@, x) {
                                    let (e, i) = choose|e: int, i: int|
                                        #![trigger self.input_file_consumers[e].1[i]]
                                        0 <= e < self.input_file_consumers.len()
                                            && self.input_file_consumers[e].0@ == path@ && 0 <= i
                                            < self.input_file_consumers[e].1.len()
                                            && self.input_file_consumers[e].1[i] as int == x;
                                    assert(false);
                                }
                            }
                        }
                        return Err(BuildError::NoConsumer(path.clone()));
                    }
                };
                let nn = self.num_nodes();
                let mut down: Vec<bool> = crate::cycle::make_false_vec(nn);
                let mut i: usize = 0;
                while i < self.input_file_consumers[ci].1.len()
                    invariant
                        self.wf(),
                        n == self.n_nodes(),
                        nn == n,
                        ci < self.input_file_consumers.len(),
                        self.input_file_consumers[ci as int].0@ == path@,
                        i <= self.input_file_consumers[ci as int].1.len(),
                        down.len() == n,
                        downstream_added(
                            *self,
                            self.input_file_consumers[ci as int].1@,
                            down@,
                            i as int,
                        ),
                        crate::dag_walker::closed_dir(*self, down@, Direction::Outgoing),
                    decreases self.input_file_consumers[ci as int].1.len() - i,
                {
                    let c = self.input_file_consumers[ci].1[i];
                    let ghost before = down@;
                    if c < self.n_builds {
                        self.walk_recursively(c, Direction::Outgoing, &mut down);
                    }
                    proof {
                        let ghost lst0 = self.input_file_consumers[ci as int].1@;
                        assert(downstream_added(*self, lst0, down@, i + 1)) by {
                        assert forall|x: int|
                            0 <= x < n implies (down@[x] <==> exists|i2: int|
                            0 <= i2 < i + 1 && (#[trigger] lst0[i2])
                                < self.n_builds && reach(
                                self.edges@,
                                lst0[i2] as int,
                                x,
                            )) by {
                            if down@[x] {
                                if before[x] {
                                    let i2 = choose|i2: int|
                                        0 <= i2 < i && (#[trigger] lst0[i2]) < self.n_builds
                                            && reach(self.edges@, lst0[i2] as int, x);
                                    assert(0 <= i2 < i + 1 && lst0[i2] < self.n_builds);
                                } else {
                                    assert(lst0[i as int] == c);
                                    assert(reach(self.edges@, c as int, x));
                                }
                            } else {
                                if exists|i2: int|
                                    0 <= i2 < i + 1 && (#[trigger] lst0[i2]) < self.n_builds
                                        && reach(self.edges@, lst0[i2] as int, x) {
                                    let i2 = choose|i2: int|
                                        0 <= i2 < i + 1 && (#[trigger] lst0[i2]) < self.n_builds
                                            && reach(self.edges@, lst0[i2] as int, x);
                                    if i2 < i {
                                        assert(before[x]);
                                        assert(down@[x]);
                                    } else {
                                        assert(lst0[i2] == c);
                                        assert(down@[x]);
                                    }
                                    assert(false);
                                }
                            }
                        }
                        }
                    }
                    i = i + 1;
                }
                let mut seed: Vec<bool> = Vec::new();
                let mut v: usize = 0;
                while v < nn
                    invariant
                        nn == n,
                        n == self.n_nodes(),
                        v <= nn,
                        down.len() == n,
                        seed.len() == v,
                        forall|x: int| 0 <= x < v ==> (seed@[x] <==> x < self.n_builds && down@[x]),
                    decreases nn - v,
                {
                    seed.push(v < self.n_builds && down[v]);
                    v = v + 1;
                }
                self.add_ancestors_of_set(&seed, to);
                proof {
                    let lst = self.input_file_consumers[ci as int].1;
                    assert forall|x: int|
                        0 <= x < to@.len() implies (to@[x] <==> old_set[x] || self.selects(
                        *target,
                        x,
                    )) by {
                        if !old_set[x] {
                            if to@[x] {
                                let w = choose|w: int|
                                    0 <= w < seed@.len() && #[trigger] seed@[w] && reach(
                                        self.edges@,
                                        x,
                                        w,
                                    );
                                let i2 = choose|i2: int|
                                    0 <= i2 < lst.len() && (#[trigger] lst[i2]) < self.n_builds
                                        && reach(self.edges@, lst[i2] as int, w);
                                assert(self.consumer_entry(path@, lst[i2] as int));
                                assert(self.is_build(lst[i2] as int) && self.is_build(w) && reach(
                                    self.edges@,
                                    lst[i2] as int,
                                    w,
                                ) && reach(self.edges@, x, w));
                            }
                            if self.selects(*target, x) {
                                let (c, w) = choose|c: int, w: int|
                                    #[trigger] self.consumer_entry(path@, c) && self.is_build(c)
                                        && self.is_build(w) && #[trigger] reach(self.edges@, c, w)
                                        && reach(self.edges@, x, w);
                                let (e2, i3) = choose|e2: int, i3: int|
                                    #![trigger self.input_file_consumers[e2].1[i3]]
                                    0 <= e2 < self.input_file_consumers.len()
                                        && self.input_file_consumers[e2].0@ == path@ && 0 <= i3
                                        < self.input_file_consumers[e2].1.len()
                                        && self.input_file_consumers[e2].1[i3] as int == c;
                                // Consumer-map keys are unique, so the entry is `ci`.
                                assert(e2 == ci as int || self.input_file_consumers[e2].0@
                                    != self.input_file_consumers[ci as int].0@);
                                assert(lst[i3] < self.n_builds && reach(
                                    self.edges@,
                                    lst[i3] as int,
                                    w,
                                ));
                                assert(down@[w]);
                                assert(seed@[w]);
                            }
                        }
                    }
                }
                Ok(())
            }
        }
    }
}

} // verus!
