//! The dependency graph: nodes are commands, edges are produced files.
//!
//! Build commands become nodes `0 .. commands.len()` in description order;
//! tests follow them in the stable test ordering.  An edge runs from the
//! producer of a file to each command that reads it, tagged with the position
//! of the file in the consumer's input list.

use crate::buildinfo::BuildInfo;
use crate::cycle::{
    check_acyclic, edges_rel, has_edge_between, lemma_relation_cyclic_congruent, relation_cyclic,
};
use crate::error::BuildError;
use crate::paths::{ensure_absolute_normalised_paths, info_paths_ok};
use vstd::prelude::*;
use vstd::string::*;

verus! {

/// One dependency edge: the producer `from` writes a file that the consumer
/// `to` reads; `input_index` is the position of that file in the consumer's
/// input list.
#[derive(Clone, Copy)]
pub struct Edge {
    pub from: usize,
    pub to: usize,
    pub input_index: usize,
}

/// Number of graph nodes the description induces.
pub open spec fn desc_node_count(info: BuildInfo) -> int {
    info.commands.len() + info.tests.len()
}

/// No two tests share a name.  The schema keys tests by name, so this is an
/// invariant of every well-formed description.
pub open spec fn unique_test_names(info: BuildInfo) -> bool {
    forall|t1: int, t2: int|
        0 <= t1 < t2 < info.tests.len() ==> (#[trigger] info.tests[t1]).0@
            != (#[trigger] info.tests[t2]).0@
}

/// The input list of node `v`: a build command's inputs, or a test's.
pub open spec fn desc_node_inputs(info: BuildInfo, v: int) -> Seq<Seq<char>> {
    if v < info.commands.len() {
        Seq::new(info.commands[v].inputs.len() as nat, |k: int| info.commands[v].inputs[k]@)
    } else {
        Seq::new(
            info.tests[v - info.commands.len()].1.inputs.len() as nat,
            |k: int| info.tests[v - info.commands.len()].1.inputs[k]@,
        )
    }
}

pub open spec fn valid_out(info: BuildInfo, b: int, o: int) -> bool {
    0 <= b < info.commands.len() && 0 <= o < info.commands[b].outputs.len()
}

pub open spec fn out_key(info: BuildInfo, b: int, o: int) -> Seq<char> {
    info.commands[b].outputs[o]@
}

/// Build command `b` declares `f` among its outputs.
pub open spec fn produces(info: BuildInfo, b: int, f: Seq<char>) -> bool {
    exists|o: int| #[trigger] valid_out(info, b, o) && b >= 0 && out_key(info, b, o) == f
}

/// `k` is a valid input position of node `v`.
pub open spec fn valid_input(info: BuildInfo, v: int, k: int) -> bool {
    0 <= v < desc_node_count(info) && 0 <= k < desc_node_inputs(info, v).len()
}

/// Node `v` declares `f` among its inputs.
pub open spec fn consumes(info: BuildInfo, v: int, f: Seq<char>) -> bool {
    &&& 0 <= v < desc_node_count(info)
    &&& exists|k: int| 0 <= k < desc_node_inputs(info, v).len() && desc_node_inputs(info, v)[k] == f
}

/// No file is declared as the output of two different commands (nor twice by
/// one command).
pub open spec fn unique_outputs(info: BuildInfo) -> bool {
    forall|b1: int, o1: int, b2: int, o2: int|
        #![trigger out_key(info, b1, o1), out_key(info, b2, o2)]
        valid_out(info, b1, o1) && valid_out(info, b2, o2) && !(b1 == b2 && o1 == o2) ==> out_key(
            info,
            b1,
            o1,
        ) != out_key(info, b2, o2)
}

/// The file `f` is declared as an output twice.
pub open spec fn duplicate_output_named(info: BuildInfo, f: Seq<char>) -> bool {
    exists|b1: int, o1: int, b2: int, o2: int|
        #![trigger out_key(info, b1, o1), out_key(info, b2, o2)]
        valid_out(info, b1, o1) && valid_out(info, b2, o2) && !(b1 == b2 && o1 == o2) && out_key(
            info,
            b1,
            o1,
        ) == f && out_key(info, b2, o2) == f
}

/// The description induces an edge from build node `u` to node `v`, because
/// input `idx` of `v` is produced by `u`.
pub open spec fn desc_edge(info: BuildInfo, u: int, v: int, idx: int) -> bool {
    &&& 0 <= v < desc_node_count(info)
    &&& 0 <= idx < desc_node_inputs(info, v).len()
    &&& produces(info, u, desc_node_inputs(info, v)[idx])
}

pub open spec fn desc_has_edge(info: BuildInfo, u: int, v: int) -> bool {
    exists|idx: int| #[trigger] desc_edge(info, u, v, idx)
}

pub open spec fn desc_rel(info: BuildInfo) -> spec_fn(int, int) -> bool {
    |u: int, v: int| desc_has_edge(info, u, v)
}

/// The dependency relation of the description has a cycle.
pub open spec fn desc_cyclic(info: BuildInfo) -> bool {
    relation_cyclic(desc_rel(info))
}

/// There is an edge `u -> v` tagged `idx` in the list.
pub open spec fn edge_in(edges: Seq<Edge>, u: int, v: int, idx: int) -> bool {
    exists|j: int|
        0 <= j < edges.len() && (#[trigger] edges[j]).from as int == u && edges[j].to as int == v
            && edges[j].input_index as int == idx
}

/// The edge list represents exactly the dependency edges of the description,
/// one edge per consumed produced file.
pub open spec fn edges_ok(edges: Seq<Edge>, info: BuildInfo) -> bool {
    &&& forall|j: int|
        0 <= j < edges.len() ==> desc_edge(
            info,
            (#[trigger] edges[j]).from as int,
            edges[j].to as int,
            edges[j].input_index as int,
        )
    &&& forall|u: int, v: int, idx: int|
        #[trigger] desc_edge(info, u, v, idx) ==> edge_in(edges, u, v, idx)
    &&& forall|j1: int, j2: int|
        0 <= j1 < j2 < edges.len() ==> !((#[trigger] edges[j1]).to == (#[trigger] edges[j2]).to
            && edges[j1].input_index == edges[j2].input_index)
}

/// The output-to-producer index is sound, complete and has unique keys.
pub open spec fn producer_map_ok(m: Seq<(String, usize)>, info: BuildInfo) -> bool {
    &&& forall|e: int| 0 <= e < m.len() ==> produces(info, (#[trigger] m[e]).1 as int, m[e].0@)
    &&& forall|b: int, o: int|
        #![trigger out_key(info, b, o)]
        #![trigger valid_out(info, b, o)]
        valid_out(info, b, o) ==> exists|e: int|
            0 <= e < m.len() && (#[trigger] m[e]).0@ == out_key(info, b, o) && m[e].1 as int == b
    &&& forall|e1: int, e2: int|
        0 <= e1 < e2 < m.len() ==> (#[trigger] m[e1]).0@ != (#[trigger] m[e2]).0@
}

/// The input-to-consumers index is sound, complete and has unique keys.
pub open spec fn consumers_ok(cons: Seq<(String, Vec<usize>)>, info: BuildInfo) -> bool {
    &&& forall|e: int, x: int|
        #![trigger cons[e].1[x]]
        0 <= e < cons.len() && 0 <= x < cons[e].1.len() ==> consumes(
            info,
            cons[e].1[x] as int,
            cons[e].0@,
        )
    &&& forall|v: int, k: int|
        #![trigger valid_input(info, v, k)]
        valid_input(info, v, k) ==> exists|e: int, x: int|
            #![trigger cons[e].1[x]]
            0 <= e < cons.len() && 0 <= x < cons[e].1.len() && cons[e].0@
                == desc_node_inputs(info, v)[k] && cons[e].1[x] as int == v
    &&& forall|e1: int, e2: int|
        0 <= e1 < e2 < cons.len() ==> (#[trigger] cons[e1]).0@ != (#[trigger] cons[e2]).0@
}

/// The dependency graph together with its auxiliary indexes.
pub struct BuildDag {
    /// Number of build nodes; node `v` is a build node iff `v < n_builds`.
    pub n_builds: usize,
    /// Number of test nodes; test `t` is node `n_builds + t`.
    pub n_tests: usize,
    /// All edges of the graph.
    pub edges: Vec<Edge>,
    /// Map from output file to the build node that generates it.
    pub output_file_generators: Vec<(String, usize)>,
    /// Map from input file to the nodes that consume it.
    pub input_file_consumers: Vec<(String, Vec<usize>)>,
    /// Test names in the stable test ordering.
    pub test_names: Vec<String>,
}

impl BuildDag {
    pub open spec fn n_nodes(self) -> int {
        self.n_builds + self.n_tests
    }

    pub open spec fn is_build(self, v: int) -> bool {
        0 <= v < self.n_builds
    }

    pub open spec fn is_test(self, v: int) -> bool {
        self.n_builds <= v < self.n_nodes()
    }

    /// There is an edge from `u` to `v`.
    pub open spec fn has_edge(self, u: int, v: int) -> bool {
        has_edge_between(self.edges@, u, v)
    }

    /// Structural well-formedness: all node references are in range.
    pub open spec fn wf(self) -> bool {
        &&& self.n_builds + self.n_tests <= usize::MAX
        &&& self.test_names.len() == self.n_tests
        &&& forall|j: int|
            0 <= j < self.edges.len() ==> (#[trigger] self.edges[j]).from < self.n_builds
                && self.edges[j].to < self.n_nodes()
        &&& forall|e: int|
            0 <= e < self.output_file_generators.len() ==> (#[trigger] self.output_file_generators[e]).1
                < self.n_builds
        &&& forall|e: int, x: int|
            #![trigger self.input_file_consumers[e].1[x]]
            0 <= e < self.input_file_consumers.len() && 0 <= x
                < self.input_file_consumers[e].1.len()
                ==> self.input_file_consumers[e].1[x] < self.n_nodes()
        &&& forall|e1: int, e2: int|
            0 <= e1 < e2 < self.output_file_generators.len()
                ==> (#[trigger] self.output_file_generators[e1]).0@
                != (#[trigger] self.output_file_generators[e2]).0@
        &&& forall|e1: int, e2: int|
            0 <= e1 < e2 < self.input_file_consumers.len()
                ==> (#[trigger] self.input_file_consumers[e1]).0@
                != (#[trigger] self.input_file_consumers[e2]).0@
    }

    /// The graph represents the description.
    pub open spec fn matches_info(self, info: BuildInfo) -> bool {
        &&& self.n_builds == info.commands.len()
        &&& self.n_tests == info.tests.len()
        &&& edges_ok(self.edges@, info)
        &&& producer_map_ok(self.output_file_generators@, info)
        &&& consumers_ok(self.input_file_consumers@, info)
        &&& forall|t: int|
            0 <= t < self.test_names.len() ==> (#[trigger] self.test_names[t])@ == info.tests[t].0@
    }

    /// The graph has no cycle.
    pub open spec fn acyclic(self) -> bool {
        !relation_cyclic(edges_rel(self.edges@))
    }

    pub fn num_nodes(&self) -> (r: usize)
        requires
            self.wf(),
        ensures
            r == self.n_nodes(),
    {
        self.n_builds + self.n_tests
    }

    pub fn num_builds(&self) -> (r: usize)
        ensures
            r == self.n_builds,
    {
        self.n_builds
    }

    pub fn num_tests(&self) -> (r: usize)
        ensures
            r == self.n_tests,
    {
        self.n_tests
    }
}

/// Look a key up in an association list; the result is an index with that
/// key, or a guarantee that none exists.
pub(crate) fn assoc_index<V>(map: &Vec<(String, V)>, key: &String) -> (r: Option<usize>)
    ensures
        match r {
            Some(e) => e < map.len() && map[e as int].0@ == key@,
            None => forall|e: int| 0 <= e < map.len() ==> (#[trigger] map[e]).0@ != key@,
        },
{
    let mut e: usize = 0;
    while e < map.len()
        invariant
            e <= map.len(),
            forall|x: int| 0 <= x < e ==> (#[trigger] map[x]).0@ != key@,
        decreases map.len() - e,
    {
        if map[e].0 == *key {
            return Some(e);
        }
        e = e + 1;
    }
    None
}

/// `(b1, o1)` is processed strictly before `(b, o)` in output order.
spec fn out_before(b1: int, o1: int, b: int, o: int) -> bool {
    b1 < b || (b1 == b && o1 < o)
}

/// `(v1, k1)` is processed strictly before `(v, k)` in input order.
spec fn pair_before(v1: int, k1: int, v: int, k: int) -> bool {
    v1 < v || (v1 == v && k1 < k)
}

/// Some command produces `f`.
pub open spec fn has_producer(info: BuildInfo, f: Seq<char>) -> bool {
    exists|b: int| produces(info, b, f)
}

/// Build the output-to-producer index, rejecting a file that is declared as
/// the output of more than one command.
fn build_output_map(info: &BuildInfo) -> (r: Result<Vec<(String, usize)>, BuildError>)
    ensures
        match r {
            Ok(m) => unique_outputs(*info) && producer_map_ok(m@, *info),
            Err(BuildError::DuplicateOutput(f)) => duplicate_output_named(*info, f@),
            Err(_) => false,
        },
        r.is_ok() <==> unique_outputs(*info),
{
    let mut m: Vec<(String, usize)> = Vec::new();
    // Ghost bookkeeping: which output pair each entry came from, and which
    // entry each processed output pair went to.
    let ghost mut pair_of: Map<int, (int, int)> = Map::empty();
    let ghost mut entry_of: Map<(int, int), int> = Map::empty();
    let mut b: usize = 0;
    let mut o: usize = 0;
    // One flat scan over the pairs (b, o), in output order.
    while b < info.commands.len()
        invariant
            b <= info.commands.len(),
            b < info.commands.len() ==> o <= info.commands[b as int].outputs.len(),
            b == info.commands.len() ==> o == 0,
            forall|e: int|
                0 <= e < m.len() ==> produces(*info, (#[trigger] m[e]).1 as int, m[e].0@),
            forall|e: int| 0 <= e < m.len() ==> pair_of.contains_key(e),
            forall|e: int|
                0 <= e < m.len() ==> valid_out(*info, (#[trigger] pair_of[e]).0, pair_of[e].1)
                    && out_before(pair_of[e].0, pair_of[e].1, b as int, o as int),
            forall|e: int|
                0 <= e < m.len() ==> (#[trigger] m[e]).0@ == out_key(
                    *info,
                    pair_of[e].0,
                    pair_of[e].1,
                ) && m[e].1 as int == pair_of[e].0,
            forall|b1: int, o1: int|
                #![trigger out_key(*info, b1, o1)]
                #![trigger entry_of[(b1, o1)]]
                #![trigger entry_of.contains_key((b1, o1))]
                valid_out(*info, b1, o1) && out_before(b1, o1, b as int, o as int)
                    ==> entry_of.contains_key((b1, o1)),
            forall|b1: int, o1: int|
                #![trigger out_key(*info, b1, o1)]
                #![trigger entry_of[(b1, o1)]]
                #![trigger entry_of.contains_key((b1, o1))]
                valid_out(*info, b1, o1) && out_before(b1, o1, b as int, o as int) ==> 0
                    <= entry_of[(b1, o1)] < m.len() && m[entry_of[(b1, o1)]].0@ == out_key(
                    *info,
                    b1,
                    o1,
                ) && m[entry_of[(b1, o1)]].1 as int == b1,
            forall|e1: int, e2: int|
                0 <= e1 < e2 < m.len() ==> (#[trigger] m[e1]).0@ != (#[trigger] m[e2]).0@,
            forall|b1: int, o1: int, b2: int, o2: int|
                #![trigger out_key(*info, b1, o1), out_key(*info, b2, o2)]
                valid_out(*info, b1, o1) && valid_out(*info, b2, o2) && out_before(
                    b1,
                    o1,
                    b as int,
                    o as int,
                ) && out_before(b2, o2, b as int, o as int) && !(b1 == b2 && o1 == o2) ==> out_key(
                    *info,
                    b1,
                    o1,
                ) != out_key(*info, b2, o2),
        decreases info.commands.len() - b, info.commands[b as int].outputs.len() - o,
    {
        if o == info.commands[b].outputs.len() {
            o = 0;
            b = b + 1;
        } else {
            let file = &info.commands[b].outputs[o];
            match assoc_index(&m, file) {
                Some(e) => {
                    proof {
                        let (b1, o1) = pair_of[e as int];
                        assert(valid_out(*info, b as int, o as int));
                        assert(out_key(*info, b as int, o as int) == file@);
                        assert(out_key(*info, b1, o1) == file@);
                        assert(duplicate_output_named(*info, file@));
                    }
                    return Err(BuildError::DuplicateOutput(file.clone()));
                }
                None => {
                    proof {
                        pair_of = pair_of.insert(m@.len() as int, (b as int, o as int));
                        entry_of = entry_of.insert((b as int, o as int), m@.len() as int);
                    }
                    m.push((file.clone(), b));
                    proof {
                        assert(valid_out(*info, b as int, o as int));
                        assert(m[m@.len() - 1].0@ == out_key(*info, b as int, o as int));
                        assert(produces(*info, b as int, out_key(*info, b as int, o as int)));
                        // The new pair's key differs from every processed key.
                        assert forall|b1: int, o1: int, b2: int, o2: int|
                            #![trigger out_key(*info, b1, o1), out_key(*info, b2, o2)]
                            valid_out(*info, b1, o1) && valid_out(*info, b2, o2) && out_before(
                                b1,
                                o1,
                                b as int,
                                o + 1,
                            ) && out_before(b2, o2, b as int, o + 1) && !(b1 == b2 && o1 == o2)
                            implies out_key(*info, b1, o1) != out_key(*info, b2, o2) by {
                            if out_key(*info, b1, o1) == out_key(*info, b2, o2) {
                                if out_before(b1, o1, b as int, o as int) && out_before(
                                    b2,
                                    o2,
                                    b as int,
                                    o as int,
                                ) {
                                } else if out_before(b1, o1, b as int, o as int) {
                                    let e = entry_of[(b1, o1)];
                                    assert(m[e].0@ == out_key(*info, b1, o1));
                                    assert(m[e].0@ != file@);
                                } else if out_before(b2, o2, b as int, o as int) {
                                    let e = entry_of[(b2, o2)];
                                    assert(m[e].0@ == out_key(*info, b2, o2));
                                    assert(m[e].0@ != file@);
                                }
                            }
                        }
                    }
                }
            }
            o = o + 1;
        }
    }
    proof {
        // Completeness of the finished map, and output uniqueness.
        assert forall|b1: int, o1: int|
            #![trigger out_key(*info, b1, o1)]
            #![trigger valid_out(*info, b1, o1)]
            valid_out(*info, b1, o1) implies exists|e: int|
            0 <= e < m@.len() && (#[trigger] m@[e]).0@ == out_key(*info, b1, o1) && m@[e].1 as int
                == b1 by {
            assert(out_before(b1, o1, info.commands@.len() as int, 0));
            let e = entry_of[(b1, o1)];
            assert(0 <= e < m.len() && m[e].0@ == out_key(*info, b1, o1) && m[e].1 as int == b1);
            assert(m@[e] == m[e]);
        }
        assert forall|e: int| 0 <= e < m@.len() implies produces(
            *info,
            (#[trigger] m@[e]).1 as int,
            m@[e].0@,
        ) by {
            assert(produces(*info, m[e].1 as int, m[e].0@));
            assert(m@[e] == m[e]);
        }
        assert forall|e1: int, e2: int| 0 <= e1 < e2 < m@.len() implies (#[trigger] m@[e1]).0@ != (
        #[trigger] m@[e2]).0@ by {
            assert(m[e1].0@ != m[e2].0@);
            assert(m@[e1] == m[e1] && m@[e2] == m[e2]);
        }
        assert forall|b1: int, o1: int, b2: int, o2: int|
            #![trigger out_key(*info, b1, o1), out_key(*info, b2, o2)]
            valid_out(*info, b1, o1) && valid_out(*info, b2, o2) && !(b1 == b2 && o1 == o2) implies
            out_key(*info, b1, o1) != out_key(*info, b2, o2) by {
            assert(out_before(b1, o1, info.commands@.len() as int, 0));
            assert(out_before(b2, o2, info.commands@.len() as int, 0));
        }
        assert(unique_outputs(*info));
        assert(producer_map_ok(m@, *info));
    }
    Ok(m)
}

/// Number of inputs of node `v`.
fn node_input_count(info: &BuildInfo, v: usize) -> (r: usize)
    requires
        v < desc_node_count(*info),
    ensures
        r == desc_node_inputs(*info, v as int).len(),
{
    if v < info.commands.len() {
        info.commands[v].inputs.len()
    } else {
        info.tests[v - info.commands.len()].1.inputs.len()
    }
}

/// Input `k` of node `v`.
fn node_input<'a>(info: &'a BuildInfo, v: usize, k: usize) -> (r: &'a String)
    requires
        v < desc_node_count(*info),
        k < desc_node_inputs(*info, v as int).len(),
    ensures
        r@ == desc_node_inputs(*info, v as int)[k as int],
{
    if v < info.commands.len() {
        &info.commands[v].inputs[k]
    } else {
        &info.tests[v - info.commands.len()].1.inputs[k]
    }
}

/// Wire every consumed file to its producer (one edge each) and record every
/// consumer in the input index.
fn build_edges(info: &BuildInfo, producers: &Vec<(String, usize)>) -> (r: (
    Vec<Edge>,
    Vec<(String, Vec<usize>)>,
))
    requires
        info.commands.len() + info.tests.len() <= usize::MAX,
        unique_outputs(*info),
        producer_map_ok(producers@, *info),
    ensures
        edges_ok(r.0@, *info),
        consumers_ok(r.1@, *info),
{
    let total: usize = info.commands.len() + info.tests.len();
    let mut edges: Vec<Edge> = Vec::new();
    let mut cons: Vec<(String, Vec<usize>)> = Vec::new();
    // Ghost bookkeeping: for each processed input position, where its edge
    // and its consumer-index slot went.
    let ghost mut edge_slot: Map<(int, int), int> = Map::empty();
    let ghost mut slot_of: Map<(int, int), (int, int)> = Map::empty();
    let mut v: usize = 0;
    let mut k: usize = 0;
    // One flat scan over the pairs (v, k), in input order.
    while v < total
        invariant
            v <= total,
            total == desc_node_count(*info),
            v < total ==> k <= desc_node_inputs(*info, v as int).len(),
            v == total ==> k == 0,
            unique_outputs(*info),
            producer_map_ok(producers@, *info),
            forall|j: int|
                0 <= j < edges.len() ==> desc_edge(
                    *info,
                    (#[trigger] edges[j]).from as int,
                    edges[j].to as int,
                    edges[j].input_index as int,
                ),
            forall|j: int|
                0 <= j < edges.len() ==> pair_before(
                    (#[trigger] edges[j]).to as int,
                    edges[j].input_index as int,
                    v as int,
                    k as int,
                ),
            forall|j1: int, j2: int|
                0 <= j1 < j2 < edges.len() ==> !((#[trigger] edges[j1]).to
                    == (#[trigger] edges[j2]).to && edges[j1].input_index
                    == edges[j2].input_index),
            forall|v1: int, k1: int|
                #![trigger valid_input(*info, v1, k1)]
                #![trigger edge_slot.contains_key((v1, k1))]
                valid_input(*info, v1, k1) && pair_before(v1, k1, v as int, k as int)
                    && has_producer(*info, desc_node_inputs(*info, v1)[k1])
                    ==> edge_slot.contains_key((v1, k1)),
            forall|v1: int, k1: int|
                #![trigger valid_input(*info, v1, k1)]
                #![trigger edge_slot[(v1, k1)]]
                valid_input(*info, v1, k1) && pair_before(v1, k1, v as int, k as int)
                    && has_producer(*info, desc_node_inputs(*info, v1)[k1]) ==> 0 <= edge_slot[(v1, k1)] < edges.len() && edges[edge_slot[(v1, k1)]].to as int == v1 && edges[edge_slot[(v1, k1)]].input_index as int == k1,
            forall|e: int, x: int|
                #![trigger cons[e].1[x]]
                0 <= e < cons.len() && 0 <= x < cons[e].1.len() ==> consumes(
                    *info,
                    cons[e].1[x] as int,
                    cons[e].0@,
                ),
            forall|v1: int, k1: int|
                #![trigger valid_input(*info, v1, k1)]
                #![trigger slot_of.contains_key((v1, k1))]
                valid_input(*info, v1, k1) && pair_before(v1, k1, v as int, k as int)
                    ==> slot_of.contains_key((v1, k1)),
            forall|v1: int, k1: int|
                #![trigger valid_input(*info, v1, k1)]
                #![trigger slot_of[(v1, k1)]]
                valid_input(*info, v1, k1) && pair_before(v1, k1, v as int, k as int) ==> 0
                    <= slot_of[(v1, k1)].0 < cons.len() && 0 <= slot_of[(v1, k1)].1 < cons[slot_of[(v1, k1)].0].1.len() && cons[slot_of[(v1, k1)].0].0@ == desc_node_inputs(*info, v1)[k1]
                    && cons[slot_of[(v1, k1)].0].1[slot_of[(v1, k1)].1] as int == v1,
            forall|e1: int, e2: int|
                0 <= e1 < e2 < cons.len() ==> (#[trigger] cons[e1]).0@ != (#[trigger] cons[e2]).0@,
        decreases total - v, desc_node_inputs(*info, v as int).len() - k,
    {
        let count = node_input_count(info, v);
        if k == count {
            k = 0;
            v = v + 1;
        } else {
            let input = node_input(info, v, k);
            proof {
                assert(valid_input(*info, v as int, k as int));
            }
            // Edge from the producer, if the input is not a source file.
            match assoc_index(producers, input) {
                Some(e) => {
                    let u = producers[e].1;
                    proof {
                        assert(producers@[e as int].0@ == input@);
                        assert(produces(
                            *info,
                            producers@[e as int].1 as int,
                            producers@[e as int].0@,
                        ));
                        assert(produces(*info, u as int, desc_node_inputs(*info, v as int)[k as int]));
                        assert(has_producer(*info, desc_node_inputs(*info, v as int)[k as int]));
                        edge_slot = edge_slot.insert((v as int, k as int), edges@.len() as int);
                    }
                    edges.push(Edge { from: u, to: v, input_index: k });
                    proof {
                        assert(edges[edges@.len() - 1].to as int == v as int);
                        assert(desc_edge(*info, u as int, v as int, k as int));
                    }
                }
                None => {
                    proof {
                        assert(!has_producer(
                            *info,
                            desc_node_inputs(*info, v as int)[k as int],
                        )) by {
                            if has_producer(*info, desc_node_inputs(*info, v as int)[k as int]) {
                                let u1 = choose|u1: int|
                                    produces(*info, u1, desc_node_inputs(*info, v as int)[k as int]);
                                let o1 = choose|oo: int|
                                    #[trigger] valid_out(*info, u1, oo) && u1 >= 0 && out_key(
                                        *info,
                                        u1,
                                        oo,
                                    ) == desc_node_inputs(*info, v as int)[k as int];
                                assert(out_key(*info, u1, o1) == input@);
                                assert(false);
                            }
                        }
                    }
                }
            }
            // Record the consumer.
            let ghost cons_old = cons@;
            match assoc_index(&cons, input) {
                Some(ci) => {
                    let ghost list_old = cons@[ci as int].1@;
                    proof {
                        slot_of = slot_of.insert(
                            (v as int, k as int),
                            (ci as int, list_old.len() as int),
                        );
                    }
                    cons[ci].1.push(v);
                    proof {
                        assert(cons[ci as int].0@ == input@);
                        assert(cons[ci as int].1@ == list_old.push(v));
                        assert(cons[ci as int].1[list_old.len() as int] == v);
                        assert(consumes(*info, v as int, cons[ci as int].0@));
                        assert forall|e: int, x: int|
                            #![trigger cons[e].1[x]]
                            0 <= e < cons.len() && 0 <= x < cons[e].1.len() implies consumes(
                            *info,
                            cons[e].1[x] as int,
                            cons[e].0@,
                        ) by {
                            if e == ci as int {
                                if x < list_old.len() {
                                    assert(cons[e].1[x] == cons_old[e].1[x]);
                                }
                            } else {
                                assert(cons@[e] == cons_old[e]);
                            }
                        }
                    }
                }
                None => {
                    let mut lst: Vec<usize> = Vec::new();
                    lst.push(v);
                    proof {
                        slot_of = slot_of.insert((v as int, k as int), (cons@.len() as int, 0int));
                    }
                    cons.push((input.clone(), lst));
                    proof {
                        assert(cons[cons@.len() - 1].0@ == input@);
                        assert(cons[cons@.len() - 1].1[0] == v);
                        assert(consumes(*info, v as int, cons[cons@.len() - 1].0@));
                        assert forall|e: int, x: int|
                            #![trigger cons[e].1[x]]
                            0 <= e < cons.len() && 0 <= x < cons[e].1.len() implies consumes(
                            *info,
                            cons[e].1[x] as int,
                            cons[e].0@,
                        ) by {
                            if e < cons.len() - 1 {
                                assert(cons@[e] == cons_old[e]);
                            }
                        }
                        assert forall|e1: int, e2: int|
                            0 <= e1 < e2 < cons.len() implies (#[trigger] cons[e1]).0@ != (
                        #[trigger] cons[e2]).0@ by {
                            if e2 < cons.len() - 1 {
                                assert(cons@[e1] == cons_old[e1] && cons@[e2] == cons_old[e2]);
                            } else {
                                assert(cons@[e1] == cons_old[e1]);
                                assert(cons_old[e1].0@ != input@);
                            }
                        }
                    }
                }
            }
            k = k + 1;
        }
    }
    proof {
        // The finished edge list is complete, and so is the consumer index.
        assert forall|u1: int, v1: int, k1: int| #[trigger]
            desc_edge(*info, u1, v1, k1) implies edge_in(edges@, u1, v1, k1) by {
            assert(valid_input(*info, v1, k1));
            assert(pair_before(v1, k1, total as int, 0));
            assert(produces(*info, u1, desc_node_inputs(*info, v1)[k1]));
            assert(has_producer(*info, desc_node_inputs(*info, v1)[k1]));
            let j = edge_slot[(v1, k1)];
            assert(0 <= j < edges.len() && edges[j].to as int == v1 && edges[j].input_index as int
                == k1);
            let uj = edges[j].from as int;
            assert(desc_edge(*info, uj, v1, k1));
            let o1 = choose|oo: int|
                #[trigger] valid_out(*info, u1, oo) && u1 >= 0 && out_key(*info, u1, oo)
                    == desc_node_inputs(*info, v1)[k1];
            let o2 = choose|oo: int|
                #[trigger] valid_out(*info, uj, oo) && uj >= 0 && out_key(*info, uj, oo)
                    == desc_node_inputs(*info, v1)[k1];
            assert(uj == u1);
            assert(edges@[j] == edges[j]);
        }
        assert forall|v1: int, k1: int|
            #![trigger valid_input(*info, v1, k1)]
            valid_input(*info, v1, k1) implies exists|e: int, x: int|
            #![trigger cons@[e].1[x]]
            0 <= e < cons@.len() && 0 <= x < cons@[e].1.len() && cons@[e].0@ == desc_node_inputs(
                *info,
                v1,
            )[k1] && cons@[e].1[x] as int == v1 by {
            assert(pair_before(v1, k1, total as int, 0));
            let (e, x) = slot_of[(v1, k1)];
            assert(0 <= e < cons.len() && 0 <= x < cons[e].1.len() && cons[e].0@
                == desc_node_inputs(*info, v1)[k1] && cons[e].1[x] as int == v1);
            assert(cons@[e] == cons[e]);
        }
        assert forall|j: int| 0 <= j < edges@.len() implies desc_edge(
            *info,
            (#[trigger] edges@[j]).from as int,
            edges@[j].to as int,
            edges@[j].input_index as int,
        ) by {
            assert(desc_edge(
                *info,
                edges[j].from as int,
                edges[j].to as int,
                edges[j].input_index as int,
            ));
            assert(edges@[j] == edges[j]);
        }
        assert forall|j1: int, j2: int| 0 <= j1 < j2 < edges@.len() implies !((
        #[trigger] edges@[j1]).to == (#[trigger] edges@[j2]).to && edges@[j1].input_index
            == edges@[j2].input_index) by {
            assert(edges@[j1] == edges[j1] && edges@[j2] == edges[j2]);
        }
        assert forall|e: int, x: int|
            #![trigger cons@[e].1[x]]
            0 <= e < cons@.len() && 0 <= x < cons@[e].1.len() implies consumes(
            *info,
            cons@[e].1[x] as int,
            cons@[e].0@,
        ) by {
            assert(cons@[e] == cons[e]);
            assert(consumes(*info, cons[e].1[x] as int, cons[e].0@));
        }
        assert forall|e1: int, e2: int| 0 <= e1 < e2 < cons@.len() implies (
        #[trigger] cons@[e1]).0@ != (#[trigger] cons@[e2]).0@ by {
            assert(cons@[e1] == cons[e1] && cons@[e2] == cons[e2]);
            assert(cons[e1].0@ != cons[e2].0@);
        }
        assert(edges_ok(edges@, *info));
        assert(consumers_ok(cons@, *info));
    }
    (edges, cons)
}

/// Collect the test names in the stable test ordering.
fn collect_test_names(info: &BuildInfo) -> (r: Vec<String>)
    ensures
        r.len() == info.tests.len(),
        forall|t: int| 0 <= t < r.len() ==> (#[trigger] r[t])@ == info.tests[t].0@,
{
    let mut r: Vec<String> = Vec::new();
    let mut t: usize = 0;
    while t < info.tests.len()
        invariant
            t <= info.tests.len(),
            r.len() == t,
            forall|x: int| 0 <= x < t ==> (#[trigger] r[x])@ == info.tests[x].0@,
        decreases info.tests.len() - t,
    {
        r.push(info.tests[t].0.clone());
        t = t + 1;
    }
    r
}

impl BuildDag {
    /// Construct the dependency graph from a description.  Construction
    /// succeeds exactly when every path is absolute and canonical, no file is
    /// the output of two commands, and the dependency relation is acyclic;
    /// the graph then represents the description exactly.
    pub fn new(info: &BuildInfo) -> (r: Result<BuildDag, BuildError>)
        requires
            info.commands.len() + info.tests.len() <= usize::MAX,
            unique_test_names(*info),
        ensures
            r.is_ok() <==> info_paths_ok(*info) && unique_outputs(*info) && !desc_cyclic(*info),
            match r {
                Ok(d) => d.wf() && d.acyclic() && d.matches_info(*info),
                Err(BuildError::PathNotAbsolute(p)) => crate::paths::info_mentions_path(*info, p@)
                    && !crate::paths::is_absolute_path(p@),
                Err(BuildError::PathNotCanonical(p)) => crate::paths::info_mentions_path(*info, p@)
                    && crate::paths::is_absolute_path(p@) && crate::paths::has_forbidden_component(
                    p@,
                ),
                Err(BuildError::DuplicateOutput(f)) => info_paths_ok(*info)
                    && duplicate_output_named(*info, f@),
                Err(BuildError::CyclicGraph) => info_paths_ok(*info) && unique_outputs(*info)
                    && desc_cyclic(*info),
                Err(_) => false,
            },
    {
        if let Err(e) = ensure_absolute_normalised_paths(info) {
            return Err(e);
        }
        let output_file_generators = match build_output_map(info) {
            Ok(m) => m,
            Err(e) => {
                return Err(e);
            }
        };
        let (edges, input_file_consumers) = build_edges(info, &output_file_generators);
        let test_names = collect_test_names(info);
        let n_builds = info.commands.len();
        let n_tests = info.tests.len();
        proof {
            assert forall|j: int| 0 <= j < edges@.len() implies (#[trigger] edges@[j]).from
                < n_builds + n_tests && edges@[j].to < n_builds + n_tests by {
                assert(desc_edge(
                    *info,
                    edges@[j].from as int,
                    edges@[j].to as int,
                    edges@[j].input_index as int,
                ));
                let o = choose|o: int|
                    #[trigger] valid_out(*info, edges@[j].from as int, o) && edges@[j].from as int
                        >= 0 && out_key(*info, edges@[j].from as int, o) == desc_node_inputs(
                        *info,
                        edges@[j].to as int,
                    )[edges@[j].input_index as int];
            }
        }
        let acyclic_now = check_acyclic(n_builds + n_tests, &edges);
        proof {
            // The edge relation of the built graph is the dependency relation
            // of the description.
            assert forall|u: int, w: int| #[trigger] edges_rel(edges@)(u, w) <==> #[trigger] desc_rel(
                *info,
            )(u, w) by {
                if edges_rel(edges@)(u, w) {
                    let j = choose|j: int|
                        0 <= j < edges@.len() && (#[trigger] edges@[j]).from as int == u
                            && edges@[j].to as int == w;
                    assert(desc_edge(*info, u, w, edges@[j].input_index as int));
                    assert(desc_has_edge(*info, u, w));
                }
                if desc_has_edge(*info, u, w) {
                    let idx = choose|idx: int| #[trigger] desc_edge(*info, u, w, idx);
                    assert(edge_in(edges@, u, w, idx));
                    let j = choose|j: int|
                        0 <= j < edges@.len() && (#[trigger] edges@[j]).from as int == u
                            && edges@[j].to as int == w && edges@[j].input_index as int == idx;
                    assert(has_edge_between(edges@, u, w));
                }
            }
            lemma_relation_cyclic_congruent(edges_rel(edges@), desc_rel(*info));
        }
        if !acyclic_now {
            return Err(BuildError::CyclicGraph);
        }
        proof {
            assert forall|j: int| 0 <= j < edges@.len() implies (#[trigger] edges@[j]).from
                < n_builds by {
                assert(desc_edge(
                    *info,
                    edges@[j].from as int,
                    edges@[j].to as int,
                    edges@[j].input_index as int,
                ));
                let f = desc_node_inputs(*info, edges@[j].to as int)[edges@[j].input_index as int];
                assert(produces(*info, edges@[j].from as int, f));
                let o = choose|o: int|
                    #[trigger] valid_out(*info, edges@[j].from as int, o) && edges@[j].from as int
                        >= 0 && out_key(*info, edges@[j].from as int, o) == f;
            }
            assert forall|e: int| 0 <= e < output_file_generators@.len() implies (
            #[trigger] output_file_generators@[e]).1 < n_builds by {
                assert(produces(
                    *info,
                    output_file_generators@[e].1 as int,
                    output_file_generators@[e].0@,
                ));
                let o = choose|o: int|
                    #[trigger] valid_out(*info, output_file_generators@[e].1 as int, o)
                        && output_file_generators@[e].1 as int >= 0 && out_key(
                        *info,
                        output_file_generators@[e].1 as int,
                        o,
                    ) == output_file_generators@[e].0@;
            }
            assert forall|e: int, x: int|
                0 <= e < input_file_consumers@.len() && 0 <= x
                    < input_file_consumers@[e].1.len() implies input_file_consumers@[e].1[x]
                < n_builds + n_tests by {
                assert(consumes(
                    *info,
                    input_file_consumers@[e].1[x] as int,
                    input_file_consumers@[e].0@,
                ));
            }
        }
        Ok(
            BuildDag {
                n_builds,
                n_tests,
                edges,
                output_file_generators,
                input_file_consumers,
                test_names,
            },
        )
    }
}

} // verus!
