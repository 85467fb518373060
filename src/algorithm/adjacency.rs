//! Graphs as seen by the matcher: nodes are positions `0..n`, and each node
//! carries its name, its optional weight and its neighbour positions.
use vstd::prelude::*;
use vstd::set_lib::{lemma_int_range, lemma_len_subset, set_int_range};
use crate::graph::digraph::DiGraphView;
use crate::graph::node::{opt_text, texts, DiNodeView};
use crate::graph::{DiGraph, GraphError};

verus! {

/// A directed graph over node positions. Successor lists are the source of
/// the edge relation; predecessor lists hold the same edges reversed.
pub struct IndexedGraph {
    pub names: Vec<String>,
    pub weights: Vec<Option<String>>,
    pub succs: Vec<Vec<usize>>,
    pub preds: Vec<Vec<usize>>,
}

/// Whether every entry of `lists` is a position below `n` and no list repeats one.
pub open spec fn lists_within(lists: Seq<Vec<usize>>, n: nat) -> bool {
    &&& forall|u: int, k: int|
        #![trigger lists[u]@[k]]
        0 <= u < lists.len() && 0 <= k < lists[u]@.len() ==> lists[u]@[k] < n
    &&& forall|u: int| #![trigger lists[u]] 0 <= u < lists.len() ==> lists[u]@.no_duplicates()
}

impl IndexedGraph {
    pub open spec fn n(&self) -> nat {
        self.names.len() as nat
    }

    /// There is an edge from position `u` to position `v`.
    pub open spec fn has_edge(&self, u: int, v: int) -> bool {
        self.succs@[u]@.contains(v as usize)
    }

    /// Number of edges from `u` to `v`: the successor lists hold no repeats,
    /// so it is zero or one.
    pub open spec fn ec(&self, u: int, v: int) -> nat {
        if self.has_edge(u, v) {
            1
        } else {
            0
        }
    }

    /// Names are distinct.
    pub open spec fn names_distinct(&self) -> bool {
        forall|i: int, j: int|
            0 <= i < self.n() && 0 <= j < self.n() && i != j ==> self.names@[i]@ != self.names@[j]@
    }

    /// Some node is named `x`.
    pub open spec fn has_name(&self, x: Seq<char>) -> bool {
        exists|i: int| 0 <= i < self.n() && self.names@[i]@ == x
    }

    /// Number of edges from the node named `x` to the node named `y`.
    pub open spec fn named_ec(&self, x: Seq<char>, y: Seq<char>) -> nat {
        if exists|i: int, j: int|
            0 <= i < self.n() && 0 <= j < self.n() && self.names@[i]@ == x && self.names@[j]@ == y
                && self.has_edge(i, j) {
            1
        } else {
            0
        }
    }

    /// This graph is `g` with its nodes numbered in order: same names, same
    /// weights, and an edge where `g`'s node lists a successor.
    pub open spec fn models(&self, g: DiGraphView) -> bool {
        &&& self.n() == g.nodes.len()
        &&& forall|i: int|
            0 <= i < self.n() ==> (#[trigger] self.names@[i])@ == g.nodes[i].name && opt_text(
                self.weights@[i],
            ) == g.nodes[i].weight
        &&& forall|u: int, v: int|
            0 <= u < self.n() && 0 <= v < self.n() ==> (self.has_edge(u, v) <==> g.nodes[u].outputs.contains(
                g.nodes[v].name,
            ))
    }

    pub open spec fn wf(&self) -> bool {
        &&& self.weights@.len() == self.n()
        &&& self.succs@.len() == self.n()
        &&& self.preds@.len() == self.n()
        &&& lists_within(self.succs@, self.n())
        &&& lists_within(self.preds@, self.n())
        &&& forall|u: int, v: int|
            #![trigger self.succs@[u]@.contains(v as usize), self.preds@[v]@.contains(u as usize)]
            0 <= u < self.n() && 0 <= v < self.n() ==> (self.succs@[u]@.contains(v as usize)
                <==> self.preds@[v]@.contains(u as usize))
        &&& self.names_distinct()
    }

    /// The number of edges from `u` to `v`.
    pub fn edge_count(&self, u: usize, v: usize) -> (r: usize)
        requires
            self.wf(),
            u < self.n(),
            v < self.n(),
        ensures
            r == self.ec(u as int, v as int),
    {
        if contains_index(&self.succs[u], v) {
            1
        } else {
            0
        }
    }
}

/// Counted by names, edges are counted as by positions.
pub proof fn lemma_named_ec(g: IndexedGraph, i: int, j: int)
    requires
        g.wf(),
        0 <= i < g.n(),
        0 <= j < g.n(),
    ensures
        g.named_ec(g.names@[i]@, g.names@[j]@) == g.ec(i, j),
{
    if !g.has_edge(i, j) {
        assert forall|a: int, b: int|
            0 <= a < g.n() && 0 <= b < g.n() && g.names@[a]@ == g.names@[i]@ && g.names@[b]@
                == g.names@[j]@ implies !g.has_edge(a, b) by {
            assert(a == i);
            assert(b == j);
        }
    }
}

/// Distinct positions below `n` are at most `n`.
pub proof fn lemma_distinct_below(s: Seq<usize>, n: nat)
    requires
        s.no_duplicates(),
        forall|k: int| 0 <= k < s.len() ==> s[k] < n,
    ensures
        s.len() <= n,
{
    let si = s.map_values(|x: usize| x as int);
    assert forall|a: int, b: int| 0 <= a < b < si.len() implies si[a] != si[b] by {
        assert(s[a] != s[b]);
    }
    si.unique_seq_to_set();
    lemma_int_range(0, n as int);
    assert forall|x: int| si.to_set().contains(x) implies set_int_range(0, n as int).contains(x) by {
        let k = choose|k: int| 0 <= k < si.len() && si[k] == x;
        assert(s[k] < n);
    }
    lemma_len_subset(si.to_set(), set_int_range(0, n as int));
}

/// Whether `x` occurs in `v`.
pub fn contains_index(v: &Vec<usize>, x: usize) -> (r: bool)
    ensures
        r == v@.contains(x),
{
    let mut i: usize = 0;
    while i < v.len()
        invariant
            i <= v@.len(),
            forall|k: int| 0 <= k < i ==> v@[k] != x,
        decreases v@.len() - i,
    {
        if v[i] == x {
            return true;
        }
        i += 1;
    }
    false
}

/// The positions in `names` of the names in `list`; the first name of
/// `list` that `names` lacks is an error.
fn resolve(names: &Vec<String>, list: &Vec<String>) -> (r: Result<Vec<usize>, GraphError>)
    ensures
        match r {
            Ok(row) => {
                &&& row@.len() == list@.len()
                &&& forall|t: int|
                    0 <= t < row@.len() ==> (#[trigger] row@[t]) < names@.len() && names@[row@[t] as int]@
                        == list@[t]@
            },
            Err(GraphError::UnknownNode(k)) => {
                &&& texts(list@).contains(k@)
                &&& forall|i: int| 0 <= i < names@.len() ==> names@[i]@ != k@
            },
        },
{
    let mut row: Vec<usize> = Vec::new();
    let mut t: usize = 0;
    while t < list.len()
        invariant
            t <= list@.len(),
            row@.len() == t,
            forall|k: int|
                0 <= k < t ==> (#[trigger] row@[k]) < names@.len() && names@[row@[k] as int]@
                    == list@[k]@,
        decreases list@.len() - t,
    {
        match crate::graph::node::position_of(names, &list[t]) {
            Some(i) => row.push(i),
            None => {
                assert(texts(list@)[t as int] == list@[t as int]@);
                return Err(GraphError::UnknownNode(list[t].clone()));
            },
        }
        t += 1;
    }
    Ok(row)
}

/// For each position `v < n`, the positions `u` whose row in `succs` holds
/// `v`, increasing.
fn reversed(succs: &Vec<Vec<usize>>, n: usize) -> (r: Vec<Vec<usize>>)
    requires
        succs@.len() == n,
    ensures
        r@.len() == n,
        lists_within(r@, n as nat),
        forall|u: int, v: int|
            #![trigger succs@[u]@.contains(v as usize), r@[v]@.contains(u as usize)]
            0 <= u < n && 0 <= v < n ==> (succs@[u]@.contains(v as usize) <==> r@[v]@.contains(
                u as usize,
            )),
{
    let mut r: Vec<Vec<usize>> = Vec::new();
    let mut v: usize = 0;
    while v < n
        invariant
            succs@.len() == n,
            v <= n,
            r@.len() == v,
            lists_within(r@, n as nat),
            forall|u: int, w: int|
                #![trigger succs@[u]@.contains(w as usize), r@[w]@.contains(u as usize)]
                0 <= u < n && 0 <= w < v ==> (succs@[u]@.contains(w as usize) <==> r@[w]@.contains(
                    u as usize,
                )),
        decreases n - v,
    {
        let mut row: Vec<usize> = Vec::new();
        let mut u: usize = 0;
        while u < n
            invariant
                succs@.len() == n,
                u <= n,
                v < n,
                forall|k: int| 0 <= k < row@.len() ==> (#[trigger] row@[k]) < u,
                row@.no_duplicates(),
                forall|x: int| 0 <= x < n ==> (row@.contains(x as usize) <==> (x < u && succs@[x]@.contains(v))),
            decreases n - u,
        {
            let ghost before = row@;
            if contains_index(&succs[u], v) {
                row.push(u);
                proof {
                    assert forall|x: int| 0 <= x < n implies (row@.contains(x as usize) <==> (x < u + 1
                        && succs@[x]@.contains(v))) by {
                        if row@.contains(x as usize) && x != u {
                            let k = choose|k: int| 0 <= k < row@.len() && row@[k] == x as usize;
                            assert(before[k] == x as usize);
                        }
                        if x < u && succs@[x]@.contains(v) {
                            let k = choose|k: int| 0 <= k < before.len() && before[k] == x as usize;
                            assert(row@[k] == x as usize);
                        }
                        if x == u {
                            assert(row@[row@.len() - 1] == x as usize);
                        }
                    }
                }
            }
            u += 1;
        }
        r.push(row);
        v += 1;
    }
    r
}

impl IndexedGraph {
    /// The graph `g` with its nodes numbered in the order they were added.
    /// A neighbour name that no node carries is an error.
    pub fn from_graph(g: &DiGraph) -> (r: Result<IndexedGraph, GraphError>)
        requires
            g.wf(),
        ensures
            match r {
                Ok(ix) => ix.wf() && ix.models(g@) && g@.closed(),
                Err(GraphError::UnknownNode(k)) => !g@.closed() && g@.mentions(k@) && !g@.has_node(k@),
            },
    {
        let names = g.get_nodes();
        let n = names.len();
        let ghost gv = g@;
        let mut weights: Vec<Option<String>> = Vec::new();
        let mut succs: Vec<Vec<usize>> = Vec::new();
        let mut i: usize = 0;
        proof {
            assert(texts(names@).len() == names@.len());
            assert forall|k: int| 0 <= k < n implies names@[k]@ == #[trigger] gv.nodes[k].name by {
                assert(texts(names@)[k] == gv.names()[k]);
            }
        }
        while i < n
            invariant
                n == names@.len(),
                n == gv.nodes.len(),
                gv == g@,
                gv.wf(),
                forall|k: int| 0 <= k < n ==> names@[k]@ == #[trigger] gv.nodes[k].name,
                i <= n,
                weights@.len() == i,
                succs@.len() == i,
                forall|k: int| 0 <= k < i ==> opt_text(#[trigger] weights@[k]) == gv.nodes[k].weight,
                forall|k: int| 0 <= k < i ==> gv.resolves(#[trigger] gv.nodes[k].inputs) && gv.resolves(
                    gv.nodes[k].outputs,
                ),
                lists_within(succs@, n as nat),
                forall|u: int, v: int|
                    #![trigger succs@[u]@.contains(v as usize)]
                    0 <= u < i && 0 <= v < n ==> (succs@[u]@.contains(v as usize)
                        <==> gv.nodes[u].outputs.contains(gv.nodes[v].name)),
            decreases n - i,
        {
            let nd = g.node_at_position(i);
            let ghost nv: DiNodeView = gv.nodes[i as int];
            assert(nd@ == nv);
            let ins = nd.get_predecessors();
            match resolve(&names, &ins) {
                Ok(in_row) => {
                    proof {
                        assert forall|t: int| 0 <= t < ins@.len() implies gv.has_node(
                            #[trigger] nv.inputs[t],
                        ) by {
                            assert(texts(ins@)[t] == ins@[t]@);
                            assert(gv.nodes[in_row@[t] as int].name == nv.inputs[t]);
                        }
                    }
                },
                Err(e) => {
                    proof {
                        if let GraphError::UnknownNode(k) = &e {
                            assert(nv.inputs.contains(k@));
                            assert(gv.mentions(k@));
                            lemma_missing_name(gv, k@);
                            assert(!gv.resolves(nv.inputs)) by {
                                let t = choose|t: int| 0 <= t < nv.inputs.len() && nv.inputs[t] == k@;
                            }
                        }
                    }
                    return Err(e);
                },
            }
            let outs = nd.get_successors();
            let row = match resolve(&names, &outs) {
                Ok(row) => row,
                Err(e) => {
                    proof {
                        if let GraphError::UnknownNode(k) = &e {
                            assert(nv.outputs.contains(k@));
                            assert(gv.mentions(k@));
                            lemma_missing_name(gv, k@);
                            assert(!gv.resolves(nv.outputs)) by {
                                let t = choose|t: int| 0 <= t < nv.outputs.len() && nv.outputs[t] == k@;
                            }
                        }
                    }
                    return Err(e);
                },
            };
            proof {
                assert forall|t: int| 0 <= t < outs@.len() implies gv.has_node(#[trigger] nv.outputs[t]) by {
                    assert(texts(outs@)[t] == outs@[t]@);
                    assert(gv.nodes[row@[t] as int].name == nv.outputs[t]);
                }
                assert forall|a: int, b: int| 0 <= a < b < row@.len() implies row@[a] != row@[b] by {
                    assert(texts(outs@)[a] == outs@[a]@);
                    assert(texts(outs@)[b] == outs@[b]@);
                }
                assert forall|v: int| 0 <= v < n implies (row@.contains(v as usize) <==> nv.outputs.contains(
                    gv.nodes[v].name,
                )) by {
                    if row@.contains(v as usize) {
                        let t = choose|t: int| 0 <= t < row@.len() && row@[t] == v as usize;
                        assert(texts(outs@)[t] == outs@[t]@);
                    }
                    if nv.outputs.contains(gv.nodes[v].name) {
                        let t = choose|t: int| 0 <= t < nv.outputs.len() && nv.outputs[t] == gv.nodes[v].name;
                        assert(texts(outs@)[t] == outs@[t]@);
                        let w = row@[t] as int;
                        assert(names@[w]@ == gv.nodes[w].name);
                        assert(names@[v]@ == gv.nodes[v].name);
                        assert(gv.nodes[w].name == gv.nodes[v].name);
                        assert(row@[t] == v as usize);
                    }
                }
            }
            weights.push(nd.get_weight());
            succs.push(row);
            i += 1;
        }
        let preds = reversed(&succs, n);
        let ix = IndexedGraph { names, weights, succs, preds };
        proof {
            assert forall|a: int, b: int| 0 <= a < n && 0 <= b < n && a != b implies ix.names@[a]@
                != ix.names@[b]@ by {
                assert(names@[a]@ == gv.nodes[a].name);
                assert(names@[b]@ == gv.nodes[b].name);
                assert(gv.nodes[a].name != gv.nodes[b].name);
            }
        }
        Ok(ix)
    }
}

/// Between named nodes, a graph that models `g` counts the edges that
/// `DiGraph::edge_count` reports for `g`.
pub proof fn lemma_models_edge_count(ix: IndexedGraph, g: DiGraphView, x: Seq<char>, y: Seq<char>)
    requires
        ix.wf(),
        ix.models(g),
        g.wf(),
        g.has_node(x),
        g.has_node(y),
    ensures
        ix.named_ec(x, y) == if g.has_edge(x, y) {
            1nat
        } else {
            0nat
        },
{
    let i = g.index_of(x);
    let j = g.index_of(y);
    assert(ix.names@[i]@ == x && ix.names@[j]@ == y);
    if g.has_edge(x, y) {
        assert(ix.has_edge(i, j));
    } else {
        assert forall|a: int, b: int|
            0 <= a < ix.n() && 0 <= b < ix.n() && ix.names@[a]@ == x && ix.names@[b]@ == y implies !ix.has_edge(
            a,
            b,
        ) by {
            assert(ix.names@[a]@ == ix.names@[i]@);
            assert(ix.names@[b]@ == ix.names@[j]@);
        }
    }
}

/// A name that no node carries.
proof fn lemma_missing_name(g: DiGraphView, k: Seq<char>)
    requires
        forall|i: int| 0 <= i < g.nodes.len() ==> g.nodes[i].name != k,
    ensures
        !g.has_node(k),
{
}

} // verus!
