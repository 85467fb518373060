//! A directed graph that holds its nodes in the order they were added, each
//! known by a name that no other node carries.
use vstd::prelude::*;
use crate::graph::node::{opt_text, DiNode, DiNodeView};
use crate::graph::GraphError;

verus! {

/// What a graph holds, as text.
pub ghost struct DiGraphView {
    pub name: Option<Seq<char>>,
    pub nodes: Seq<DiNodeView>,
}

/// A node named `x` with no neighbours and no weight.
pub open spec fn fresh_node(x: Seq<char>) -> DiNodeView {
    DiNodeView { name: x, inputs: seq![], outputs: seq![], weight: None }
}

/// `s` with `x` added at the end unless it is there.
pub open spec fn added(s: Seq<Seq<char>>, x: Seq<char>) -> Seq<Seq<char>> {
    if s.contains(x) {
        s
    } else {
        s.push(x)
    }
}

impl DiGraphView {
    /// Some node is named `x`.
    pub open spec fn has_node(self, x: Seq<char>) -> bool {
        exists|i: int| 0 <= i < self.nodes.len() && self.nodes[i].name == x
    }

    /// The position of the node named `x`.
    pub open spec fn index_of(self, x: Seq<char>) -> int {
        choose|i: int| 0 <= i < self.nodes.len() && self.nodes[i].name == x
    }

    /// The node named `x` lists `y` among its successors.
    pub open spec fn has_edge(self, x: Seq<char>, y: Seq<char>) -> bool {
        self.has_node(x) && self.nodes[self.index_of(x)].outputs.contains(y)
    }

    /// The names of the nodes, in order.
    pub open spec fn names(self) -> Seq<Seq<char>> {
        self.nodes.map_values(|n: DiNodeView| n.name)
    }

    /// The graph with a node named `x` added at the end, unless there is one.
    pub open spec fn with_node(self, x: Seq<char>) -> DiGraphView {
        if self.has_node(x) {
            self
        } else {
            DiGraphView { nodes: self.nodes.push(fresh_node(x)), ..self }
        }
    }

    /// The graph, which has nodes named `x` and `y`, with `y` added to the
    /// successors of `x` and then `x` to the predecessors of `y`.
    pub open spec fn linked(self, x: Seq<char>, y: Seq<char>) -> DiGraphView {
        let i = self.index_of(x);
        let ni = self.nodes[i];
        let s1 = self.nodes.update(i, DiNodeView { outputs: added(ni.outputs, y), ..ni });
        let j = self.index_of(y);
        let nj = s1[j];
        DiGraphView { nodes: s1.update(j, DiNodeView { inputs: added(nj.inputs, x), ..nj }), ..self }
    }

    /// The graph after `add_edge(from, to)`.
    pub open spec fn edge_added(self, from: Option<Seq<char>>, to: Option<Seq<char>>) -> DiGraphView {
        let g1 = match from {
            Some(x) => self.with_node(x),
            None => self,
        };
        let g2 = match to {
            Some(y) => g1.with_node(y),
            None => g1,
        };
        match (from, to) {
            (Some(x), Some(y)) => g2.linked(x, y),
            _ => g2,
        }
    }

    /// Every neighbour that a node lists is a node of the graph.
    pub open spec fn closed(self) -> bool {
        forall|i: int|
            0 <= i < self.nodes.len() ==> self.resolves((#[trigger] self.nodes[i]).inputs)
                && self.resolves(self.nodes[i].outputs)
    }

    /// Some node lists `k` as a neighbour.
    pub open spec fn mentions(self, k: Seq<char>) -> bool {
        exists|i: int|
            0 <= i < self.nodes.len() && ((#[trigger] self.nodes[i]).inputs.contains(k)
                || self.nodes[i].outputs.contains(k))
    }

    /// Every name of `list` is the name of a node.
    pub open spec fn resolves(self, list: Seq<Seq<char>>) -> bool {
        forall|t: int| 0 <= t < list.len() ==> self.has_node(#[trigger] list[t])
    }

    /// Names are distinct and no node lists a neighbour twice.
    pub open spec fn wf(self) -> bool {
        &&& forall|i: int, j: int|
            0 <= i < self.nodes.len() && 0 <= j < self.nodes.len() && i != j ==> self.nodes[i].name
                != self.nodes[j].name
        &&& forall|i: int|
            0 <= i < self.nodes.len() ==> (#[trigger] self.nodes[i]).inputs.no_duplicates()
                && self.nodes[i].outputs.no_duplicates()
    }
}

/// In a graph with distinct names, the node named `x` is the one at `i`.
pub proof fn lemma_index_of(g: DiGraphView, i: int)
    requires
        g.wf(),
        0 <= i < g.nodes.len(),
    ensures
        g.has_node(g.nodes[i].name),
        g.index_of(g.nodes[i].name) == i,
{
    let x = g.nodes[i].name;
    assert(g.nodes[i].name == x);
    let k = g.index_of(x);
    assert(0 <= k < g.nodes.len() && g.nodes[k].name == x);
}

/// After `with_node(y)` the graph has the nodes it had and one named `y`.
pub proof fn lemma_with_node(g: DiGraphView, y: Seq<char>, x: Seq<char>)
    ensures
        g.with_node(y).has_node(x) <==> (g.has_node(x) || x == y),
{
    let h = g.with_node(y);
    if !g.has_node(y) {
        assert(h.nodes[h.nodes.len() - 1].name == y);
        if g.has_node(x) {
            let i = choose|i: int| 0 <= i < g.nodes.len() && g.nodes[i].name == x;
            assert(h.nodes[i].name == x);
        }
        if h.has_node(x) && x != y {
            let i = choose|i: int| 0 <= i < h.nodes.len() && h.nodes[i].name == x;
            assert(i < g.nodes.len());
            assert(g.nodes[i].name == x);
        }
    }
}

/// A directed graph.
pub struct DiGraph {
    name: Option<String>,
    nodes: Vec<DiNode>,
}

impl View for DiGraph {
    type V = DiGraphView;

    closed spec fn view(&self) -> DiGraphView {
        DiGraphView { name: opt_text(self.name), nodes: self.nodes@.map_values(|n: DiNode| n@) }
    }
}

impl DiGraph {
    pub open spec fn wf(&self) -> bool {
        self@.wf()
    }

    /// An empty graph.
    pub fn new(name: Option<String>) -> (r: DiGraph)
        ensures
            r.wf(),
            r@ == (DiGraphView { name: opt_text(name), nodes: seq![] }),
    {
        let r = DiGraph { name, nodes: Vec::new() };
        assert(r@.nodes =~= seq![]);
        r
    }

    pub fn get_name(&self) -> (r: Option<String>)
        ensures
            opt_text(r) == self@.name,
    {
        crate::graph::node::copy_opt(&self.name)
    }

    pub fn set_name(&mut self, name: Option<&str>)
        ensures
            final(self)@.nodes == old(self)@.nodes,
            final(self)@.name == match name {
                Some(s) => Some(s@),
                None => None::<Seq<char>>,
            },
    {
        match name {
            Some(s) => self.name = Some(s.to_owned()),
            None => self.name = None,
        }
    }

    /// The position of the node named `name`.
    fn find(&self, name: &str) -> (r: Option<usize>)
        requires
            self.wf(),
        ensures
            match r {
                Some(i) => i < self@.nodes.len() && self@.has_node(name@) && self@.index_of(name@)
                    == i,
                None => !self@.has_node(name@),
            },
    {
        let target = name.to_owned();
        let mut i: usize = 0;
        while i < self.nodes.len()
            invariant
                self.wf(),
                target@ == name@,
                i <= self@.nodes.len(),
                forall|k: int| 0 <= k < i ==> self@.nodes[k].name != name@,
            decreases self@.nodes.len() - i,
        {
            let nm = self.nodes[i].get_name();
            assert(self@.nodes[i as int] == self.nodes@[i as int]@);
            if nm.eq(&target) {
                proof {
                    lemma_index_of(self@, i as int);
                }
                return Some(i);
            }
            i += 1;
        }
        None
    }

    /// Adds `node`, in place of the node of the same name if there is one.
    pub fn add_node(&mut self, node: DiNode)
        requires
            old(self).wf(),
            node.wf(),
        ensures
            final(self).wf(),
            final(self)@.name == old(self)@.name,
            final(self)@.nodes == if old(self)@.has_node(node@.name) {
                old(self)@.nodes.update(old(self)@.index_of(node@.name), node@)
            } else {
                old(self)@.nodes.push(node@)
            },
    {
        let nm = node.get_name();
        match self.find(nm.as_str()) {
            Some(i) => {
                self.nodes.set(i, node);
                assert(self@.nodes =~= old(self)@.nodes.update(i as int, node@));
            },
            None => {
                self.nodes.push(node);
                assert(self@.nodes =~= old(self)@.nodes.push(node@));
            },
        }
    }

    /// Adds a node named `name` with no neighbours, unless there is one.
    fn ensure_node(&mut self, name: &str)
        requires
            old(self).wf(),
        ensures
            final(self).wf(),
            final(self)@ == old(self)@.with_node(name@),
    {
        if self.find(name).is_none() {
            self.nodes.push(DiNode::new(name, None));
            assert(self@.nodes =~= old(self)@.nodes.push(fresh_node(name@)));
        }
    }

    /// Adds the nodes named `from` and `to` where missing, and an edge from
    /// the first to the second where both are given.
    pub fn add_edge(&mut self, from: Option<&str>, to: Option<&str>)
        requires
            old(self).wf(),
        ensures
            final(self).wf(),
            final(self)@ == old(self)@.edge_added(
                match from {
                    Some(x) => Some(x@),
                    None => None::<Seq<char>>,
                },
                match to {
                    Some(y) => Some(y@),
                    None => None::<Seq<char>>,
                },
            ),
    {
        if let Some(a) = from {
            self.ensure_node(a);
        }
        if let Some(b) = to {
            self.ensure_node(b);
        }
        if let (Some(a), Some(b)) = (from, to) {
            let ghost g2 = self@;
            proof {
                lemma_with_node(old(self)@, a@, a@);
                lemma_with_node(old(self)@.with_node(a@), b@, a@);
                lemma_with_node(old(self)@.with_node(a@), b@, b@);
            }
            let i = match self.find(a) {
                Some(i) => i,
                None => {
                    return;
                },
            };
            let ghost ni = self@.nodes[i as int];
            self.nodes[i].add_successor(b);
            let ghost s1 = g2.nodes.update(i as int, DiNodeView { outputs: added(ni.outputs, b@), ..ni });
            assert(self@.nodes =~= s1);
            let j = match self.find(b) {
                Some(j) => j,
                None => {
                    return;
                },
            };
            proof {
                lemma_index_of(g2, j as int);
            }
            let ghost nj = self@.nodes[j as int];
            self.nodes[j].add_predecessor(a);
            assert(self@.nodes =~= s1.update(j as int, DiNodeView { inputs: added(nj.inputs, a@), ..nj }));
        }
    }

    /// The node named `name`, if any.
    pub fn get_node(&self, name: &str) -> (r: Option<&DiNode>)
        requires
            self.wf(),
        ensures
            match r {
                Some(nd) => self@.has_node(name@) && nd@ == self@.nodes[self@.index_of(name@)],
                None => !self@.has_node(name@),
            },
    {
        match self.find(name) {
            Some(i) => Some(&self.nodes[i]),
            None => None,
        }
    }

    /// The names of the nodes, in the order they were added.
    pub fn get_nodes(&self) -> (r: Vec<String>)
        ensures
            crate::graph::node::texts(r@) == self@.names(),
    {
        let mut r: Vec<String> = Vec::new();
        let mut i: usize = 0;
        while i < self.nodes.len()
            invariant
                i <= self@.nodes.len(),
                r@.len() == i,
                forall|k: int| 0 <= k < i ==> #[trigger] r@[k]@ == self@.nodes[k].name,
            decreases self@.nodes.len() - i,
        {
            r.push(self.nodes[i].get_name());
            i += 1;
        }
        assert(crate::graph::node::texts(r@) =~= self@.names());
        r
    }

    pub fn node_count(&self) -> (r: usize)
        ensures
            r == self@.nodes.len(),
    {
        self.nodes.len()
    }

    /// The node at position `i`, in the order the nodes were added.
    pub fn node_at_position(&self, i: usize) -> (r: &DiNode)
        requires
            i < self@.nodes.len(),
        ensures
            r@ == self@.nodes[i as int],
    {
        &self.nodes[i]
    }

    /// Whether some node is named `name`.
    pub fn contains_node(&self, name: &str) -> (r: bool)
        requires
            self.wf(),
        ensures
            r == self@.has_node(name@),
    {
        self.find(name).is_some()
    }

    /// The nodes named in `list`, in order; the first name that no node
    /// carries is an error.
    fn nodes_named(&self, list: &Vec<String>) -> (r: Result<Vec<&DiNode>, GraphError>)
        requires
            self.wf(),
        ensures
            match r {
                Ok(v) => {
                    &&& self@.resolves(crate::graph::node::texts(list@))
                    &&& v@.len() == list@.len()
                    &&& forall|t: int|
                        0 <= t < v@.len() ==> (#[trigger] v@[t])@ == self@.nodes[self@.index_of(
                            list@[t]@,
                        )]
                },
                Err(GraphError::UnknownNode(k)) => {
                    &&& !self@.resolves(crate::graph::node::texts(list@))
                    &&& crate::graph::node::texts(list@).contains(k@)
                    &&& !self@.has_node(k@)
                },
            },
    {
        let mut v: Vec<&DiNode> = Vec::new();
        let mut t: usize = 0;
        while t < list.len()
            invariant
                self.wf(),
                t <= list@.len(),
                v@.len() == t,
                forall|k: int| 0 <= k < t ==> self@.has_node(#[trigger] list@[k]@),
                forall|k: int|
                    0 <= k < t ==> (#[trigger] v@[k])@ == self@.nodes[self@.index_of(list@[k]@)],
            decreases list@.len() - t,
        {
            match self.find(list[t].as_str()) {
                Some(i) => {
                    v.push(&self.nodes[i]);
                },
                None => {
                    proof {
                        let ts = crate::graph::node::texts(list@);
                        assert(ts[t as int] == list@[t as int]@);
                    }
                    return Err(GraphError::UnknownNode(list[t].clone()));
                },
            }
            t += 1;
        }
        proof {
            let ts = crate::graph::node::texts(list@);
            assert forall|k: int| 0 <= k < ts.len() implies self@.has_node(#[trigger] ts[k]) by {
                assert(ts[k] == list@[k]@);
            }
        }
        Ok(v)
    }

    /// The nodes that the node named `name` lists as its predecessors.
    pub fn predecessors(&self, name: &str) -> (r: Result<Vec<&DiNode>, GraphError>)
        requires
            self.wf(),
        ensures
            r is Ok <==> self@.has_node(name@) && self@.resolves(
                self@.nodes[self@.index_of(name@)].inputs,
            ),
            r matches Ok(v) ==> {
                let ins = self@.nodes[self@.index_of(name@)].inputs;
                &&& v@.len() == ins.len()
                &&& forall|t: int|
                    0 <= t < v@.len() ==> (#[trigger] v@[t])@ == self@.nodes[self@.index_of(ins[t])]
            },
            r matches Err(GraphError::UnknownNode(k)) ==> {
                ||| !self@.has_node(name@) && k@ == name@
                ||| self@.has_node(name@) && !self@.has_node(k@)
                    && self@.nodes[self@.index_of(name@)].inputs.contains(k@)
            },
    {
        match self.find(name) {
            Some(i) => {
                let list = self.nodes[i].get_predecessors();
                let r = self.nodes_named(&list);
                proof {
                    if let Ok(v) = &r {
                        let ts = crate::graph::node::texts(list@);
                        assert forall|t: int| 0 <= t < v@.len() implies (#[trigger] v@[t])@
                            == self@.nodes[self@.index_of(ts[t])] by {
                            assert(ts[t] == list@[t]@);
                        }
                    }
                }
                r
            },
            None => Err(GraphError::UnknownNode(name.to_owned())),
        }
    }

    /// The nodes that the node named `name` lists as its successors.
    pub fn successors(&self, name: &str) -> (r: Result<Vec<&DiNode>, GraphError>)
        requires
            self.wf(),
        ensures
            r is Ok <==> self@.has_node(name@) && self@.resolves(
                self@.nodes[self@.index_of(name@)].outputs,
            ),
            r matches Ok(v) ==> {
                let outs = self@.nodes[self@.index_of(name@)].outputs;
                &&& v@.len() == outs.len()
                &&& forall|t: int|
                    0 <= t < v@.len() ==> (#[trigger] v@[t])@ == self@.nodes[self@.index_of(outs[t])]
            },
            r matches Err(GraphError::UnknownNode(k)) ==> {
                ||| !self@.has_node(name@) && k@ == name@
                ||| self@.has_node(name@) && !self@.has_node(k@)
                    && self@.nodes[self@.index_of(name@)].outputs.contains(k@)
            },
    {
        match self.find(name) {
            Some(i) => {
                let list = self.nodes[i].get_successors();
                let r = self.nodes_named(&list);
                proof {
                    if let Ok(v) = &r {
                        let ts = crate::graph::node::texts(list@);
                        assert forall|t: int| 0 <= t < v@.len() implies (#[trigger] v@[t])@
                            == self@.nodes[self@.index_of(ts[t])] by {
                            assert(ts[t] == list@[t]@);
                        }
                    }
                }
                r
            },
            None => Err(GraphError::UnknownNode(name.to_owned())),
        }
    }

    /// How many predecessors the node named `name` lists.
    pub fn in_degree(&self, name: &str) -> (r: Result<usize, GraphError>)
        requires
            self.wf(),
        ensures
            match r {
                Ok(d) => self@.has_node(name@) && d == self@.nodes[self@.index_of(name@)].inputs.len(),
                Err(GraphError::UnknownNode(k)) => !self@.has_node(name@) && k@ == name@,
            },
    {
        match self.find(name) {
            Some(i) => Ok(self.nodes[i].in_degree()),
            None => Err(GraphError::UnknownNode(name.to_owned())),
        }
    }

    /// How many successors the node named `name` lists.
    pub fn out_degree(&self, name: &str) -> (r: Result<usize, GraphError>)
        requires
            self.wf(),
        ensures
            match r {
                Ok(d) => self@.has_node(name@) && d == self@.nodes[self@.index_of(name@)].outputs.len(),
                Err(GraphError::UnknownNode(k)) => !self@.has_node(name@) && k@ == name@,
            },
    {
        match self.find(name) {
            Some(i) => Ok(self.nodes[i].out_degree()),
            None => Err(GraphError::UnknownNode(name.to_owned())),
        }
    }

    /// The number of edges from the node named `from` to the one named `to`:
    /// one where the first lists the second as a successor, else none.
    pub fn edge_count(&self, from: &str, to: &str) -> (r: usize)
        requires
            self.wf(),
        ensures
            r == if self@.has_edge(from@, to@) {
                1usize
            } else {
                0usize
            },
    {
        match self.find(from) {
            Some(i) => {
                let outs = self.nodes[i].get_successors();
                let ghost ts = crate::graph::node::texts(outs@);
                assert(ts.no_duplicates());
                let target = to.to_owned();
                let mut count: usize = 0;
                let mut t: usize = 0;
                while t < outs.len()
                    invariant
                        t <= outs@.len(),
                        ts == crate::graph::node::texts(outs@),
                        ts.no_duplicates(),
                        target@ == to@,
                        count == if ts.take(t as int).contains(to@) {
                            1usize
                        } else {
                            0usize
                        },
                    decreases outs@.len() - t,
                {
                    assert(ts[t as int] == outs@[t as int]@);
                    if outs[t].eq(&target) {
                        assert(!ts.take(t as int).contains(to@)) by {
                            if ts.take(t as int).contains(to@) {
                                let k = choose|k: int| 0 <= k < t && ts.take(t as int)[k] == to@;
                                assert(ts[k] == ts[t as int]);
                            }
                        }
                        count += 1;
                    }
                    proof {
                        let next = ts.take(t + 1);
                        assert(next =~= ts.take(t as int).push(ts[t as int]));
                        assert(next[t as int] == ts[t as int]);
                        if next.contains(to@) && ts[t as int] != to@ {
                            let k = choose|k: int| 0 <= k < next.len() && next[k] == to@;
                            assert(ts.take(t as int)[k] == to@);
                        }
                        if ts.take(t as int).contains(to@) {
                            let k = choose|k: int| 0 <= k < t && ts.take(t as int)[k] == to@;
                            assert(next[k] == to@);
                        }
                    }
                    t += 1;
                }
                assert(ts.take(outs@.len() as int) =~= ts);
                count
            },
            None => 0,
        }
    }
}

} // verus!
