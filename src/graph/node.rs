//! A node of a directed graph: a name, the names of its predecessors and
//! successors (each held once), and an optional weight.
use vstd::prelude::*;

verus! {

/// The text of each string.
pub open spec fn texts(v: Seq<String>) -> Seq<Seq<char>> {
    v.map_values(|s: String| s@)
}

/// The text of an optional string.
pub open spec fn opt_text(o: Option<String>) -> Option<Seq<char>> {
    match o {
        Some(s) => Some(s@),
        None => None,
    }
}

/// A copy of `v`, string for string.
pub fn copy_strings(v: &Vec<String>) -> (r: Vec<String>)
    ensures
        texts(r@) == texts(v@),
{
    let mut r: Vec<String> = Vec::new();
    let mut i: usize = 0;
    while i < v.len()
        invariant
            i <= v@.len(),
            r@.len() == i,
            forall|k: int| 0 <= k < i ==> #[trigger] r@[k]@ == v@[k]@,
        decreases v@.len() - i,
    {
        let c = v[i].clone();
        r.push(c);
        i += 1;
    }
    assert(texts(r@) =~= texts(v@));
    r
}

/// A copy of an optional string.
pub fn copy_opt(o: &Option<String>) -> (r: Option<String>)
    ensures
        opt_text(r) == opt_text(*o),
{
    match o {
        Some(s) => Some(s.clone()),
        None => None,
    }
}

/// The position of the string whose text is `x`, if any.
pub fn position_of(v: &Vec<String>, x: &String) -> (r: Option<usize>)
    ensures
        match r {
            Some(i) => i < v@.len() && v@[i as int]@ == x@,
            None => forall|k: int| 0 <= k < v@.len() ==> v@[k]@ != x@,
        },
{
    let mut i: usize = 0;
    while i < v.len()
        invariant
            i <= v@.len(),
            forall|k: int| 0 <= k < i ==> v@[k]@ != x@,
        decreases v@.len() - i,
    {
        if v[i].eq(x) {
            return Some(i);
        }
        i += 1;
    }
    None
}

/// Adds `x` at the end of `v` unless a string with its text is there.
fn insert_once(v: &mut Vec<String>, x: String)
    ensures
        texts(final(v)@) == if texts(old(v)@).contains(x@) {
            texts(old(v)@)
        } else {
            texts(old(v)@).push(x@)
        },
{
    match position_of(v, &x) {
        Some(i) => {
            assert(texts(v@)[i as int] == x@);
        },
        None => {
            assert(!texts(v@).contains(x@));
            v.push(x);
            assert(texts(v@) =~= texts(old(v)@).push(x@));
        },
    }
}

/// Removes the string whose text is `x` from `v`, which holds each text once.
fn remove_once(v: &mut Vec<String>, x: &String)
    requires
        texts(old(v)@).no_duplicates(),
    ensures
        texts(final(v)@).no_duplicates(),
        !texts(final(v)@).contains(x@),
        forall|y: Seq<char>| y != x@ ==> (texts(final(v)@).contains(y) <==> texts(old(v)@).contains(y)),
{
    match position_of(v, x) {
        Some(i) => {
            let ghost before = texts(v@);
            v.remove(i);
            assert(texts(v@) =~= before.remove(i as int));
            assert forall|y: Seq<char>| y != x@ implies (texts(v@).contains(y) <==> before.contains(y)) by {
                if before.contains(y) {
                    let k = choose|k: int| 0 <= k < before.len() && before[k] == y;
                    if k < i {
                        assert(texts(v@)[k] == y);
                    } else {
                        assert(k != i);
                        assert(texts(v@)[k - 1] == y);
                    }
                }
            }
            assert(!texts(v@).contains(x@)) by {
                if texts(v@).contains(x@) {
                    let k = choose|k: int| 0 <= k < texts(v@).len() && texts(v@)[k] == x@;
                    if k < i {
                        assert(before[k] == before[i as int]);
                    } else {
                        assert(before[k + 1] == before[i as int]);
                    }
                }
            }
        },
        None => {
            assert(!texts(v@).contains(x@));
        },
    }
}

/// What a node holds, as text.
pub ghost struct DiNodeView {
    pub name: Seq<char>,
    pub inputs: Seq<Seq<char>>,
    pub outputs: Seq<Seq<char>>,
    pub weight: Option<Seq<char>>,
}

/// A node of a directed graph.
pub struct DiNode {
    name: String,
    inputs: Vec<String>,
    outputs: Vec<String>,
    weight: Option<String>,
}

impl View for DiNode {
    type V = DiNodeView;

    closed spec fn view(&self) -> DiNodeView {
        DiNodeView {
            name: self.name@,
            inputs: texts(self.inputs@),
            outputs: texts(self.outputs@),
            weight: opt_text(self.weight),
        }
    }
}

impl DiNode {
    /// Each predecessor and each successor is held once.
    pub open spec fn wf(&self) -> bool {
        &&& self@.inputs.no_duplicates()
        &&& self@.outputs.no_duplicates()
    }

    /// A node named `name` with no neighbours.
    pub fn new(name: &str, weight: Option<String>) -> (r: DiNode)
        ensures
            r.wf(),
            r@ == (DiNodeView {
                name: name@,
                inputs: seq![],
                outputs: seq![],
                weight: opt_text(weight),
            }),
    {
        let r = DiNode { name: name.to_owned(), inputs: Vec::new(), outputs: Vec::new(), weight };
        assert(r@.inputs =~= seq![]);
        assert(r@.outputs =~= seq![]);
        r
    }

    pub fn get_name(&self) -> (r: String)
        ensures
            r@ == self@.name,
    {
        self.name.clone()
    }

    pub fn set_name(&mut self, name: &str)
        ensures
            final(self)@ == (DiNodeView { name: name@, ..old(self)@ }),
    {
        self.name = name.to_owned();
    }

    /// The names of the predecessors.
    pub fn get_predecessors(&self) -> (r: Vec<String>)
        ensures
            texts(r@) == self@.inputs,
    {
        copy_strings(&self.inputs)
    }

    /// Adds `name` to the predecessors unless it is there.
    pub fn add_predecessor(&mut self, name: &str)
        requires
            old(self).wf(),
        ensures
            final(self).wf(),
            final(self)@ == (DiNodeView {
                inputs: if old(self)@.inputs.contains(name@) {
                    old(self)@.inputs
                } else {
                    old(self)@.inputs.push(name@)
                },
                ..old(self)@
            }),
    {
        insert_once(&mut self.inputs, name.to_owned());
        proof {
            if !old(self)@.inputs.contains(name@) {
                assert forall|a: int, b: int|
                    0 <= a < b < self@.inputs.len() implies self@.inputs[a] != self@.inputs[b] by {
                    if b == self@.inputs.len() - 1 {
                        assert(old(self)@.inputs[a] == self@.inputs[a]);
                    }
                }
            }
        }
    }

    /// Removes `name` from the predecessors.
    pub fn remove_predecessor(&mut self, name: &str)
        requires
            old(self).wf(),
        ensures
            final(self).wf(),
            final(self)@.name == old(self)@.name,
            final(self)@.outputs == old(self)@.outputs,
            final(self)@.weight == old(self)@.weight,
            !final(self)@.inputs.contains(name@),
            forall|y: Seq<char>|
                y != name@ ==> (final(self)@.inputs.contains(y) <==> old(self)@.inputs.contains(y)),
    {
        remove_once(&mut self.inputs, &name.to_owned());
    }

    /// The names of the successors.
    pub fn get_successors(&self) -> (r: Vec<String>)
        ensures
            texts(r@) == self@.outputs,
    {
        copy_strings(&self.outputs)
    }

    /// Adds `name` to the successors unless it is there.
    pub fn add_successor(&mut self, name: &str)
        requires
            old(self).wf(),
        ensures
            final(self).wf(),
            final(self)@ == (DiNodeView {
                outputs: if old(self)@.outputs.contains(name@) {
                    old(self)@.outputs
                } else {
                    old(self)@.outputs.push(name@)
                },
                ..old(self)@
            }),
    {
        insert_once(&mut self.outputs, name.to_owned());
        proof {
            if !old(self)@.outputs.contains(name@) {
                assert forall|a: int, b: int|
                    0 <= a < b < self@.outputs.len() implies self@.outputs[a] != self@.outputs[b] by {
                    if b == self@.outputs.len() - 1 {
                        assert(old(self)@.outputs[a] == self@.outputs[a]);
                    }
                }
            }
        }
    }

    /// Removes `name` from the successors.
    pub fn remove_successor(&mut self, name: &str)
        requires
            old(self).wf(),
        ensures
            final(self).wf(),
            final(self)@.name == old(self)@.name,
            final(self)@.inputs == old(self)@.inputs,
            final(self)@.weight == old(self)@.weight,
            !final(self)@.outputs.contains(name@),
            forall|y: Seq<char>|
                y != name@ ==> (final(self)@.outputs.contains(y) <==> old(self)@.outputs.contains(y)),
    {
        remove_once(&mut self.outputs, &name.to_owned());
    }

    pub fn in_degree(&self) -> (r: usize)
        ensures
            r == self@.inputs.len(),
    {
        self.inputs.len()
    }

    pub fn out_degree(&self) -> (r: usize)
        ensures
            r == self@.outputs.len(),
    {
        self.outputs.len()
    }

    pub fn get_weight(&self) -> (r: Option<String>)
        ensures
            opt_text(r) == self@.weight,
    {
        copy_opt(&self.weight)
    }
}

} // verus!
