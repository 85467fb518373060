//! The matcher's state as mathematical sequences, the two transitions that
//! the search applies to it (extend and restore), and the facts that hold of
//! every state the search reaches.
use vstd::prelude::*;
use crate::algorithm::adjacency::IndexedGraph;

verus! {

/// The pairs `(i, j)` with `core[i] == Some(j)`, by increasing `i`.
pub open spec fn mapped_pairs(core: Seq<Option<usize>>) -> Seq<(usize, usize)>
    decreases core.len(),
{
    if core.len() == 0 {
        seq![]
    } else {
        let rest = mapped_pairs(core.drop_last());
        match core.last() {
            Some(j) => rest.push(((core.len() - 1) as usize, j)),
            None => rest,
        }
    }
}

/// The number of keys that a mapping table maps.
pub open spec fn core_size(core: Seq<Option<usize>>) -> nat {
    mapped_pairs(core).len()
}

/// Some node of `nbrs` is mapped in `core`.
pub open spec fn touches_core(core: Seq<Option<usize>>, nbrs: Seq<usize>) -> bool {
    exists|t: int| 0 <= t < nbrs.len() && (#[trigger] core[nbrs[t] as int]) is Some
}

/// A frontier table after the node `p` was mapped at depth `d`: entries that
/// were present keep their depth; `p` and every unmapped node with a mapped
/// neighbour in `adj` enter with depth `d`.
pub open spec fn grown(
    f: Seq<Option<usize>>,
    core: Seq<Option<usize>>,
    adj: Seq<Vec<usize>>,
    p: int,
    d: nat,
) -> Seq<Option<usize>> {
    Seq::new(
        f.len(),
        |i: int|
            if f[i] is Some {
                f[i]
            } else if i == p || (core[i] is None && touches_core(core, adj[i]@)) {
                Some(d as usize)
            } else {
                None
            },
    )
}

/// A frontier table without the entries of depth `d`.
pub open spec fn shrunk(f: Seq<Option<usize>>, d: nat) -> Seq<Option<usize>> {
    Seq::new(f.len(), |i: int| if f[i] == Some(d as usize) { None } else { f[i] })
}

/// Every entry of a frontier table is below `d`.
pub open spec fn entries_below(f: Seq<Option<usize>>, d: nat) -> bool {
    forall|i: int| 0 <= i < f.len() && (#[trigger] f[i]) is Some ==> f[i]->0 < d
}

/// The state of a search: the partial mapping in both directions, the four
/// frontier tables (the depth at which each node entered), and the depth.
pub ghost struct MatchState {
    pub core_1: Seq<Option<usize>>,
    pub core_2: Seq<Option<usize>>,
    pub in_1: Seq<Option<usize>>,
    pub in_2: Seq<Option<usize>>,
    pub out_1: Seq<Option<usize>>,
    pub out_2: Seq<Option<usize>>,
    pub depth: nat,
}

impl MatchState {
    /// The state before any pair is mapped.
    pub open spec fn empty(n1: nat, n2: nat) -> MatchState {
        MatchState {
            core_1: Seq::new(n1, |i: int| None),
            core_2: Seq::new(n2, |i: int| None),
            in_1: Seq::new(n1, |i: int| None),
            in_2: Seq::new(n2, |i: int| None),
            out_1: Seq::new(n1, |i: int| None),
            out_2: Seq::new(n2, |i: int| None),
            depth: 0,
        }
    }

    /// Both mapping tables map as many keys, and that number is the depth.
    pub open spec fn sizes_agree(self) -> bool {
        &&& core_size(self.core_1) == core_size(self.core_2)
        &&& core_size(self.core_1) == self.depth
    }

    /// The two mapping tables are inverse to each other.
    pub open spec fn cores_inverse(self) -> bool {
        &&& forall|i: int|
            0 <= i < self.core_1.len() && (#[trigger] self.core_1[i]) is Some ==> {
                &&& self.core_1[i]->0 < self.core_2.len()
                &&& self.core_2[self.core_1[i]->0 as int] == Some(i as usize)
            }
        &&& forall|j: int|
            0 <= j < self.core_2.len() && (#[trigger] self.core_2[j]) is Some ==> {
                &&& self.core_2[j]->0 < self.core_1.len()
                &&& self.core_1[self.core_2[j]->0 as int] == Some(j as usize)
            }
    }

    /// Every frontier entry was made at a depth below the current one.
    pub open spec fn depths_bounded(self) -> bool {
        &&& entries_below(self.in_1, self.depth)
        &&& entries_below(self.in_2, self.depth)
        &&& entries_below(self.out_1, self.depth)
        &&& entries_below(self.out_2, self.depth)
    }

    /// The tables fit graphs of `n1` and `n2` nodes, and the three facts above hold.
    pub open spec fn wf(self, n1: nat, n2: nat) -> bool {
        &&& self.core_1.len() == n1
        &&& self.in_1.len() == n1
        &&& self.out_1.len() == n1
        &&& self.core_2.len() == n2
        &&& self.in_2.len() == n2
        &&& self.out_2.len() == n2
        &&& self.sizes_agree()
        &&& self.cores_inverse()
        &&& self.depths_bounded()
    }

    /// Between mapped nodes, `g1` has an edge exactly where `g2` has one
    /// between their images.
    pub open spec fn consistent(self, g1: IndexedGraph, g2: IndexedGraph) -> bool {
        forall|a: int, b: int|
            0 <= a < self.core_1.len() && 0 <= b < self.core_1.len() && (#[trigger] self.core_1[a])
                is Some && (#[trigger] self.core_1[b]) is Some ==> (g1.has_edge(a, b)
                <==> g2.has_edge(self.core_1[a]->0 as int, self.core_1[b]->0 as int))
    }

    /// The state after mapping `p` (of `g1`) to `h` (of `g2`).
    pub open spec fn extended(self, g1: IndexedGraph, g2: IndexedGraph, p: int, h: int) -> MatchState {
        let c1 = self.core_1.update(p, Some(h as usize));
        let c2 = self.core_2.update(h, Some(p as usize));
        MatchState {
            core_1: c1,
            core_2: c2,
            in_1: grown(self.in_1, c1, g1.succs@, p, self.depth),
            in_2: grown(self.in_2, c2, g2.succs@, h, self.depth),
            out_1: grown(self.out_1, c1, g1.preds@, p, self.depth),
            out_2: grown(self.out_2, c2, g2.preds@, h, self.depth),
            depth: self.depth + 1,
        }
    }

    /// The state after undoing the level of depth `d`, which mapped `p` to
    /// `h` where both are given.
    pub open spec fn restored(self, p: Option<usize>, h: Option<usize>, d: nat) -> MatchState {
        let paired = p is Some && h is Some;
        MatchState {
            core_1: if paired { self.core_1.update(p->0 as int, None) } else { self.core_1 },
            core_2: if paired { self.core_2.update(h->0 as int, None) } else { self.core_2 },
            in_1: shrunk(self.in_1, d),
            in_2: shrunk(self.in_2, d),
            out_1: shrunk(self.out_1, d),
            out_2: shrunk(self.out_2, d),
            depth: if paired { d } else { self.depth },
        }
    }
}

/// A mapping table maps at most as many keys as it has.
pub proof fn lemma_core_size_bound(core: Seq<Option<usize>>)
    ensures
        core_size(core) <= core.len(),
    decreases core.len(),
{
    if core.len() > 0 {
        lemma_core_size_bound(core.drop_last());
    }
}

/// The listed pairs are exactly the mapped entries, by increasing key.
pub proof fn lemma_mapped_pairs(core: Seq<Option<usize>>)
    requires
        core.len() <= usize::MAX,
    ensures
        forall|k: int|
            0 <= k < mapped_pairs(core).len() ==> {
                &&& (#[trigger] mapped_pairs(core)[k]).0 < core.len()
                &&& core[mapped_pairs(core)[k].0 as int] == Some(mapped_pairs(core)[k].1)
            },
        forall|a: int, b: int|
            0 <= a < b < mapped_pairs(core).len() ==> (#[trigger] mapped_pairs(core)[a]).0
                < (#[trigger] mapped_pairs(core)[b]).0,
    decreases core.len(),
{
    if core.len() > 0 {
        let rest = core.drop_last();
        let mr = mapped_pairs(rest);
        let m = mapped_pairs(core);
        lemma_mapped_pairs(rest);
        assert forall|k: int| 0 <= k < mr.len() implies #[trigger] m[k] == mr[k] && mr[k].0
            < rest.len() && core[mr[k].0 as int] == rest[mr[k].0 as int] by {}
        if core.last() is Some {
            assert(m.len() == mr.len() + 1);
            assert(m[mr.len() as int].0 == core.len() - 1);
        }
        assert forall|k: int| 0 <= k < m.len() implies {
            &&& (#[trigger] m[k]).0 < core.len()
            &&& core[m[k].0 as int] == Some(m[k].1)
        } by {
            if k < mr.len() {
                assert(m[k] == mr[k]);
            }
        }
        assert forall|a: int, b: int| 0 <= a < b < m.len() implies (#[trigger] m[a]).0
            < (#[trigger] m[b]).0 by {
            assert(m[a] == mr[a]);
            if b < mr.len() {
                assert(m[b] == mr[b]);
            }
        }
    }
}

/// Mapping one more key adds one to the size.
pub proof fn lemma_core_size_insert(core: Seq<Option<usize>>, p: int, v: usize)
    requires
        0 <= p < core.len(),
        core[p] is None,
    ensures
        core_size(core.update(p, Some(v))) == core_size(core) + 1,
    decreases core.len(),
{
    let up = core.update(p, Some(v));
    if p == core.len() - 1 {
        assert(up.drop_last() =~= core.drop_last());
    } else {
        assert(up.drop_last() =~= core.drop_last().update(p, Some(v)));
        lemma_core_size_insert(core.drop_last(), p, v);
    }
}

/// Unmapping a key takes one from the size.
pub proof fn lemma_core_size_remove(core: Seq<Option<usize>>, p: int)
    requires
        0 <= p < core.len(),
        core[p] is Some,
    ensures
        core_size(core.update(p, None)) + 1 == core_size(core),
{
    let down = core.update(p, None);
    lemma_core_size_insert(down, p, core[p]->0);
    assert(down.update(p, Some(core[p]->0)) =~= core);
}

/// Extending a well-formed state by a pair of unmapped nodes gives a
/// well-formed state.
pub proof fn lemma_extended_wf(s: MatchState, g1: IndexedGraph, g2: IndexedGraph, p: int, h: int)
    requires
        g1.wf(),
        g2.wf(),
        s.wf(g1.n(), g2.n()),
        0 <= p < g1.n(),
        0 <= h < g2.n(),
        s.core_1[p] is None,
        s.core_2[h] is None,
    ensures
        s.extended(g1, g2, p, h).wf(g1.n(), g2.n()),
{
    let e = s.extended(g1, g2, p, h);
    lemma_core_size_insert(s.core_1, p, h as usize);
    lemma_core_size_insert(s.core_2, h, p as usize);
    lemma_core_size_bound(s.core_2);
    assert forall|i: int| 0 <= i < e.core_1.len() && (#[trigger] e.core_1[i]) is Some implies {
        &&& e.core_1[i]->0 < e.core_2.len()
        &&& e.core_2[e.core_1[i]->0 as int] == Some(i as usize)
    } by {
        if i != p {
            assert(s.core_1[i] is Some);
            assert(s.core_1[i]->0 != h);
        }
    }
    assert forall|j: int| 0 <= j < e.core_2.len() && (#[trigger] e.core_2[j]) is Some implies {
        &&& e.core_2[j]->0 < e.core_1.len()
        &&& e.core_1[e.core_2[j]->0 as int] == Some(j as usize)
    } by {
        if j != h {
            assert(s.core_2[j] is Some);
            assert(s.core_2[j]->0 != p);
        }
    }
    assert(entries_below(e.in_1, e.depth));
    assert(entries_below(e.in_2, e.depth));
    assert(entries_below(e.out_1, e.depth));
    assert(entries_below(e.out_2, e.depth));
}

/// Undoing the last level of a well-formed state gives a well-formed state.
pub proof fn lemma_restored_wf(s: MatchState, n1: nat, n2: nat, p: Option<usize>, h: Option<usize>, d: nat)
    requires
        s.wf(n1, n2),
        n1 <= usize::MAX,
        n2 <= usize::MAX,
        p is Some && h is Some ==> {
            &&& p->0 < n1
            &&& s.core_1[p->0 as int] == Some(h->0)
            &&& d + 1 == s.depth
        },
    ensures
        s.restored(p, h, d).wf(n1, n2),
{
    let r = s.restored(p, h, d);
    if p is Some && h is Some {
        let pi = p->0 as int;
        let hi = h->0 as int;
        assert(s.core_2[hi] == Some(p->0));
        lemma_core_size_remove(s.core_1, pi);
        lemma_core_size_remove(s.core_2, hi);
        assert forall|i: int| 0 <= i < r.core_1.len() && (#[trigger] r.core_1[i]) is Some implies {
            &&& r.core_1[i]->0 < r.core_2.len()
            &&& r.core_2[r.core_1[i]->0 as int] == Some(i as usize)
        } by {
            assert(s.core_1[i] is Some);
            assert(s.core_2[s.core_1[i]->0 as int] == Some(i as usize));
            if s.core_1[i]->0 == h->0 {
                assert(s.core_2[hi] == Some(i as usize));
            }
        }
        assert forall|j: int| 0 <= j < r.core_2.len() && (#[trigger] r.core_2[j]) is Some implies {
            &&& r.core_2[j]->0 < r.core_1.len()
            &&& r.core_1[r.core_2[j]->0 as int] == Some(j as usize)
        } by {
            assert(s.core_2[j] is Some);
            assert(s.core_1[s.core_2[j]->0 as int] == Some(j as usize));
            if s.core_2[j]->0 == p->0 {
                assert(s.core_1[pi] == Some(j as usize));
            }
        }
        assert forall|i: int| 0 <= i < r.in_1.len() && (#[trigger] r.in_1[i]) is Some implies r.in_1[i]->0 < r.depth by {
            assert(s.in_1[i] is Some);
        }
        assert forall|i: int| 0 <= i < r.in_2.len() && (#[trigger] r.in_2[i]) is Some implies r.in_2[i]->0 < r.depth by {
            assert(s.in_2[i] is Some);
        }
        assert forall|i: int| 0 <= i < r.out_1.len() && (#[trigger] r.out_1[i]) is Some implies r.out_1[i]->0 < r.depth by {
            assert(s.out_1[i] is Some);
        }
        assert forall|i: int| 0 <= i < r.out_2.len() && (#[trigger] r.out_2[i]) is Some implies r.out_2[i]->0 < r.depth by {
            assert(s.out_2[i] is Some);
        }
    } else {
        assert(r.core_1 == s.core_1);
        assert forall|i: int| 0 <= i < r.in_1.len() && (#[trigger] r.in_1[i]) is Some implies r.in_1[i]->0 < r.depth by {
            assert(s.in_1[i] is Some);
        }
        assert forall|i: int| 0 <= i < r.in_2.len() && (#[trigger] r.in_2[i]) is Some implies r.in_2[i]->0 < r.depth by {
            assert(s.in_2[i] is Some);
        }
        assert forall|i: int| 0 <= i < r.out_1.len() && (#[trigger] r.out_1[i]) is Some implies r.out_1[i]->0 < r.depth by {
            assert(s.out_1[i] is Some);
        }
        assert forall|i: int| 0 <= i < r.out_2.len() && (#[trigger] r.out_2[i]) is Some implies r.out_2[i]->0 < r.depth by {
            assert(s.out_2[i] is Some);
        }
    }
}

/// A frontier table grown at depth `d` and then shrunk at `d` is the table
/// it was, when all its entries were below `d`.
pub proof fn lemma_shrunk_grown(
    f: Seq<Option<usize>>,
    core: Seq<Option<usize>>,
    adj: Seq<Vec<usize>>,
    p: int,
    d: nat,
)
    requires
        entries_below(f, d),
        d <= usize::MAX,
    ensures
        shrunk(grown(f, core, adj, p, d), d) == f,
{
    assert(shrunk(grown(f, core, adj, p, d), d) =~= f);
}

/// Restoring right after extending gives back the state as it was before the
/// extension, table for table and the depth too.
pub proof fn lemma_restore_undoes_extend(
    s: MatchState,
    g1: IndexedGraph,
    g2: IndexedGraph,
    p: usize,
    h: usize,
)
    requires
        g1.wf(),
        g2.wf(),
        s.wf(g1.n(), g2.n()),
        p < g1.n(),
        h < g2.n(),
        s.core_1[p as int] is None,
        s.core_2[h as int] is None,
    ensures
        s.extended(g1, g2, p as int, h as int).restored(Some(p), Some(h), s.depth) == s,
{
    let e = s.extended(g1, g2, p as int, h as int);
    lemma_core_size_bound(s.core_1);
    lemma_shrunk_grown(s.in_1, e.core_1, g1.succs@, p as int, s.depth);
    lemma_shrunk_grown(s.in_2, e.core_2, g2.succs@, h as int, s.depth);
    lemma_shrunk_grown(s.out_1, e.core_1, g1.preds@, p as int, s.depth);
    lemma_shrunk_grown(s.out_2, e.core_2, g2.preds@, h as int, s.depth);
    assert(e.core_1.update(p as int, None) =~= s.core_1);
    assert(e.core_2.update(h as int, None) =~= s.core_2);
}

/// How the look-ahead counts of the two graphs must compare.
#[derive(Clone, Copy, Debug, PartialEq, Eq, Structural)]
pub enum MatchMode {
    /// Graph isomorphism: the counts are equal.
    Graph,
    /// A subgraph of the first graph isomorphic to the second: the first
    /// graph's count is at least the second's.
    Subgraph,
    /// Monomorphism: compared as for `Subgraph`.
    Mono,
}

impl MatchMode {
    pub open spec fn admits(self, a: nat, b: nat) -> bool {
        match self {
            MatchMode::Graph => a == b,
            _ => a >= b,
        }
    }
}

/// How many nodes of `nbrs` are in the frontier table `f` but not mapped in `core`.
pub open spec fn count_terminal(nbrs: Seq<usize>, f: Seq<Option<usize>>, core: Seq<Option<usize>>) -> nat
    decreases nbrs.len(),
{
    if nbrs.len() == 0 {
        0
    } else {
        count_terminal(nbrs.drop_last(), f, core) + if f[nbrs.last() as int] is Some
            && core[nbrs.last() as int] is None {
            1nat
        } else {
            0nat
        }
    }
}

/// How many nodes of `nbrs` are in neither frontier table.
pub open spec fn count_outside(nbrs: Seq<usize>, fin: Seq<Option<usize>>, fout: Seq<Option<usize>>) -> nat
    decreases nbrs.len(),
{
    if nbrs.len() == 0 {
        0
    } else {
        count_outside(nbrs.drop_last(), fin, fout) + if fin[nbrs.last() as int] is None
            && fout[nbrs.last() as int] is None {
            1nat
        } else {
            0nat
        }
    }
}

/// The positions `i < n` with `f[i]` present and `core[i]` absent, increasing.
pub open spec fn terminal(f: Seq<Option<usize>>, core: Seq<Option<usize>>, n: nat) -> Seq<usize>
    decreases n,
{
    if n == 0 {
        seq![]
    } else {
        let r = terminal(f, core, (n - 1) as nat);
        if f[n - 1] is Some && core[n - 1] is None {
            r.push((n - 1) as usize)
        } else {
            r
        }
    }
}

/// The positions `i < n` with `core[i]` absent, increasing.
pub open spec fn unmapped(core: Seq<Option<usize>>, n: nat) -> Seq<usize>
    decreases n,
{
    if n == 0 {
        seq![]
    } else {
        let r = unmapped(core, (n - 1) as nat);
        if core[n - 1] is None {
            r.push((n - 1) as usize)
        } else {
            r
        }
    }
}

/// Every first component of `ps` is taken from `firsts`, in order, and every
/// second component is `h`.
pub open spec fn paired_with(firsts: Seq<usize>, h: usize) -> Seq<(usize, usize)> {
    firsts.map_values(|p: usize| (p, h))
}

impl MatchState {
    /// The candidate pairs of the current state: the out-terminal nodes of
    /// the first graph, each with the least out-terminal node of the second;
    /// failing that, the same for the in-terminal nodes; failing that, every
    /// unmapped node of the first graph with the least unmapped node of the
    /// second.
    pub open spec fn candidates(self) -> Seq<(usize, usize)> {
        let o1 = terminal(self.out_1, self.core_1, self.core_1.len());
        let o2 = terminal(self.out_2, self.core_2, self.core_2.len());
        let i1 = terminal(self.in_1, self.core_1, self.core_1.len());
        let i2 = terminal(self.in_2, self.core_2, self.core_2.len());
        let u1 = unmapped(self.core_1, self.core_1.len());
        let u2 = unmapped(self.core_2, self.core_2.len());
        if o1.len() > 0 && o2.len() > 0 {
            paired_with(o1, o2[0])
        } else if i1.len() > 0 && i2.len() > 0 {
            paired_with(i1, i2[0])
        } else if u2.len() > 0 {
            paired_with(u1, u2[0])
        } else {
            seq![]
        }
    }

    /// Self-loops: `n` and `m` carry as many.
    pub open spec fn self_ok(self, g1: IndexedGraph, g2: IndexedGraph, n: int, m: int) -> bool {
        g1.ec(n, n) == g2.ec(m, m)
    }

    /// Each mapped predecessor of `n` is mapped to a predecessor of `m` with
    /// as many edges, and each mapped predecessor of `m` to a predecessor of `n`.
    pub open spec fn pred_ok(self, g1: IndexedGraph, g2: IndexedGraph, n: int, m: int) -> bool {
        &&& forall|t: int|
            #![trigger g1.preds@[n]@[t]]
            0 <= t < g1.preds@[n]@.len() && self.core_1[g1.preds@[n]@[t] as int] is Some ==> {
                let q = g1.preds@[n]@[t];
                let q2 = self.core_1[q as int]->0;
                &&& g2.preds@[m]@.contains(q2)
                &&& g1.ec(q as int, n) == g2.ec(q2 as int, m)
            }
        &&& forall|t: int|
            #![trigger g2.preds@[m]@[t]]
            0 <= t < g2.preds@[m]@.len() && self.core_2[g2.preds@[m]@[t] as int] is Some ==> {
                let q = g2.preds@[m]@[t];
                let q1 = self.core_2[q as int]->0;
                &&& g1.preds@[n]@.contains(q1)
                &&& g2.ec(q as int, m) == g1.ec(q1 as int, n)
            }
    }

    /// As `pred_ok`, for successors.
    pub open spec fn succ_ok(self, g1: IndexedGraph, g2: IndexedGraph, n: int, m: int) -> bool {
        &&& forall|t: int|
            #![trigger g1.succs@[n]@[t]]
            0 <= t < g1.succs@[n]@.len() && self.core_1[g1.succs@[n]@[t] as int] is Some ==> {
                let q = g1.succs@[n]@[t];
                let q2 = self.core_1[q as int]->0;
                &&& g2.succs@[m]@.contains(q2)
                &&& g1.ec(n, q as int) == g2.ec(m, q2 as int)
            }
        &&& forall|t: int|
            #![trigger g2.succs@[m]@[t]]
            0 <= t < g2.succs@[m]@.len() && self.core_2[g2.succs@[m]@[t] as int] is Some ==> {
                let q = g2.succs@[m]@[t];
                let q1 = self.core_2[q as int]->0;
                &&& g1.succs@[n]@.contains(q1)
                &&& g2.ec(m, q as int) == g1.ec(n, q1 as int)
            }
    }

    /// One-step look-ahead over the in-terminal sets.
    pub open spec fn in_ok(self, g1: IndexedGraph, g2: IndexedGraph, mode: MatchMode, n: int, m: int) -> bool {
        &&& mode.admits(
            count_terminal(g1.preds@[n]@, self.in_1, self.core_1),
            count_terminal(g2.preds@[m]@, self.in_2, self.core_2),
        )
        &&& mode.admits(
            count_terminal(g1.succs@[n]@, self.in_1, self.core_1),
            count_terminal(g2.succs@[m]@, self.in_2, self.core_2),
        )
    }

    /// One-step look-ahead over the out-terminal sets.
    pub open spec fn out_ok(self, g1: IndexedGraph, g2: IndexedGraph, mode: MatchMode, n: int, m: int) -> bool {
        &&& mode.admits(
            count_terminal(g1.preds@[n]@, self.out_1, self.core_1),
            count_terminal(g2.preds@[m]@, self.out_2, self.core_2),
        )
        &&& mode.admits(
            count_terminal(g1.succs@[n]@, self.out_1, self.core_1),
            count_terminal(g2.succs@[m]@, self.out_2, self.core_2),
        )
    }

    /// Two-step look-ahead over the nodes outside both frontier tables.
    pub open spec fn new_ok(self, g1: IndexedGraph, g2: IndexedGraph, mode: MatchMode, n: int, m: int) -> bool {
        &&& mode.admits(
            count_outside(g1.preds@[n]@, self.in_1, self.out_1),
            count_outside(g2.preds@[m]@, self.in_2, self.out_2),
        )
        &&& mode.admits(
            count_outside(g1.succs@[n]@, self.in_1, self.out_1),
            count_outside(g2.succs@[m]@, self.in_2, self.out_2),
        )
    }

    /// All six syntactic tests, in the order in which they are evaluated.
    pub open spec fn syntactic_ok(self, g1: IndexedGraph, g2: IndexedGraph, mode: MatchMode, n: int, m: int) -> bool {
        &&& self.self_ok(g1, g2, n, m)
        &&& self.pred_ok(g1, g2, n, m)
        &&& self.succ_ok(g1, g2, n, m)
        &&& self.in_ok(g1, g2, mode, n, m)
        &&& self.out_ok(g1, g2, mode, n, m)
        &&& self.new_ok(g1, g2, mode, n, m)
    }
}

/// Extending a consistent state by a pair that passes the self-loop,
/// predecessor and successor tests keeps it consistent.
pub proof fn lemma_extended_consistent(s: MatchState, g1: IndexedGraph, g2: IndexedGraph, p: int, h: int)
    requires
        g1.wf(),
        g2.wf(),
        s.wf(g1.n(), g2.n()),
        s.consistent(g1, g2),
        0 <= p < g1.n(),
        0 <= h < g2.n(),
        s.core_1[p] is None,
        s.core_2[h] is None,
        s.self_ok(g1, g2, p, h),
        s.pred_ok(g1, g2, p, h),
        s.succ_ok(g1, g2, p, h),
    ensures
        s.extended(g1, g2, p, h).consistent(g1, g2),
{
    let c1 = s.core_1.update(p, Some(h as usize));
    assert forall|a: int, b: int|
        0 <= a < c1.len() && 0 <= b < c1.len() && (#[trigger] c1[a]) is Some && (#[trigger] c1[b])
            is Some implies (g1.has_edge(a, b) <==> g2.has_edge(c1[a]->0 as int, c1[b]->0 as int)) by {
        if a == p && b != p {
            let y = s.core_1[b]->0;
            assert(s.core_2[y as int] == Some(b as usize));
            if g1.has_edge(a, b) {
                let t = choose|t: int| 0 <= t < g1.succs@[p]@.len() && g1.succs@[p]@[t] == b as usize;
                assert(g1.succs@[p]@[t] == b as usize);
            }
            if g2.has_edge(h, y as int) {
                let t = choose|t: int| 0 <= t < g2.succs@[h]@.len() && g2.succs@[h]@[t] == y;
                assert(g2.succs@[h]@[t] == y);
            }
        } else if a != p && b == p {
            let x = s.core_1[a]->0;
            assert(s.core_2[x as int] == Some(a as usize));
            assert(g1.succs@[a]@.contains(p as usize) <==> g1.preds@[p]@.contains(a as usize));
            assert(g2.succs@[x as int]@.contains(h as usize) <==> g2.preds@[h]@.contains(x));
            if g1.preds@[p]@.contains(a as usize) {
                let t = choose|t: int| 0 <= t < g1.preds@[p]@.len() && g1.preds@[p]@[t] == a as usize;
                assert(g1.preds@[p]@[t] == a as usize);
            }
            if g2.preds@[h]@.contains(x) {
                let t = choose|t: int| 0 <= t < g2.preds@[h]@.len() && g2.preds@[h]@[t] == x;
                assert(g2.preds@[h]@[t] == x);
            }
        } else if a != p && b != p {
            assert(s.core_1[a] is Some && s.core_1[b] is Some);
        }
    }
}

/// The positions listed by `terminal` are below `n`, present in `f` and
/// absent from `core`.
pub proof fn lemma_terminal(f: Seq<Option<usize>>, core: Seq<Option<usize>>, n: nat)
    requires
        n <= f.len(),
        n <= core.len(),
        n <= usize::MAX,
    ensures
        forall|k: int|
            0 <= k < terminal(f, core, n).len() ==> {
                &&& (#[trigger] terminal(f, core, n)[k]) < n
                &&& f[terminal(f, core, n)[k] as int] is Some
                &&& core[terminal(f, core, n)[k] as int] is None
            },
    decreases n,
{
    if n > 0 {
        lemma_terminal(f, core, (n - 1) as nat);
    }
}

/// The positions listed by `unmapped` are below `n` and absent from `core`.
pub proof fn lemma_unmapped(core: Seq<Option<usize>>, n: nat)
    requires
        n <= core.len(),
        n <= usize::MAX,
    ensures
        forall|k: int|
            0 <= k < unmapped(core, n).len() ==> {
                &&& (#[trigger] unmapped(core, n)[k]) < n
                &&& core[unmapped(core, n)[k] as int] is None
            },
    decreases n,
{
    if n > 0 {
        lemma_unmapped(core, (n - 1) as nat);
    }
}

/// Every candidate pair joins an unmapped node of each graph.
pub proof fn lemma_candidates_fresh(s: MatchState, n1: nat, n2: nat)
    requires
        s.wf(n1, n2),
        n1 <= usize::MAX,
        n2 <= usize::MAX,
    ensures
        forall|k: int|
            0 <= k < s.candidates().len() ==> {
                &&& (#[trigger] s.candidates()[k]).0 < n1
                &&& s.candidates()[k].1 < n2
                &&& s.core_1[s.candidates()[k].0 as int] is None
                &&& s.core_2[s.candidates()[k].1 as int] is None
            },
{
    lemma_terminal(s.out_1, s.core_1, n1);
    lemma_terminal(s.out_2, s.core_2, n2);
    lemma_terminal(s.in_1, s.core_1, n1);
    lemma_terminal(s.in_2, s.core_2, n2);
    lemma_unmapped(s.core_1, n1);
    lemma_unmapped(s.core_2, n2);
}

/// `terminal` lists positions in increasing order.
pub proof fn lemma_terminal_increasing(f: Seq<Option<usize>>, core: Seq<Option<usize>>, n: nat)
    requires
        n <= usize::MAX,
    ensures
        forall|k: int| 0 <= k < terminal(f, core, n).len() ==> (#[trigger] terminal(f, core, n)[k]) < n,
        forall|a: int, b: int|
            0 <= a < b < terminal(f, core, n).len() ==> (#[trigger] terminal(f, core, n)[a]) < (
            #[trigger] terminal(f, core, n)[b]),
    decreases n,
{
    if n > 0 {
        let r = terminal(f, core, (n - 1) as nat);
        let t = terminal(f, core, n);
        lemma_terminal_increasing(f, core, (n - 1) as nat);
        assert forall|k: int| 0 <= k < r.len() implies #[trigger] t[k] == r[k] by {}
        if t.len() > r.len() {
            assert(t[r.len() as int] == (n - 1) as usize);
        }
        assert forall|k: int| 0 <= k < t.len() implies (#[trigger] t[k]) < n by {
            if k < r.len() {
                assert(t[k] == r[k]);
            }
        }
        assert forall|a: int, b: int| 0 <= a < b < t.len() implies (#[trigger] t[a]) < (#[trigger] t[b]) by {
            assert(t[a] == r[a]);
            if b < r.len() {
                assert(t[b] == r[b]);
            }
        }
    }
}

/// `unmapped` lists positions in increasing order.
pub proof fn lemma_unmapped_increasing(core: Seq<Option<usize>>, n: nat)
    requires
        n <= usize::MAX,
    ensures
        forall|k: int| 0 <= k < unmapped(core, n).len() ==> (#[trigger] unmapped(core, n)[k]) < n,
        forall|a: int, b: int|
            0 <= a < b < unmapped(core, n).len() ==> (#[trigger] unmapped(core, n)[a]) < (
            #[trigger] unmapped(core, n)[b]),
    decreases n,
{
    if n > 0 {
        let r = unmapped(core, (n - 1) as nat);
        let t = unmapped(core, n);
        lemma_unmapped_increasing(core, (n - 1) as nat);
        assert forall|k: int| 0 <= k < r.len() implies #[trigger] t[k] == r[k] by {}
        if t.len() > r.len() {
            assert(t[r.len() as int] == (n - 1) as usize);
        }
        assert forall|k: int| 0 <= k < t.len() implies (#[trigger] t[k]) < n by {
            if k < r.len() {
                assert(t[k] == r[k]);
            }
        }
        assert forall|a: int, b: int| 0 <= a < b < t.len() implies (#[trigger] t[a]) < (#[trigger] t[b]) by {
            assert(t[a] == r[a]);
            if b < r.len() {
                assert(t[b] == r[b]);
            }
        }
    }
}

/// The candidate pairs share their node of the second graph and differ in
/// their node of the first.
pub proof fn lemma_candidates_distinct(s: MatchState)
    requires
        s.core_1.len() <= usize::MAX,
        s.core_2.len() <= usize::MAX,
    ensures
        forall|a: int, b: int|
            0 <= a < s.candidates().len() && 0 <= b < s.candidates().len() && a != b ==> (
            #[trigger] s.candidates()[a]).0 != (#[trigger] s.candidates()[b]).0 && s.candidates()[a].1
                == s.candidates()[b].1,
{
    lemma_terminal_increasing(s.out_1, s.core_1, s.core_1.len());
    lemma_terminal_increasing(s.in_1, s.core_1, s.core_1.len());
    lemma_unmapped_increasing(s.core_1, s.core_1.len());
    let c = s.candidates();
    assert forall|a: int, b: int| 0 <= a < c.len() && 0 <= b < c.len() && a != b implies (#[trigger] c[a]).0
        != (#[trigger] c[b]).0 && c[a].1 == c[b].1 by {
        let o1 = terminal(s.out_1, s.core_1, s.core_1.len());
        let i1 = terminal(s.in_1, s.core_1, s.core_1.len());
        let u1 = unmapped(s.core_1, s.core_1.len());
        if a < b {
            assert(o1[a] < o1[b] || c != paired_with(o1, c[a].1));
            assert(i1[a] < i1[b] || c != paired_with(i1, c[a].1));
            assert(u1[a] < u1[b] || c != paired_with(u1, c[a].1));
        } else {
            assert(o1[b] < o1[a] || c != paired_with(o1, c[a].1));
            assert(i1[b] < i1[a] || c != paired_with(i1, c[a].1));
            assert(u1[b] < u1[a] || c != paired_with(u1, c[a].1));
        }
    }
}

} // verus!
