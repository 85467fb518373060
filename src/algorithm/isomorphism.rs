//! VF2 matching of directed graphs: enumerates the ways in which the second
//! graph maps into the first, node to node and edge to edge.
use vstd::prelude::*;
use crate::algorithm::adjacency::{contains_index, lemma_distinct_below, lemma_named_ec, IndexedGraph};
use crate::algorithm::completeness::{
    emitted, extends, frontier_exact, full_match, lemma_candidate_for, lemma_complete_state_equals_match,
    lemma_complete_state_matches, lemma_empty_exact, lemma_extended_exact, lemma_match_pair_feasible,
    lemma_listing_determines, listed_by_branch, listed_once, lists, lists_a_match, lists_match_extending,
    same_listing,
};
use crate::graph::{DiGraph, GraphError};
use crate::algorithm::state::{
    lemma_candidates_distinct,
    core_size, count_outside, count_terminal, grown, lemma_core_size_bound, lemma_core_size_insert,
    lemma_candidates_fresh, lemma_extended_consistent, lemma_extended_wf, lemma_mapped_pairs,
    lemma_restore_undoes_extend, lemma_restored_wf, mapped_pairs, paired_with, shrunk, terminal, touches_core, unmapped,
    MatchMode, MatchState,
};

verus! {

/// A table of `n` absent entries.
fn none_table(n: usize) -> (r: Vec<Option<usize>>)
    ensures
        r@ == Seq::new(n as nat, |i: int| None::<usize>),
{
    let mut r: Vec<Option<usize>> = Vec::new();
    let mut i: usize = 0;
    while i < n
        invariant
            i <= n,
            r@ == Seq::new(i as nat, |k: int| None::<usize>),
        decreases n - i,
    {
        r.push(None);
        i += 1;
        assert(r@ =~= Seq::new(i as nat, |k: int| None::<usize>));
    }
    r
}

/// Whether some node of `nbrs` is mapped in `core`.
fn touches(core: &Vec<Option<usize>>, nbrs: &Vec<usize>) -> (r: bool)
    requires
        forall|k: int| 0 <= k < nbrs@.len() ==> nbrs@[k] < core@.len(),
    ensures
        r == touches_core(core@, nbrs@),
{
    let mut t: usize = 0;
    while t < nbrs.len()
        invariant
            t <= nbrs@.len(),
            forall|k: int| 0 <= k < nbrs@.len() ==> nbrs@[k] < core@.len(),
            forall|k: int| 0 <= k < t ==> (#[trigger] core@[nbrs@[k] as int]) is None,
        decreases nbrs@.len() - t,
    {
        if core[nbrs[t]].is_some() {
            return true;
        }
        t += 1;
    }
    false
}

/// Lets every unmapped node with a mapped neighbour in `adj`, and `p`
/// itself, enter the frontier table `f` at depth `d`, unless already there.
fn grow(f: &mut Vec<Option<usize>>, core: &Vec<Option<usize>>, adj: &Vec<Vec<usize>>, p: usize, d: usize)
    requires
        old(f)@.len() == core@.len(),
        adj@.len() == core@.len(),
        forall|u: int, k: int|
            #![trigger adj@[u]@[k]]
            0 <= u < adj@.len() && 0 <= k < adj@[u]@.len() ==> adj@[u]@[k] < core@.len(),
    ensures
        final(f)@ == grown(old(f)@, core@, adj@, p as int, d as nat),
{
    let n = f.len();
    let mut i: usize = 0;
    while i < n
        invariant
            n == f@.len(),
            n == old(f)@.len(),
            n == core@.len(),
            n == adj@.len(),
            i <= n,
            forall|u: int, k: int|
                #![trigger adj@[u]@[k]]
                0 <= u < adj@.len() && 0 <= k < adj@[u]@.len() ==> adj@[u]@[k] < core@.len(),
            forall|k: int|
                0 <= k < i ==> f@[k] == grown(old(f)@, core@, adj@, p as int, d as nat)[k],
            forall|k: int| i <= k < n ==> f@[k] == old(f)@[k],
        decreases n - i,
    {
        if f[i].is_none() {
            if i == p {
                f.set(i, Some(d));
            } else if core[i].is_none() && touches(core, &adj[i]) {
                f.set(i, Some(d));
            }
        }
        assert(f@[i as int] == grown(old(f)@, core@, adj@, p as int, d as nat)[i as int]);
        i += 1;
    }
    assert(f@ =~= grown(old(f)@, core@, adj@, p as int, d as nat));
}

/// Removes the entries of depth `d` from the frontier table `f`.
fn shrink(f: &mut Vec<Option<usize>>, d: usize)
    ensures
        final(f)@ == shrunk(old(f)@, d as nat),
{
    let n = f.len();
    let mut i: usize = 0;
    while i < n
        invariant
            n == f@.len(),
            n == old(f)@.len(),
            i <= n,
            forall|k: int| 0 <= k < i ==> f@[k] == shrunk(old(f)@, d as nat)[k],
            forall|k: int| i <= k < n ==> f@[k] == old(f)@[k],
        decreases n - i,
    {
        let hit = match f[i] {
            Some(x) => x == d,
            None => false,
        };
        if hit {
            f.set(i, None);
        }
        assert(f@[i as int] == shrunk(old(f)@, d as nat)[i as int]);
        i += 1;
    }
    assert(f@ =~= shrunk(old(f)@, d as nat));
}

/// The positions present in `f` and absent from `core`, increasing.
fn terminal_list(f: &Vec<Option<usize>>, core: &Vec<Option<usize>>) -> (r: Vec<usize>)
    requires
        f@.len() == core@.len(),
    ensures
        r@ == terminal(f@, core@, f@.len()),
{
    let mut r: Vec<usize> = Vec::new();
    let mut i: usize = 0;
    while i < f.len()
        invariant
            i <= f@.len(),
            f@.len() == core@.len(),
            r@ == terminal(f@, core@, i as nat),
        decreases f@.len() - i,
    {
        if f[i].is_some() && core[i].is_none() {
            r.push(i);
        }
        i += 1;
    }
    r
}

/// The positions absent from `core`, increasing.
fn unmapped_list(core: &Vec<Option<usize>>) -> (r: Vec<usize>)
    ensures
        r@ == unmapped(core@, core@.len()),
{
    let mut r: Vec<usize> = Vec::new();
    let mut i: usize = 0;
    while i < core.len()
        invariant
            i <= core@.len(),
            r@ == unmapped(core@, i as nat),
        decreases core@.len() - i,
    {
        if core[i].is_none() {
            r.push(i);
        }
        i += 1;
    }
    r
}

/// Each of `firsts` paired with `h`.
fn pair_all(firsts: &Vec<usize>, h: usize) -> (r: Vec<(usize, usize)>)
    ensures
        r@ == paired_with(firsts@, h),
{
    let mut r: Vec<(usize, usize)> = Vec::new();
    let mut i: usize = 0;
    while i < firsts.len()
        invariant
            i <= firsts@.len(),
            r@ == paired_with(firsts@.take(i as int), h),
        decreases firsts@.len() - i,
    {
        r.push((firsts[i], h));
        i += 1;
        assert(r@ =~= paired_with(firsts@.take(i as int), h));
    }
    assert(firsts@.take(firsts@.len() as int) =~= firsts@);
    r
}

/// How many of `nbrs` are present in `f` and absent from `core`.
fn count_in_terminal(nbrs: &Vec<usize>, f: &Vec<Option<usize>>, core: &Vec<Option<usize>>) -> (r: usize)
    requires
        f@.len() == core@.len(),
        forall|k: int| 0 <= k < nbrs@.len() ==> nbrs@[k] < f@.len(),
    ensures
        r == count_terminal(nbrs@, f@, core@),
{
    let mut c: usize = 0;
    let mut i: usize = 0;
    while i < nbrs.len()
        invariant
            i <= nbrs@.len(),
            c <= i,
            f@.len() == core@.len(),
            forall|k: int| 0 <= k < nbrs@.len() ==> nbrs@[k] < f@.len(),
            c == count_terminal(nbrs@.take(i as int), f@, core@),
        decreases nbrs@.len() - i,
    {
        let q = nbrs[i];
        assert(nbrs@.take(i + 1).drop_last() =~= nbrs@.take(i as int));
        if f[q].is_some() && core[q].is_none() {
            c += 1;
        }
        i += 1;
    }
    assert(nbrs@.take(nbrs@.len() as int) =~= nbrs@);
    c
}

/// How many of `nbrs` are absent from both `fin` and `fout`.
fn count_outside_both(nbrs: &Vec<usize>, fin: &Vec<Option<usize>>, fout: &Vec<Option<usize>>) -> (r: usize)
    requires
        fin@.len() == fout@.len(),
        forall|k: int| 0 <= k < nbrs@.len() ==> nbrs@[k] < fin@.len(),
    ensures
        r == count_outside(nbrs@, fin@, fout@),
{
    let mut c: usize = 0;
    let mut i: usize = 0;
    while i < nbrs.len()
        invariant
            i <= nbrs@.len(),
            c <= i,
            fin@.len() == fout@.len(),
            forall|k: int| 0 <= k < nbrs@.len() ==> nbrs@[k] < fin@.len(),
            c == count_outside(nbrs@.take(i as int), fin@, fout@),
        decreases nbrs@.len() - i,
    {
        let q = nbrs[i];
        assert(nbrs@.take(i + 1).drop_last() =~= nbrs@.take(i as int));
        if fin[q].is_none() && fout[q].is_none() {
            c += 1;
        }
        i += 1;
    }
    assert(nbrs@.take(nbrs@.len() as int) =~= nbrs@);
    c
}

impl MatchMode {
    /// Compares two look-ahead counts as this mode asks.
    pub fn admits_counts(&self, a: usize, b: usize) -> (r: bool)
        ensures
            r == self.admits(a as nat, b as nat),
    {
        match self {
            MatchMode::Graph => a == b,
            _ => a >= b,
        }
    }
}

/// Both weights are absent, or both are present and equal.
pub open spec fn weights_agree(a: Option<String>, b: Option<String>) -> bool {
    match (a, b) {
        (Some(x), Some(y)) => x@ == y@,
        (None, None) => true,
        _ => false,
    }
}

/// Every mapped node of `g1` carries a weight that agrees with its image's.
pub open spec fn weights_respected(s: MatchState, g1: IndexedGraph, g2: IndexedGraph) -> bool {
    forall|i: int|
        0 <= i < s.core_1.len() && (#[trigger] s.core_1[i]) is Some ==> weights_agree(
            g1.weights@[i],
            g2.weights@[s.core_1[i]->0 as int],
        )
}

/// A matcher of two graphs: it looks for the ways in which `g2` (the
/// pattern) maps into `g1` (the host). A match pairs every node of `g2` with
/// a node of `g1`, listed as `(name in g1, name in g2)`. `core_1` maps
/// positions of `g1` to positions of `g2` and `core_2` back; the four
/// frontier tables hold the depth at which a node entered. The self-loop
/// test asks for equal counts in every mode.
pub struct DiGraphMatcher {
    pub g1: IndexedGraph,
    pub g2: IndexedGraph,
    pub test: MatchMode,
    pub core_1: Vec<Option<usize>>,
    pub core_2: Vec<Option<usize>>,
    pub in_1: Vec<Option<usize>>,
    pub in_2: Vec<Option<usize>>,
    pub out_1: Vec<Option<usize>>,
    pub out_2: Vec<Option<usize>>,
    pub depth: usize,
    /// A neighbour name that names no node of either graph, if one was found.
    pub unknown: Option<String>,
}

impl View for DiGraphMatcher {
    type V = MatchState;

    open spec fn view(&self) -> MatchState {
        MatchState {
            core_1: self.core_1@,
            core_2: self.core_2@,
            in_1: self.in_1@,
            in_2: self.in_2@,
            out_1: self.out_1@,
            out_2: self.out_2@,
            depth: self.depth as nat,
        }
    }
}

/// The record of one search level: the pair it mapped and the depth before.
pub struct DiGMState {
    pub g1_node: Option<usize>,
    pub g2_node: Option<usize>,
    pub depth: usize,
}

impl DiGraphMatcher {
    /// Both graphs are well formed and the state fits them: the two mapping
    /// tables map as many keys, that number is the depth, each table is the
    /// other's inverse, and every frontier entry was made below the depth.
    pub open spec fn inv(&self) -> bool {
        &&& self.g1.wf()
        &&& self.g2.wf()
        &&& self@.wf(self.g1.n(), self.g2.n())
    }

    /// The graphs and the mode are those of `other`.
    pub open spec fn same_setting(&self, other: &DiGraphMatcher) -> bool {
        &&& self.g1 == other.g1
        &&& self.g2 == other.g2
        &&& self.test == other.test
        &&& self.unknown == other.unknown
    }

    /// A matcher of `g1` and `g2` in graph mode, with nothing mapped.
    pub fn with_graphs(g1: IndexedGraph, g2: IndexedGraph) -> (r: DiGraphMatcher)
        requires
            g1.wf(),
            g2.wf(),
        ensures
            r.inv(),
            r.g1 == g1,
            r.g2 == g2,
            r.test == MatchMode::Graph,
            r@ == MatchState::empty(g1.n(), g2.n()),
            r.unknown is None,
    {
        let n1 = g1.names.len();
        let n2 = g2.names.len();
        let r = DiGraphMatcher {
            g1,
            g2,
            test: MatchMode::Graph,
            core_1: none_table(n1),
            core_2: none_table(n2),
            in_1: none_table(n1),
            in_2: none_table(n2),
            out_1: none_table(n1),
            out_2: none_table(n2),
            depth: 0,
            unknown: None,
        };
        proof {
            lemma_empty_wf(n1 as nat, n2 as nat);
        }
        r
    }

    /// Chooses how the look-ahead tests compare counts.
    pub fn set_mode(&mut self, mode: MatchMode)
        ensures
            final(self).test == mode,
            final(self).g1 == old(self).g1,
            final(self).g2 == old(self).g2,
            final(self).unknown == old(self).unknown,
            final(self)@ == old(self)@,
    {
        self.test = mode;
    }

    /// The candidate pairs of the current state.
    pub fn candidate_pairs(&self) -> (r: Vec<(usize, usize)>)
        requires
            self.inv(),
        ensures
            r@ == self@.candidates(),
    {
        let o1 = terminal_list(&self.out_1, &self.core_1);
        let o2 = terminal_list(&self.out_2, &self.core_2);
        if o1.len() > 0 && o2.len() > 0 {
            return pair_all(&o1, o2[0]);
        }
        let i1 = terminal_list(&self.in_1, &self.core_1);
        let i2 = terminal_list(&self.in_2, &self.core_2);
        if i1.len() > 0 && i2.len() > 0 {
            return pair_all(&i1, i2[0]);
        }
        let u1 = unmapped_list(&self.core_1);
        let u2 = unmapped_list(&self.core_2);
        if u2.len() > 0 {
            pair_all(&u1, u2[0])
        } else {
            Vec::new()
        }
    }

    /// Whether the weights of `n` (in `g1`) and `m` (in `g2`) agree.
    pub fn semantic_feasibility(&self, n: usize, m: usize) -> (r: bool)
        requires
            self.inv(),
            n < self.g1.n(),
            m < self.g2.n(),
        ensures
            r == weights_agree(self.g1.weights@[n as int], self.g2.weights@[m as int]),
    {
        match (&self.g1.weights[n], &self.g2.weights[m]) {
            (Some(a), Some(b)) => a.eq(b),
            (None, None) => true,
            _ => false,
        }
    }

    /// The self-loop test.
    fn r_self(&self, n: usize, m: usize) -> (r: bool)
        requires
            self.inv(),
            n < self.g1.n(),
            m < self.g2.n(),
        ensures
            r == self@.self_ok(self.g1, self.g2, n as int, m as int),
    {
        self.g1.edge_count(n, n) == self.g2.edge_count(m, m)
    }
}

impl DiGraphMatcher {
    /// The predecessor test.
    fn r_pred(&self, n: usize, m: usize) -> (r: bool)
        requires
            self.inv(),
            n < self.g1.n(),
            m < self.g2.n(),
        ensures
            r == self@.pred_ok(self.g1, self.g2, n as int, m as int),
    {
        let g1 = &self.g1;
        let g2 = &self.g2;
        let preds1 = &g1.preds[n];
        let preds2 = &g2.preds[m];
        let mut t: usize = 0;
        while t < preds1.len()
            invariant
                self.inv(),
                n < g1.n(),
                m < g2.n(),
                g1 == self.g1,
                g2 == self.g2,
                preds1@ == g1.preds@[n as int]@,
                preds2@ == g2.preds@[m as int]@,
                t <= preds1@.len(),
                forall|k: int|
                    #![trigger preds1@[k]]
                    0 <= k < t && self.core_1@[preds1@[k] as int] is Some ==> {
                        let q = preds1@[k];
                        let q2 = self.core_1@[q as int]->0;
                        &&& preds2@.contains(q2)
                        &&& g1.ec(q as int, n as int) == g2.ec(q2 as int, m as int)
                    },
            decreases preds1@.len() - t,
        {
            let q = preds1[t];
            if let Some(q2) = self.core_1[q] {
                if !contains_index(preds2, q2) {
                    return false;
                }
                if g1.edge_count(q, n) != g2.edge_count(q2, m) {
                    return false;
                }
            }
            t += 1;
        }
        let mut t: usize = 0;
        while t < preds2.len()
            invariant
                self.inv(),
                n < g1.n(),
                m < g2.n(),
                g1 == self.g1,
                g2 == self.g2,
                preds1@ == g1.preds@[n as int]@,
                preds2@ == g2.preds@[m as int]@,
                t <= preds2@.len(),
                self@.pred_ok(self.g1, self.g2, n as int, m as int) <==> forall|k: int|
                    #![trigger preds2@[k]]
                    0 <= k < preds2@.len() && self.core_2@[preds2@[k] as int] is Some ==> {
                        let q = preds2@[k];
                        let q1 = self.core_2@[q as int]->0;
                        &&& preds1@.contains(q1)
                        &&& g2.ec(q as int, m as int) == g1.ec(q1 as int, n as int)
                    },
                forall|k: int|
                    #![trigger preds2@[k]]
                    0 <= k < t && self.core_2@[preds2@[k] as int] is Some ==> {
                        let q = preds2@[k];
                        let q1 = self.core_2@[q as int]->0;
                        &&& preds1@.contains(q1)
                        &&& g2.ec(q as int, m as int) == g1.ec(q1 as int, n as int)
                    },
            decreases preds2@.len() - t,
        {
            let q = preds2[t];
            if let Some(q1) = self.core_2[q] {
                if !contains_index(preds1, q1) {
                    return false;
                }
                if g2.edge_count(q, m) != g1.edge_count(q1, n) {
                    return false;
                }
            }
            t += 1;
        }
        true
    }

    /// The successor test.
    fn r_succ(&self, n: usize, m: usize) -> (r: bool)
        requires
            self.inv(),
            n < self.g1.n(),
            m < self.g2.n(),
        ensures
            r == self@.succ_ok(self.g1, self.g2, n as int, m as int),
    {
        let g1 = &self.g1;
        let g2 = &self.g2;
        let succs1 = &g1.succs[n];
        let succs2 = &g2.succs[m];
        let mut t: usize = 0;
        while t < succs1.len()
            invariant
                self.inv(),
                n < g1.n(),
                m < g2.n(),
                g1 == self.g1,
                g2 == self.g2,
                succs1@ == g1.succs@[n as int]@,
                succs2@ == g2.succs@[m as int]@,
                t <= succs1@.len(),
                forall|k: int|
                    #![trigger succs1@[k]]
                    0 <= k < t && self.core_1@[succs1@[k] as int] is Some ==> {
                        let q = succs1@[k];
                        let q2 = self.core_1@[q as int]->0;
                        &&& succs2@.contains(q2)
                        &&& g1.ec(n as int, q as int) == g2.ec(m as int, q2 as int)
                    },
            decreases succs1@.len() - t,
        {
            let q = succs1[t];
            if let Some(q2) = self.core_1[q] {
                if !contains_index(succs2, q2) {
                    return false;
                }
                if g1.edge_count(n, q) != g2.edge_count(m, q2) {
                    return false;
                }
            }
            t += 1;
        }
        let mut t: usize = 0;
        while t < succs2.len()
            invariant
                self.inv(),
                n < g1.n(),
                m < g2.n(),
                g1 == self.g1,
                g2 == self.g2,
                succs1@ == g1.succs@[n as int]@,
                succs2@ == g2.succs@[m as int]@,
                t <= succs2@.len(),
                self@.succ_ok(self.g1, self.g2, n as int, m as int) <==> forall|k: int|
                    #![trigger succs2@[k]]
                    0 <= k < succs2@.len() && self.core_2@[succs2@[k] as int] is Some ==> {
                        let q = succs2@[k];
                        let q1 = self.core_2@[q as int]->0;
                        &&& succs1@.contains(q1)
                        &&& g2.ec(m as int, q as int) == g1.ec(n as int, q1 as int)
                    },
                forall|k: int|
                    #![trigger succs2@[k]]
                    0 <= k < t && self.core_2@[succs2@[k] as int] is Some ==> {
                        let q = succs2@[k];
                        let q1 = self.core_2@[q as int]->0;
                        &&& succs1@.contains(q1)
                        &&& g2.ec(m as int, q as int) == g1.ec(n as int, q1 as int)
                    },
            decreases succs2@.len() - t,
        {
            let q = succs2[t];
            if let Some(q1) = self.core_2[q] {
                if !contains_index(succs1, q1) {
                    return false;
                }
                if g2.edge_count(m, q) != g1.edge_count(n, q1) {
                    return false;
                }
            }
            t += 1;
        }
        true
    }
}

impl DiGraphMatcher {
    /// The one-step look-ahead over the in-terminal sets.
    fn r_in(&self, n: usize, m: usize) -> (r: bool)
        requires
            self.inv(),
            n < self.g1.n(),
            m < self.g2.n(),
        ensures
            r == self@.in_ok(self.g1, self.g2, self.test, n as int, m as int),
    {
        let a = count_in_terminal(&self.g1.preds[n], &self.in_1, &self.core_1);
        let b = count_in_terminal(&self.g2.preds[m], &self.in_2, &self.core_2);
        if !self.test.admits_counts(a, b) {
            return false;
        }
        let c = count_in_terminal(&self.g1.succs[n], &self.in_1, &self.core_1);
        let d = count_in_terminal(&self.g2.succs[m], &self.in_2, &self.core_2);
        self.test.admits_counts(c, d)
    }

    /// The one-step look-ahead over the out-terminal sets.
    fn r_out(&self, n: usize, m: usize) -> (r: bool)
        requires
            self.inv(),
            n < self.g1.n(),
            m < self.g2.n(),
        ensures
            r == self@.out_ok(self.g1, self.g2, self.test, n as int, m as int),
    {
        let a = count_in_terminal(&self.g1.preds[n], &self.out_1, &self.core_1);
        let b = count_in_terminal(&self.g2.preds[m], &self.out_2, &self.core_2);
        if !self.test.admits_counts(a, b) {
            return false;
        }
        let c = count_in_terminal(&self.g1.succs[n], &self.out_1, &self.core_1);
        let d = count_in_terminal(&self.g2.succs[m], &self.out_2, &self.core_2);
        self.test.admits_counts(c, d)
    }

    /// The two-step look-ahead over the nodes outside both frontiers.
    fn r_new(&self, n: usize, m: usize) -> (r: bool)
        requires
            self.inv(),
            n < self.g1.n(),
            m < self.g2.n(),
        ensures
            r == self@.new_ok(self.g1, self.g2, self.test, n as int, m as int),
    {
        let a = count_outside_both(&self.g1.preds[n], &self.in_1, &self.out_1);
        let b = count_outside_both(&self.g2.preds[m], &self.in_2, &self.out_2);
        if !self.test.admits_counts(a, b) {
            return false;
        }
        let c = count_outside_both(&self.g1.succs[n], &self.in_1, &self.out_1);
        let d = count_outside_both(&self.g2.succs[m], &self.in_2, &self.out_2);
        self.test.admits_counts(c, d)
    }

    /// The six syntactic tests on the pair `(n, m)`, in order, stopping at
    /// the first that fails.
    pub fn syntactic_feasibility(&self, n: usize, m: usize) -> (r: bool)
        requires
            self.inv(),
            n < self.g1.n(),
            m < self.g2.n(),
        ensures
            r == self@.syntactic_ok(self.g1, self.g2, self.test, n as int, m as int),
    {
        if !self.r_self(n, m) {
            return false;
        }
        if !self.r_pred(n, m) {
            return false;
        }
        if !self.r_succ(n, m) {
            return false;
        }
        if !self.r_in(n, m) {
            return false;
        }
        if !self.r_out(n, m) {
            return false;
        }
        self.r_new(n, m)
    }
}

impl DiGMState {
    /// Maps `g1_node` to `g2_node` at the next depth and returns the record
    /// that undoes it. Given no pair, clears the matcher's state instead.
    pub fn create(matcher: &mut DiGraphMatcher, g1_node: Option<usize>, g2_node: Option<usize>) -> (r: DiGMState)
        requires
            old(matcher).inv(),
            g1_node is Some && g2_node is Some ==> {
                &&& g1_node->0 < old(matcher).g1.n()
                &&& g2_node->0 < old(matcher).g2.n()
                &&& old(matcher)@.core_1[g1_node->0 as int] is None
                &&& old(matcher)@.core_2[g2_node->0 as int] is None
            },
        ensures
            final(matcher).inv(),
            final(matcher).same_setting(old(matcher)),
            g1_node is Some && g2_node is Some ==> {
                &&& final(matcher)@ == old(matcher)@.extended(
                    old(matcher).g1,
                    old(matcher).g2,
                    g1_node->0 as int,
                    g2_node->0 as int,
                )
                &&& r == (DiGMState { g1_node, g2_node, depth: old(matcher).depth })
            },
            !(g1_node is Some && g2_node is Some) ==> {
                &&& final(matcher)@ == MatchState::empty(old(matcher).g1.n(), old(matcher).g2.n())
                &&& r == (DiGMState { g1_node: None, g2_node: None, depth: 0 })
            },
    {
        match (g1_node, g2_node) {
            (Some(p), Some(h)) => {
                let d = matcher.depth;
                proof {
                    lemma_core_size_insert(matcher.core_2@, h as int, p);
                    lemma_core_size_bound(matcher.core_2@.update(h as int, Some(p)));
                    lemma_extended_wf(matcher@, matcher.g1, matcher.g2, p as int, h as int);
                }
                matcher.core_1.set(p, Some(h));
                matcher.core_2.set(h, Some(p));
                grow(&mut matcher.in_1, &matcher.core_1, &matcher.g1.succs, p, d);
                grow(&mut matcher.out_1, &matcher.core_1, &matcher.g1.preds, p, d);
                grow(&mut matcher.in_2, &matcher.core_2, &matcher.g2.succs, h, d);
                grow(&mut matcher.out_2, &matcher.core_2, &matcher.g2.preds, h, d);
                matcher.depth = d + 1;
                DiGMState { g1_node, g2_node, depth: d }
            },
            _ => {
                let n1 = matcher.g1.names.len();
                let n2 = matcher.g2.names.len();
                matcher.core_1 = none_table(n1);
                matcher.core_2 = none_table(n2);
                matcher.in_1 = none_table(n1);
                matcher.in_2 = none_table(n2);
                matcher.out_1 = none_table(n1);
                matcher.out_2 = none_table(n2);
                matcher.depth = 0;
                proof {
                    lemma_empty_wf(n1 as nat, n2 as nat);
                }
                DiGMState { g1_node: None, g2_node: None, depth: 0 }
            },
        }
    }

    /// Undoes the level this record stands for: unmaps its pair and drops the
    /// frontier entries made at its depth.
    pub fn restore(&self, matcher: &mut DiGraphMatcher)
        requires
            old(matcher).inv(),
            self.g1_node is Some && self.g2_node is Some ==> {
                &&& self.g1_node->0 < old(matcher).g1.n()
                &&& old(matcher)@.core_1[self.g1_node->0 as int] == Some(self.g2_node->0)
                &&& self.depth + 1 == old(matcher).depth
            },
        ensures
            final(matcher).inv(),
            final(matcher).same_setting(old(matcher)),
            final(matcher)@ == old(matcher)@.restored(self.g1_node, self.g2_node, self.depth as nat),
    {
        proof {
            lemma_restored_wf(
                matcher@,
                matcher.g1.n(),
                matcher.g2.n(),
                self.g1_node,
                self.g2_node,
                self.depth as nat,
            );
        }
        if let (Some(p), Some(h)) = (self.g1_node, self.g2_node) {
            matcher.core_1.set(p, None);
            matcher.core_2.set(h, None);
            matcher.depth = self.depth;
        }
        shrink(&mut matcher.in_1, self.depth);
        shrink(&mut matcher.in_2, self.depth);
        shrink(&mut matcher.out_1, self.depth);
        shrink(&mut matcher.out_2, self.depth);
    }
}

/// The node of `g1` named `x` and the node of `g2` named `y` carry agreeing weights.
pub open spec fn named_weights_agree(g1: IndexedGraph, g2: IndexedGraph, x: Seq<char>, y: Seq<char>) -> bool {
    exists|i: int, j: int|
        0 <= i < g1.n() && 0 <= j < g2.n() && g1.names@[i]@ == x && g2.names@[j]@ == y && weights_agree(
            g1.weights@[i],
            g2.weights@[j],
        )
}

/// `m` is a complete match of `g2` into `g1`: it pairs every node of `g2`
/// with a node of `g1`, no node twice on either side, paired nodes carry
/// agreeing weights, and between paired nodes `g1` has as many edges as `g2`.
pub open spec fn is_match(g1: IndexedGraph, g2: IndexedGraph, m: Seq<(String, String)>) -> bool {
    &&& m.len() == g2.n()
    &&& forall|a: int| 0 <= a < m.len() ==> g1.has_name((#[trigger] m[a]).0@) && g2.has_name(m[a].1@)
    &&& forall|a: int| 0 <= a < m.len() ==> named_weights_agree(g1, g2, (#[trigger] m[a]).0@, m[a].1@)
    &&& forall|a: int, b: int|
        0 <= a < m.len() && 0 <= b < m.len() && a != b ==> (#[trigger] m[a]).0@ != (#[trigger] m[b]).0@
            && m[a].1@ != m[b].1@
    &&& forall|a: int, b: int|
        0 <= a < m.len() && 0 <= b < m.len() ==> g1.named_ec((#[trigger] m[a]).0@, (#[trigger] m[b]).0@)
            == g2.named_ec(m[a].1@, m[b].1@)
}

/// No graph has a match into a graph with fewer nodes.
pub proof fn lemma_no_match_into_smaller(g1: IndexedGraph, g2: IndexedGraph, m: Seq<(String, String)>)
    requires
        g1.wf(),
        g1.n() < g2.n(),
    ensures
        !is_match(g1, g2, m),
{
    if is_match(g1, g2, m) {
        let idx = Seq::new(
            m.len(),
            |a: int| (choose|i: int| 0 <= i < g1.n() && g1.names@[i]@ == m[a].0@) as usize,
        );
        assert forall|a: int| 0 <= a < idx.len() implies idx[a] < g1.n() && g1.names@[idx[a] as int]@
            == m[a].0@ by {
            assert(g1.has_name(m[a].0@));
        }
        assert forall|a: int, b: int| 0 <= a < b < idx.len() implies idx[a] != idx[b] by {
            assert(m[a].0@ != m[b].0@);
        }
        lemma_distinct_below(idx, g1.n());
    }
}

impl DiGraphMatcher {
    /// The current mapping as pairs of names, by position in `g1`.
    fn snapshot(&self) -> (r: Vec<(String, String)>)
        requires
            self.inv(),
        ensures
            r@.len() == mapped_pairs(self.core_1@).len(),
            forall|k: int|
                0 <= k < r@.len() ==> {
                    &&& (#[trigger] r@[k]).0@ == self.g1.names@[mapped_pairs(self.core_1@)[k].0 as int]@
                    &&& r@[k].1@ == self.g2.names@[mapped_pairs(self.core_1@)[k].1 as int]@
                },
    {
        let mut r: Vec<(String, String)> = Vec::new();
        let mut i: usize = 0;
        while i < self.core_1.len()
            invariant
                self.inv(),
                i <= self.core_1@.len(),
                r@.len() == mapped_pairs(self.core_1@.take(i as int)).len(),
                forall|k: int|
                    0 <= k < r@.len() ==> {
                        &&& (#[trigger] r@[k]).0@ == self.g1.names@[mapped_pairs(
                            self.core_1@.take(i as int),
                        )[k].0 as int]@
                        &&& r@[k].1@ == self.g2.names@[mapped_pairs(
                            self.core_1@.take(i as int),
                        )[k].1 as int]@
                    },
            decreases self.core_1@.len() - i,
        {
            let ghost before = mapped_pairs(self.core_1@.take(i as int));
            assert(self.core_1@.take(i + 1).drop_last() =~= self.core_1@.take(i as int));
            if let Some(j) = self.core_1[i] {
                r.push((self.g1.names[i].clone(), self.g2.names[j].clone()));
            }
            i += 1;
        }
        assert(self.core_1@.take(self.core_1@.len() as int) =~= self.core_1@);
        r
    }
}

/// A snapshot of a consistent state that maps every node of `g2` is a match.
proof fn lemma_snapshot_is_match(s: MatchState, g1: IndexedGraph, g2: IndexedGraph, r: Seq<(String, String)>)
    requires
        g1.wf(),
        g2.wf(),
        s.wf(g1.n(), g2.n()),
        s.consistent(g1, g2),
        weights_respected(s, g1, g2),
        s.depth == g2.n(),
        r.len() == mapped_pairs(s.core_1).len(),
        forall|k: int|
            0 <= k < r.len() ==> {
                &&& (#[trigger] r[k]).0@ == g1.names@[mapped_pairs(s.core_1)[k].0 as int]@
                &&& r[k].1@ == g2.names@[mapped_pairs(s.core_1)[k].1 as int]@
            },
    ensures
        is_match(g1, g2, r),
{
    let mp = mapped_pairs(s.core_1);
    lemma_mapped_pairs(s.core_1);
    assert forall|a: int| 0 <= a < r.len() implies g1.has_name((#[trigger] r[a]).0@) && g2.has_name(
        r[a].1@,
    ) by {
        assert(s.core_1[mp[a].0 as int] == Some(mp[a].1));
        assert(mp[a].1 < g2.n());
    }
    assert forall|a: int| 0 <= a < r.len() implies named_weights_agree(g1, g2, (#[trigger] r[a]).0@, r[a].1@) by {
        let i = mp[a].0 as int;
        let j = mp[a].1 as int;
        assert(s.core_1[i] == Some(mp[a].1));
        assert(weights_agree(g1.weights@[i], g2.weights@[j]));
    }
    assert forall|a: int, b: int| 0 <= a < r.len() && 0 <= b < r.len() && a != b implies (#[trigger] r[a]).0@
        != (#[trigger] r[b]).0@ && r[a].1@ != r[b].1@ by {
        assert(mp[a].0 != mp[b].0);
        assert(s.core_1[mp[a].0 as int] == Some(mp[a].1));
        assert(s.core_1[mp[b].0 as int] == Some(mp[b].1));
        assert(s.core_2[mp[a].1 as int] == Some(mp[a].0));
        assert(s.core_2[mp[b].1 as int] == Some(mp[b].0));
    }
    assert forall|a: int, b: int| 0 <= a < r.len() && 0 <= b < r.len() implies g1.named_ec(
        (#[trigger] r[a]).0@,
        (#[trigger] r[b]).0@,
    ) == g2.named_ec(r[a].1@, r[b].1@) by {
        let ia = mp[a].0 as int;
        let ib = mp[b].0 as int;
        assert(s.core_1[ia] == Some(mp[a].1));
        assert(s.core_1[ib] == Some(mp[b].1));
        lemma_named_ec(g1, ia, ib);
        lemma_named_ec(g2, mp[a].1 as int, mp[b].1 as int);
    }
}

impl DiGraphMatcher {
    /// Searches on from the current state. A state that maps every node of
    /// `g2` is complete and its mapping is appended to `mapping`; otherwise
    /// each candidate pair that passes the weight test and the six syntactic
    /// tests is mapped, searched on from, and undone. The state is left as it
    /// was found, and every appended mapping lists a match that extends it,
    /// no match twice. Outside graph mode, and in graph mode between graphs
    /// of equal size, every match that extends the current state is appended.
    pub fn try_match(&mut self, mapping: &mut Vec<Vec<(String, String)>>)
        requires
            old(self).inv(),
            old(self)@.consistent(old(self).g1, old(self).g2),
            weights_respected(old(self)@, old(self).g1, old(self).g2),
            frontier_exact(old(self)@, old(self).g1, old(self).g2),
        ensures
            final(self).same_setting(old(self)),
            final(self)@ == old(self)@,
            old(mapping)@.len() <= final(mapping)@.len(),
            forall|k: int| 0 <= k < old(mapping)@.len() ==> final(mapping)@[k] == old(mapping)@[k],
            forall|k: int|
                old(mapping)@.len() <= k < final(mapping)@.len() ==> is_match(
                    old(self).g1,
                    old(self).g2,
                    (#[trigger] final(mapping)@[k])@,
                ) && lists_match_extending(old(self).g1, old(self).g2, old(self)@, final(mapping)@[k]@),
            listed_once(final(mapping)@, old(mapping)@.len() as int),
            old(self).depth == old(self).g2.n() ==> final(mapping)@.len() == old(mapping)@.len() + 1,
            (old(self).test != MatchMode::Graph || old(self).g1.n() == old(self).g2.n()) ==> forall|f1: Seq<Option<usize>>, f2: Seq<usize>|
                full_match(old(self).g1, old(self).g2, f1, f2) && extends(old(self)@, f1) ==> emitted(
                    old(self).g1,
                    old(self).g2,
                    f1,
                    final(mapping)@,
                    old(mapping)@.len() as int,
                ),
        decreases old(self).g2.n() - old(self).depth,
    {
        if self.depth == self.g2.names.len() {
            let res = self.snapshot();
            proof {
                lemma_snapshot_is_match(self@, self.g1, self.g2, res@);
                lemma_complete_state_matches(self@, self.g1, self.g2);
                let f2 = Seq::new(self.g2.n(), |j: int| self.core_2@[j]->0);
                assert(lists(self.g1, self.g2, self.core_1@, res@));
                assert(full_match(self.g1, self.g2, self.core_1@, f2));
                assert(extends(self@, self.core_1@));
            }
            mapping.push(res);
            proof {
                let k = old(mapping)@.len() as int;
                assert(mapping@[k] == res);
                assert forall|f1: Seq<Option<usize>>, f2: Seq<usize>|
                    full_match(self.g1, self.g2, f1, f2) && extends(self@, f1) implies emitted(
                    self.g1,
                    self.g2,
                    f1,
                    mapping@,
                    k,
                ) by {
                    lemma_complete_state_equals_match(self@, self.g1, self.g2, f1, f2);
                    assert(lists(self.g1, self.g2, f1, mapping@[k]@));
                }
            }
            return;
        }
        let ghost s0 = self@;
        let ghost g1 = self.g1;
        let ghost g2 = self.g2;
        let ghost mode = self.test;
        let ghost unk = self.unknown;
        let ghost m0 = mapping@;
        let pairs = self.candidate_pairs();
        proof {
            lemma_candidates_fresh(self@, g1.n(), g2.n());
            lemma_candidates_distinct(self@);
            lemma_core_size_bound(self.core_2@);
        }
        let mut k: usize = 0;
        while k < pairs.len()
            invariant
                self.inv(),
                self@ == s0,
                old(self)@ == s0,
                old(self).g2 == g2,
                self.g1 == g1,
                self.g2 == g2,
                self.test == mode,
                self.unknown == unk,
                old(self).unknown == unk,
                old(self).g1 == g1,
                old(self).test == mode,
                s0.consistent(g1, g2),
                weights_respected(s0, g1, g2),
                s0.depth < g2.n(),
                pairs@ == s0.candidates(),
                forall|t: int|
                    0 <= t < s0.candidates().len() ==> {
                        &&& (#[trigger] s0.candidates()[t]).0 < g1.n()
                        &&& s0.candidates()[t].1 < g2.n()
                        &&& s0.core_1[s0.candidates()[t].0 as int] is None
                        &&& s0.core_2[s0.candidates()[t].1 as int] is None
                    },
                m0.len() <= mapping@.len(),
                forall|t: int| 0 <= t < m0.len() ==> mapping@[t] == m0[t],
                forall|t: int|
                    m0.len() <= t < mapping@.len() ==> is_match(g1, g2, (#[trigger] mapping@[t])@)
                        && listed_by_branch(g1, g2, s0, pairs@, k as int, mapping@[t]@),
                listed_once(mapping@, m0.len() as int),
                forall|a: int, b: int|
                    0 <= a < pairs@.len() && 0 <= b < pairs@.len() && a != b ==> (#[trigger] pairs@[a]).0
                        != (#[trigger] pairs@[b]).0 && pairs@[a].1 == pairs@[b].1,
                frontier_exact(s0, g1, g2),
                (mode != MatchMode::Graph || g1.n() == g2.n()) ==> forall|f1: Seq<Option<usize>>, f2: Seq<usize>, t: int|
                    #![trigger full_match(g1, g2, f1, f2), pairs@[t]]
                    full_match(g1, g2, f1, f2) && extends(s0, f1) && 0 <= t < k && f1[pairs@[t].0 as int]
                        == Some(pairs@[t].1) ==> emitted(g1, g2, f1, mapping@, m0.len() as int),
            decreases pairs@.len() - k,
        {
            let (p, h) = pairs[k];
            assert(pairs@[k as int] == s0.candidates()[k as int]);
            let ghost mb = mapping@;
            let ok = self.semantic_feasibility(p, h) && self.syntactic_feasibility(p, h);
            proof {
                if (mode != MatchMode::Graph || g1.n() == g2.n()) && !ok {
                    assert forall|f1: Seq<Option<usize>>, f2: Seq<usize>|
                        full_match(g1, g2, f1, f2) && extends(s0, f1) implies f1[p as int] != Some(h) by {
                        if f1[p as int] == Some(h) {
                            assert(f2[h as int] == p);
                            lemma_match_pair_feasible(s0, g1, g2, mode, f1, f2, h as int);
                        }
                    }
                }
            }
            if ok {
                proof {
                    lemma_extended_consistent(s0, g1, g2, p as int, h as int);
                    lemma_restore_undoes_extend(s0, g1, g2, p, h);
                    let e = s0.extended(g1, g2, p as int, h as int);
                    assert forall|i: int| 0 <= i < e.core_1.len() && (#[trigger] e.core_1[i]) is Some implies weights_agree(
                        g1.weights@[i],
                        g2.weights@[e.core_1[i]->0 as int],
                    ) by {
                        if i != p {
                            assert(s0.core_1[i] is Some);
                        }
                    }
                }
                let delta = DiGMState::create(self, Some(p), Some(h));
                proof {
                    lemma_extended_exact(s0, g1, g2, p as int, h as int);
                }
                self.try_match(mapping);
                delta.restore(self);
                proof {
                    let e = s0.extended(g1, g2, p as int, h as int);
                    assert forall|t: int| m0.len() <= t < mapping@.len() implies is_match(g1, g2, (#[trigger] mapping@[t])@)
                        && listed_by_branch(g1, g2, s0, pairs@, k + 1, mapping@[t]@) by {
                        if t < mb.len() {
                            assert(mapping@[t] == mb[t]);
                            let (f1, f2, j) = choose|f1: Seq<Option<usize>>, f2: Seq<usize>, j: int|
                                0 <= j < k && full_match(g1, g2, f1, f2) && extends(s0, f1) && f1[pairs@[j].0 as int]
                                    == Some(pairs@[j].1) && lists(g1, g2, f1, mb[t]@);
                            assert(lists(g1, g2, f1, mapping@[t]@));
                        } else {
                            let (f1, f2) = choose|f1: Seq<Option<usize>>, f2: Seq<usize>|
                                full_match(g1, g2, f1, f2) && extends(e, f1) && lists(g1, g2, f1, mapping@[t]@);
                            assert(e.core_1[p as int] == Some(h));
                            assert(f1[p as int] == Some(h));
                            assert(extends(s0, f1));
                            assert(pairs@[k as int] == (p, h));
                        }
                    }
                    assert forall|a: int, b: int|
                        m0.len() <= a < mapping@.len() && m0.len() <= b < mapping@.len() && a != b implies !same_listing(
                        (#[trigger] mapping@[a])@,
                        (#[trigger] mapping@[b])@,
                    ) by {
                        if a < mb.len() && b < mb.len() {
                            assert(mapping@[a] == mb[a]);
                            assert(mapping@[b] == mb[b]);
                        } else if a >= mb.len() && b >= mb.len() {
                        } else {
                            let (lo, hi) = if a < b { (a, b) } else { (b, a) };
                            assert(mapping@[lo] == mb[lo]);
                            let (f1, f2, j) = choose|f1: Seq<Option<usize>>, f2: Seq<usize>, j: int|
                                0 <= j < k && full_match(g1, g2, f1, f2) && extends(s0, f1) && f1[pairs@[j].0 as int]
                                    == Some(pairs@[j].1) && lists(g1, g2, f1, mb[lo]@);
                            let (h1, h2) = choose|h1: Seq<Option<usize>>, h2: Seq<usize>|
                                full_match(g1, g2, h1, h2) && extends(e, h1) && lists(g1, g2, h1, mapping@[hi]@);
                            assert(e.core_1[p as int] == Some(h));
                            assert(h1[p as int] == Some(h));
                            assert(pairs@[k as int] == (p, h));
                            assert(pairs@[j].1 == h);
                            assert(pairs@[j].0 != p);
                            if same_listing(mapping@[a]@, mapping@[b]@) {
                                if a < b {
                                    lemma_listing_determines(g1, g2, f1, f2, h1, h2, mapping@[lo]@, mapping@[hi]@);
                                } else {
                                    assert(same_listing(mapping@[lo]@, mapping@[hi]@));
                                    lemma_listing_determines(g1, g2, f1, f2, h1, h2, mapping@[lo]@, mapping@[hi]@);
                                }
                                assert(f2[h as int] == p);
                                assert(f2[h as int] == pairs@[j].0);
                            }
                        }
                    }
                    if mode != MatchMode::Graph || g1.n() == g2.n() {
                        assert forall|f1: Seq<Option<usize>>, f2: Seq<usize>|
                            full_match(g1, g2, f1, f2) && extends(s0, f1) && f1[p as int] == Some(h) implies emitted(
                            g1,
                            g2,
                            f1,
                            mapping@,
                            m0.len() as int,
                        ) by {
                            assert(extends(e, f1));
                            let kk = choose|kk: int| mb.len() <= kk < mapping@.len() && lists(g1, g2, f1, (#[trigger] mapping@[kk])@);
                            assert(lists(g1, g2, f1, mapping@[kk]@));
                        }
                    }
                }
            }
            proof {
                if mode != MatchMode::Graph || g1.n() == g2.n() {
                    assert forall|f1: Seq<Option<usize>>, f2: Seq<usize>, t: int|
                        #![trigger full_match(g1, g2, f1, f2), pairs@[t]]
                        full_match(g1, g2, f1, f2) && extends(s0, f1) && 0 <= t < k + 1 && f1[pairs@[t].0 as int]
                            == Some(pairs@[t].1) implies emitted(g1, g2, f1, mapping@, m0.len() as int) by {
                        if t < k {
                            assert(emitted(g1, g2, f1, mb, m0.len() as int));
                            let kk = choose|kk: int| m0.len() <= kk < mb.len() && lists(g1, g2, f1, (#[trigger] mb[kk])@);
                            assert(mapping@[kk] == mb[kk]);
                            assert(lists(g1, g2, f1, mapping@[kk]@));
                        } else {
                            assert(pairs@[t] == (p, h));
                        }
                    }
                }
            }
            k += 1;
        }
        proof {
            if mode != MatchMode::Graph || g1.n() == g2.n() {
                assert forall|f1: Seq<Option<usize>>, f2: Seq<usize>|
                    full_match(g1, g2, f1, f2) && extends(s0, f1) implies emitted(
                    g1,
                    g2,
                    f1,
                    mapping@,
                    m0.len() as int,
                ) by {
                    lemma_candidate_for(s0, g1, g2, f1, f2);
                    let t = choose|t: int|
                        0 <= t < s0.candidates().len() && f1[(#[trigger] s0.candidates()[t]).0 as int]
                            == Some(s0.candidates()[t].1);
                    assert(pairs@[t] == s0.candidates()[t]);
                }
            }
        }
    }
}

/// An empty graph.
fn empty_graph() -> (r: IndexedGraph)
    ensures
        r.wf(),
        r.n() == 0,
{
    IndexedGraph { names: Vec::new(), weights: Vec::new(), succs: Vec::new(), preds: Vec::new() }
}

impl DiGraphMatcher {
    /// A matcher that looks for the ways in which `g2` maps into `g1`, in
    /// graph mode. Where a node of either graph lists a neighbour that is not
    /// a node, the matcher keeps that name and holds two empty graphs.
    pub fn new(g1: &DiGraph, g2: &DiGraph) -> (r: DiGraphMatcher)
        requires
            g1.wf(),
            g2.wf(),
        ensures
            r.inv(),
            r.test == MatchMode::Graph,
            r@ == MatchState::empty(r.g1.n(), r.g2.n()),
            r.unknown is None <==> g1@.closed() && g2@.closed(),
            r.unknown is None ==> r.g1.models(g1@) && r.g2.models(g2@),
            r.unknown matches Some(k) ==> {
                ||| !g1@.closed() && g1@.mentions(k@) && !g1@.has_node(k@)
                ||| g1@.closed() && !g2@.closed() && g2@.mentions(k@) && !g2@.has_node(k@)
            },
    {
        match IndexedGraph::from_graph(g1) {
            Err(GraphError::UnknownNode(k)) => {
                let mut r = DiGraphMatcher::with_graphs(empty_graph(), empty_graph());
                r.unknown = Some(k);
                r
            },
            Ok(ix1) => match IndexedGraph::from_graph(g2) {
                Err(GraphError::UnknownNode(k)) => {
                    let mut r = DiGraphMatcher::with_graphs(empty_graph(), empty_graph());
                    r.unknown = Some(k);
                    r
                },
                Ok(ix2) => DiGraphMatcher::with_graphs(ix1, ix2),
            },
        }
    }

    /// Runs the search from scratch in the current mode and appends matches
    /// of `g2` into `g1` to `mapping`: only matches, none twice, and all of
    /// them outside graph mode or between graphs of equal size. Fails,
    /// appending nothing, where a graph lists a neighbour that is not a node.
    pub fn enumerate(&mut self, mapping: &mut Vec<Vec<(String, String)>>) -> (r: Result<(), GraphError>)
        requires
            old(self).inv(),
        ensures
            final(self).inv(),
            final(self).same_setting(old(self)),
            final(self)@ == MatchState::empty(old(self).g1.n(), old(self).g2.n()) || r is Err,
            r is Ok <==> old(self).unknown is None,
            r matches Err(GraphError::UnknownNode(k)) ==> old(self).unknown == Some(k),
            r is Ok && old(self).g2.n() == 0 ==> final(mapping)@.len() == old(mapping)@.len() + 1,
            old(self).g1.n() < old(self).g2.n() ==> final(mapping)@ == old(mapping)@,
            r is Ok && (old(self).test != MatchMode::Graph || old(self).g1.n() == old(self).g2.n()) ==> forall|f1: Seq<Option<usize>>, f2: Seq<usize>|
                full_match(old(self).g1, old(self).g2, f1, f2) ==> emitted(
                    old(self).g1,
                    old(self).g2,
                    f1,
                    final(mapping)@,
                    old(mapping)@.len() as int,
                ),
            r is Err ==> final(mapping)@ == old(mapping)@,
            old(mapping)@.len() <= final(mapping)@.len(),
            forall|k: int| 0 <= k < old(mapping)@.len() ==> final(mapping)@[k] == old(mapping)@[k],
            forall|k: int|
                old(mapping)@.len() <= k < final(mapping)@.len() ==> is_match(
                    old(self).g1,
                    old(self).g2,
                    (#[trigger] final(mapping)@[k])@,
                ) && lists_a_match(old(self).g1, old(self).g2, final(mapping)@[k]@),
            listed_once(final(mapping)@, old(mapping)@.len() as int),
    {
        if let Some(k) = &self.unknown {
            return Err(GraphError::UnknownNode(k.clone()));
        }
        proof {
            if self.g1.n() < self.g2.n() {
                assert forall|m: Seq<(String, String)>| !is_match(self.g1, self.g2, m) by {
                    lemma_no_match_into_smaller(self.g1, self.g2, m);
                }
            }
        }
        let _start = DiGMState::create(self, None, None);
        proof {
            assert(self@.consistent(self.g1, self.g2));
            assert(weights_respected(self@, self.g1, self.g2));
            lemma_empty_exact(self.g1, self.g2);
        }
        self.try_match(mapping);
        proof {
            if self.g1.n() < self.g2.n() {
                if mapping@.len() > old(mapping)@.len() {
                    assert(is_match(self.g1, self.g2, mapping@[old(mapping)@.len() as int]@));
                }
                assert(mapping@ =~= old(mapping)@);
            }
        }
        Ok(())
    }

    /// Looks for the subgraphs of `g1` isomorphic to `g2`: sets subgraph
    /// mode and runs `enumerate`.
    pub fn subgraph_isomorphisms_iter(&mut self, mapping: &mut Vec<Vec<(String, String)>>) -> (r: Result<(), GraphError>)
        requires
            old(self).inv(),
        ensures
            final(self).inv(),
            final(self).test == MatchMode::Subgraph,
            final(self).g1 == old(self).g1,
            final(self).g2 == old(self).g2,
            r is Ok <==> old(self).unknown is None,
            r is Err ==> final(mapping)@ == old(mapping)@,
            r is Ok && old(self).g2.n() == 0 ==> final(mapping)@.len() == old(mapping)@.len() + 1,
            old(self).g1.n() < old(self).g2.n() ==> final(mapping)@ == old(mapping)@,
            r is Ok ==> forall|f1: Seq<Option<usize>>, f2: Seq<usize>|
                full_match(old(self).g1, old(self).g2, f1, f2) ==> emitted(
                    old(self).g1,
                    old(self).g2,
                    f1,
                    final(mapping)@,
                    old(mapping)@.len() as int,
                ),
            old(mapping)@.len() <= final(mapping)@.len(),
            forall|k: int| 0 <= k < old(mapping)@.len() ==> final(mapping)@[k] == old(mapping)@[k],
            forall|k: int|
                old(mapping)@.len() <= k < final(mapping)@.len() ==> is_match(
                    old(self).g1,
                    old(self).g2,
                    (#[trigger] final(mapping)@[k])@,
                ) && lists_a_match(old(self).g1, old(self).g2, final(mapping)@[k]@),
            listed_once(final(mapping)@, old(mapping)@.len() as int),
    {
        self.set_mode(MatchMode::Subgraph);
        self.enumerate(mapping)
    }
}

/// The empty state is well formed.
proof fn lemma_empty_wf(n1: nat, n2: nat)
    ensures
        MatchState::empty(n1, n2).wf(n1, n2),
{
    let e = MatchState::empty(n1, n2);
    lemma_core_size_none(n1);
    lemma_core_size_none(n2);
}

/// A table of absent entries maps nothing.
proof fn lemma_core_size_none(n: nat)
    ensures
        core_size(Seq::new(n, |i: int| None::<usize>)) == 0,
    decreases n,
{
    if n > 0 {
        lemma_core_size_none((n - 1) as nat);
        assert(Seq::new(n, |i: int| None::<usize>).drop_last() =~= Seq::new(
            (n - 1) as nat,
            |i: int| None::<usize>,
        ));
    }
}

} // verus!
