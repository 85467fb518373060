//! Why the search misses no match: a state that extends to a match keeps a
//! candidate pair that the match uses, and that pair passes every test.
use vstd::prelude::*;
use vstd::relations::injective_on;
use vstd::set_lib::{lemma_int_range, lemma_len_subset, lemma_map_size, set_int_range};
use crate::algorithm::adjacency::IndexedGraph;
use crate::graph::digraph::DiGraphView;
use crate::graph::node::opt_text;
use crate::algorithm::isomorphism::weights_agree;
use crate::algorithm::state::{
    core_size, lemma_core_size_bound, lemma_core_size_insert, lemma_mapped_pairs, mapped_pairs, count_outside, count_terminal, grown, lemma_terminal, lemma_unmapped, paired_with, terminal,
    touches_core, unmapped, MatchMode, MatchState,
};

verus! {

/// How many entries of `s` satisfy `p`.
pub open spec fn count_where(s: Seq<usize>, p: spec_fn(usize) -> bool) -> nat
    decreases s.len(),
{
    if s.len() == 0 {
        0
    } else {
        count_where(s.drop_last(), p) + if p(s.last()) {
            1nat
        } else {
            0nat
        }
    }
}

/// The entries of `s` that satisfy `p`, as a set.
pub open spec fn where_set(s: Seq<usize>, p: spec_fn(usize) -> bool) -> Set<usize> {
    Set::new(|x: usize| s.contains(x) && p(x))
}

/// Without repeats, the count is the size of the set of counted entries.
proof fn lemma_count_set(s: Seq<usize>, p: spec_fn(usize) -> bool)
    requires
        s.no_duplicates(),
    ensures
        where_set(s, p).finite(),
        where_set(s, p).len() == count_where(s, p),
    decreases s.len(),
{
    if s.len() == 0 {
        assert(where_set(s, p) =~= Set::<usize>::empty());
    } else {
        let r = s.drop_last();
        let x = s.last();
        assert(r.no_duplicates());
        lemma_count_set(r, p);
        assert(!r.contains(x)) by {
            if r.contains(x) {
                let k = choose|k: int| 0 <= k < r.len() && r[k] == x;
                assert(s[k] == s[s.len() - 1]);
            }
        }
        assert forall|y: usize| s.contains(y) <==> (r.contains(y) || y == x) by {
            if s.contains(y) {
                let k = choose|k: int| 0 <= k < s.len() && s[k] == y;
                if k < r.len() {
                    assert(r[k] == y);
                }
            }
            if r.contains(y) {
                let k = choose|k: int| 0 <= k < r.len() && r[k] == y;
                assert(s[k] == y);
            }
            if y == x {
                assert(s[s.len() - 1] == y);
            }
        }
        if p(x) {
            assert(where_set(s, p) =~= where_set(r, p).insert(x));
        } else {
            assert(where_set(s, p) =~= where_set(r, p));
        }
    }
}

/// If `f` takes the counted entries of `b` one to one into counted entries
/// of `a`, then `b` counts no more than `a`.
pub proof fn lemma_count_le(
    a: Seq<usize>,
    pa: spec_fn(usize) -> bool,
    b: Seq<usize>,
    pb: spec_fn(usize) -> bool,
    f: spec_fn(usize) -> usize,
)
    requires
        a.no_duplicates(),
        b.no_duplicates(),
        forall|x: usize| b.contains(x) && pb(x) ==> a.contains(#[trigger] f(x)) && pa(f(x)),
        forall|x: usize, y: usize|
            b.contains(x) && b.contains(y) && pb(x) && pb(y) && #[trigger] f(x) == #[trigger] f(y)
                ==> x == y,
    ensures
        count_where(b, pb) <= count_where(a, pa),
{
    lemma_count_set(a, pa);
    lemma_count_set(b, pb);
    let sb = where_set(b, pb);
    let sa = where_set(a, pa);
    assert(injective_on(f, sb));
    lemma_map_size(sb, sb.map(f), f);
    assert forall|y: usize| sb.map(f).contains(y) implies sa.contains(y) by {
        let x = choose|x: usize| sb.contains(x) && f(x) == y;
    }
    lemma_len_subset(sb.map(f), sa);
}

/// `count_terminal` counts the entries present in `f` and absent from `core`.
pub proof fn lemma_count_terminal(nbrs: Seq<usize>, f: Seq<Option<usize>>, core: Seq<Option<usize>>)
    ensures
        count_terminal(nbrs, f, core) == count_where(
            nbrs,
            |x: usize| f[x as int] is Some && core[x as int] is None,
        ),
    decreases nbrs.len(),
{
    if nbrs.len() > 0 {
        lemma_count_terminal(nbrs.drop_last(), f, core);
    }
}

/// `count_outside` counts the entries absent from both tables.
pub proof fn lemma_count_outside(nbrs: Seq<usize>, fin: Seq<Option<usize>>, fout: Seq<Option<usize>>)
    ensures
        count_outside(nbrs, fin, fout) == count_where(
            nbrs,
            |x: usize| fin[x as int] is None && fout[x as int] is None,
        ),
    decreases nbrs.len(),
{
    if nbrs.len() > 0 {
        lemma_count_outside(nbrs.drop_last(), fin, fout);
    }
}

/// A match of all of `g2` into `g1` by positions: `f1` maps positions of
/// `g1` to positions of `g2` and `f2` back, paired nodes carry agreeing
/// weights, and `g2` has an edge exactly where `g1` has one between the images.
pub open spec fn full_match(g1: IndexedGraph, g2: IndexedGraph, f1: Seq<Option<usize>>, f2: Seq<usize>) -> bool {
    &&& f1.len() == g1.n()
    &&& f2.len() == g2.n()
    &&& forall|j: int| 0 <= j < g2.n() ==> (#[trigger] f2[j]) < g1.n() && f1[f2[j] as int] == Some(j as usize)
    &&& forall|i: int|
        0 <= i < g1.n() && (#[trigger] f1[i]) is Some ==> f1[i]->0 < g2.n() && f2[f1[i]->0 as int] == i as usize
    &&& forall|j: int| 0 <= j < g2.n() ==> weights_agree(g1.weights@[f2[j] as int], (#[trigger] g2.weights@[j]))
    &&& forall|j: int, k: int|
        0 <= j < g2.n() && 0 <= k < g2.n() ==> (g2.has_edge(j, k) <==> g1.has_edge(
            #[trigger] f2[j] as int,
            #[trigger] f2[k] as int,
        ))
}

/// Every pair that the state maps, `f1` maps too.
pub open spec fn extends(s: MatchState, f1: Seq<Option<usize>>) -> bool {
    forall|i: int| 0 <= i < s.core_1.len() && (#[trigger] s.core_1[i]) is Some ==> f1[i] == s.core_1[i]
}

/// Each frontier table holds exactly the mapped nodes and their neighbours
/// in its direction: `in` the nodes with a mapped successor, `out` those
/// with a mapped predecessor.
pub open spec fn frontier_exact(s: MatchState, g1: IndexedGraph, g2: IndexedGraph) -> bool {
    &&& forall|i: int|
        0 <= i < g1.n() ==> ((#[trigger] s.in_1[i]) is Some <==> s.core_1[i] is Some || touches_core(
            s.core_1,
            g1.succs@[i]@,
        ))
    &&& forall|i: int|
        0 <= i < g1.n() ==> ((#[trigger] s.out_1[i]) is Some <==> s.core_1[i] is Some || touches_core(
            s.core_1,
            g1.preds@[i]@,
        ))
    &&& forall|j: int|
        0 <= j < g2.n() ==> ((#[trigger] s.in_2[j]) is Some <==> s.core_2[j] is Some || touches_core(
            s.core_2,
            g2.succs@[j]@,
        ))
    &&& forall|j: int|
        0 <= j < g2.n() ==> ((#[trigger] s.out_2[j]) is Some <==> s.core_2[j] is Some || touches_core(
            s.core_2,
            g2.preds@[j]@,
        ))
}

/// Mapping one more node keeps a mapped neighbour mapped.
proof fn lemma_touches_grows(core: Seq<Option<usize>>, nbrs: Seq<usize>, p: int, v: usize)
    requires
        touches_core(core, nbrs),
        0 <= p < core.len(),
        forall|k: int| 0 <= k < nbrs.len() ==> nbrs[k] < core.len(),
    ensures
        touches_core(core.update(p, Some(v)), nbrs),
{
    let t = choose|t: int| 0 <= t < nbrs.len() && (#[trigger] core[nbrs[t] as int]) is Some;
    assert(core.update(p, Some(v))[nbrs[t] as int] is Some);
}

/// A grown frontier table is exact for the grown mapping when the table was
/// exact before.
proof fn lemma_grown_exact(
    f: Seq<Option<usize>>,
    core: Seq<Option<usize>>,
    adj: Seq<Vec<usize>>,
    p: int,
    v: usize,
    d: nat,
    i: int,
)
    requires
        0 <= i < f.len(),
        0 <= p < core.len(),
        f.len() == core.len(),
        core[p] is None,
        adj.len() == core.len(),
        forall|k: int| 0 <= k < adj[i]@.len() ==> adj[i]@[k] < core.len(),
        f[i] is Some <==> core[i] is Some || touches_core(core, adj[i]@),
    ensures
        grown(f, core.update(p, Some(v)), adj, p, d)[i] is Some <==> core.update(p, Some(v))[i] is Some
            || touches_core(core.update(p, Some(v)), adj[i]@),
{
    let c = core.update(p, Some(v));
    if touches_core(core, adj[i]@) {
        lemma_touches_grows(core, adj[i]@, p, v);
    }
}

/// Extending a state keeps its frontier tables exact.
pub proof fn lemma_extended_exact(s: MatchState, g1: IndexedGraph, g2: IndexedGraph, p: int, h: int)
    requires
        g1.wf(),
        g2.wf(),
        s.wf(g1.n(), g2.n()),
        frontier_exact(s, g1, g2),
        0 <= p < g1.n(),
        0 <= h < g2.n(),
        s.core_1[p] is None,
        s.core_2[h] is None,
    ensures
        frontier_exact(s.extended(g1, g2, p, h), g1, g2),
{
    let e = s.extended(g1, g2, p, h);
    assert forall|i: int| 0 <= i < g1.n() implies ((#[trigger] e.in_1[i]) is Some <==> e.core_1[i] is Some
        || touches_core(e.core_1, g1.succs@[i]@)) by {
        lemma_grown_exact(s.in_1, s.core_1, g1.succs@, p, h as usize, s.depth, i);
    }
    assert forall|i: int| 0 <= i < g1.n() implies ((#[trigger] e.out_1[i]) is Some <==> e.core_1[i] is Some
        || touches_core(e.core_1, g1.preds@[i]@)) by {
        lemma_grown_exact(s.out_1, s.core_1, g1.preds@, p, h as usize, s.depth, i);
    }
    assert forall|j: int| 0 <= j < g2.n() implies ((#[trigger] e.in_2[j]) is Some <==> e.core_2[j] is Some
        || touches_core(e.core_2, g2.succs@[j]@)) by {
        lemma_grown_exact(s.in_2, s.core_2, g2.succs@, h, p as usize, s.depth, j);
    }
    assert forall|j: int| 0 <= j < g2.n() implies ((#[trigger] e.out_2[j]) is Some <==> e.core_2[j] is Some
        || touches_core(e.core_2, g2.preds@[j]@)) by {
        lemma_grown_exact(s.out_2, s.core_2, g2.preds@, h, p as usize, s.depth, j);
    }
}

/// The state's mapping and frontiers look the same from a node `x` of `g2`
/// and from its image `f2[x]` in `g1`.
pub proof fn lemma_image(
    s: MatchState,
    g1: IndexedGraph,
    g2: IndexedGraph,
    f1: Seq<Option<usize>>,
    f2: Seq<usize>,
    x: int,
)
    requires
        g1.wf(),
        g2.wf(),
        s.wf(g1.n(), g2.n()),
        frontier_exact(s, g1, g2),
        full_match(g1, g2, f1, f2),
        extends(s, f1),
        0 <= x < g2.n(),
    ensures
        s.core_2[x] is Some <==> s.core_1[f2[x] as int] is Some,
        s.in_2[x] is Some <==> s.in_1[f2[x] as int] is Some,
        s.out_2[x] is Some <==> s.out_1[f2[x] as int] is Some,
{
    let fx = f2[x] as int;
    assert(f1[fx] == Some(x as usize));
    if s.core_1[fx] is Some {
        assert(f1[fx] == s.core_1[fx]);
    }
    if s.core_2[x] is Some {
        let i = s.core_2[x]->0 as int;
        assert(s.core_1[i] == Some(x as usize));
        assert(f1[i] == Some(x as usize));
    }
    // successors
    if touches_core(s.core_2, g2.succs@[x]@) {
        let t = choose|t: int| 0 <= t < g2.succs@[x]@.len() && (#[trigger] s.core_2[g2.succs@[x]@[t] as int]) is Some;
        let y = g2.succs@[x]@[t] as int;
        let i0 = s.core_2[y]->0 as int;
        assert(s.core_1[i0] == Some(y as usize));
        assert(f1[i0] == Some(y as usize));
        assert(f2[y] == i0 as usize);
        assert(g2.has_edge(x, y));
        assert(g1.has_edge(fx, f2[y] as int));
        let t1 = choose|t1: int| 0 <= t1 < g1.succs@[fx]@.len() && g1.succs@[fx]@[t1] == i0 as usize;
        assert(s.core_1[g1.succs@[fx]@[t1] as int] is Some);
    }
    if touches_core(s.core_1, g1.succs@[fx]@) {
        let t = choose|t: int| 0 <= t < g1.succs@[fx]@.len() && (#[trigger] s.core_1[g1.succs@[fx]@[t] as int]) is Some;
        let y1 = g1.succs@[fx]@[t] as int;
        let y2 = s.core_1[y1]->0 as int;
        assert(f1[y1] == Some(y2 as usize));
        assert(f2[y2] == y1 as usize);
        assert(g1.has_edge(f2[x] as int, f2[y2] as int));
        assert(g2.has_edge(x, y2));
        assert(s.core_2[y2] == Some(y1 as usize));
        let t2 = choose|t2: int| 0 <= t2 < g2.succs@[x]@.len() && g2.succs@[x]@[t2] == y2 as usize;
        assert(s.core_2[g2.succs@[x]@[t2] as int] is Some);
    }
    // predecessors
    if touches_core(s.core_2, g2.preds@[x]@) {
        let t = choose|t: int| 0 <= t < g2.preds@[x]@.len() && (#[trigger] s.core_2[g2.preds@[x]@[t] as int]) is Some;
        let y = g2.preds@[x]@[t] as int;
        let i0 = s.core_2[y]->0 as int;
        assert(s.core_1[i0] == Some(y as usize));
        assert(f1[i0] == Some(y as usize));
        assert(f2[y] == i0 as usize);
        assert(g2.preds@[x]@.contains(y as usize));
        assert(g2.succs@[y]@.contains(x as usize));
        assert(g2.has_edge(y, x));
        assert(g1.has_edge(f2[y] as int, fx));
        assert(g1.preds@[fx]@.contains(i0 as usize));
        let t1 = choose|t1: int| 0 <= t1 < g1.preds@[fx]@.len() && g1.preds@[fx]@[t1] == i0 as usize;
        assert(s.core_1[g1.preds@[fx]@[t1] as int] is Some);
    }
    if touches_core(s.core_1, g1.preds@[fx]@) {
        let t = choose|t: int| 0 <= t < g1.preds@[fx]@.len() && (#[trigger] s.core_1[g1.preds@[fx]@[t] as int]) is Some;
        let y1 = g1.preds@[fx]@[t] as int;
        let y2 = s.core_1[y1]->0 as int;
        assert(f1[y1] == Some(y2 as usize));
        assert(f2[y2] == y1 as usize);
        assert(g1.preds@[fx]@.contains(y1 as usize));
        assert(g1.succs@[y1]@.contains(fx as usize));
        assert(g1.has_edge(f2[y2] as int, f2[x] as int));
        assert(g2.has_edge(y2, x));
        assert(g2.preds@[x]@.contains(y2 as usize));
        assert(s.core_2[y2] == Some(y1 as usize));
        let t2 = choose|t2: int| 0 <= t2 < g2.preds@[x]@.len() && g2.preds@[x]@[t2] == y2 as usize;
        assert(s.core_2[g2.preds@[x]@[t2] as int] is Some);
    }
}

/// `terminal` lists every position that qualifies.
proof fn lemma_terminal_has(f: Seq<Option<usize>>, core: Seq<Option<usize>>, n: nat, i: int)
    requires
        0 <= i < n,
        n <= usize::MAX,
        f[i] is Some,
        core[i] is None,
    ensures
        terminal(f, core, n).contains(i as usize),
    decreases n,
{
    if i < n - 1 {
        lemma_terminal_has(f, core, (n - 1) as nat, i);
        let r = terminal(f, core, (n - 1) as nat);
        let k = choose|k: int| 0 <= k < r.len() && r[k] == i as usize;
        assert(terminal(f, core, n)[k] == i as usize);
    } else {
        let r = terminal(f, core, (n - 1) as nat);
        assert(terminal(f, core, n)[r.len() as int] == i as usize);
    }
}

/// `unmapped` lists every unmapped position.
proof fn lemma_unmapped_has(core: Seq<Option<usize>>, n: nat, i: int)
    requires
        0 <= i < n,
        n <= usize::MAX,
        core[i] is None,
    ensures
        unmapped(core, n).contains(i as usize),
    decreases n,
{
    if i < n - 1 {
        lemma_unmapped_has(core, (n - 1) as nat, i);
        let r = unmapped(core, (n - 1) as nat);
        let k = choose|k: int| 0 <= k < r.len() && r[k] == i as usize;
        assert(unmapped(core, n)[k] == i as usize);
    } else {
        let r = unmapped(core, (n - 1) as nat);
        assert(unmapped(core, n)[r.len() as int] == i as usize);
    }
}

/// A table that maps every key has as many mapped keys as entries.
proof fn lemma_core_full(core: Seq<Option<usize>>)
    requires
        forall|i: int| 0 <= i < core.len() ==> (#[trigger] core[i]) is Some,
    ensures
        core_size(core) == core.len(),
    decreases core.len(),
{
    if core.len() > 0 {
        assert forall|i: int| 0 <= i < core.drop_last().len() implies (#[trigger] core.drop_last()[i]) is Some by {
            assert(core.drop_last()[i] == core[i]);
        }
        lemma_core_full(core.drop_last());
    }
}

/// Some pair that a match uses is among the candidates of every state short
/// of complete that it extends.
pub proof fn lemma_candidate_for(
    s: MatchState,
    g1: IndexedGraph,
    g2: IndexedGraph,
    f1: Seq<Option<usize>>,
    f2: Seq<usize>,
)
    requires
        g1.wf(),
        g2.wf(),
        s.wf(g1.n(), g2.n()),
        frontier_exact(s, g1, g2),
        full_match(g1, g2, f1, f2),
        extends(s, f1),
        s.depth < g2.n(),
    ensures
        exists|k: int|
            0 <= k < s.candidates().len() && f1[(#[trigger] s.candidates()[k]).0 as int] == Some(
                s.candidates()[k].1,
            ),
{
    let n1 = g1.n();
    let n2 = g2.n();
    let o1 = terminal(s.out_1, s.core_1, s.core_1.len());
    let o2 = terminal(s.out_2, s.core_2, s.core_2.len());
    let i1 = terminal(s.in_1, s.core_1, s.core_1.len());
    let i2 = terminal(s.in_2, s.core_2, s.core_2.len());
    let u1 = unmapped(s.core_1, s.core_1.len());
    let u2 = unmapped(s.core_2, s.core_2.len());
    lemma_terminal(s.out_2, s.core_2, n2);
    lemma_terminal(s.in_2, s.core_2, n2);
    lemma_unmapped(s.core_2, n2);
    let c = s.candidates();
    if o1.len() > 0 && o2.len() > 0 {
        let h = o2[0] as int;
        let p = f2[h] as int;
        lemma_image(s, g1, g2, f1, f2, h);
        lemma_terminal_has(s.out_1, s.core_1, n1, p);
        let k = choose|k: int| 0 <= k < o1.len() && o1[k] == p as usize;
        assert(c == paired_with(o1, o2[0]));
        assert(c[k] == (p as usize, h as usize));
    } else if i1.len() > 0 && i2.len() > 0 {
        let h = i2[0] as int;
        let p = f2[h] as int;
        lemma_image(s, g1, g2, f1, f2, h);
        lemma_terminal_has(s.in_1, s.core_1, n1, p);
        let k = choose|k: int| 0 <= k < i1.len() && i1[k] == p as usize;
        assert(c == paired_with(i1, i2[0]));
        assert(c[k] == (p as usize, h as usize));
    } else {
        if u2.len() == 0 {
            assert forall|j: int| 0 <= j < s.core_2.len() implies (#[trigger] s.core_2[j]) is Some by {
                if s.core_2[j] is None {
                    lemma_unmapped_has(s.core_2, n2, j);
                }
            }
            lemma_core_full(s.core_2);
            assert(false);
        }
        let h = u2[0] as int;
        let p = f2[h] as int;
        lemma_image(s, g1, g2, f1, f2, h);
        lemma_unmapped_has(s.core_1, n1, p);
        let k = choose|k: int| 0 <= k < u1.len() && u1[k] == p as usize;
        assert(c == paired_with(u1, u2[0]));
        assert(c[k] == (p as usize, h as usize));
    }
}

/// Under a match, neighbours of `h` in `g2` have images among the
/// neighbours of `f2[h]` in `g1`, and the images of distinct nodes differ.
proof fn lemma_lists_image(g1: IndexedGraph, g2: IndexedGraph, f1: Seq<Option<usize>>, f2: Seq<usize>, h: int)
    requires
        g1.wf(),
        g2.wf(),
        full_match(g1, g2, f1, f2),
        0 <= h < g2.n(),
    ensures
        forall|x: usize|
            g2.preds@[h]@.contains(x) ==> g1.preds@[f2[h] as int]@.contains(#[trigger] f2[x as int]),
        forall|x: usize|
            g2.succs@[h]@.contains(x) ==> g1.succs@[f2[h] as int]@.contains(#[trigger] f2[x as int]),
        forall|x: usize, y: usize|
            x < g2.n() && y < g2.n() && #[trigger] f2[x as int] == #[trigger] f2[y as int] ==> x == y,
{
    let p = f2[h] as int;
    assert forall|x: usize| g2.preds@[h]@.contains(x) implies g1.preds@[p]@.contains(#[trigger] f2[x as int]) by {
        let t = choose|t: int| 0 <= t < g2.preds@[h]@.len() && g2.preds@[h]@[t] == x;
        assert(x < g2.n());
        let xi = x as int;
        assert(xi as usize == x);
        assert(g2.preds@[h]@.contains(xi as usize));
        assert(g2.succs@[xi]@.contains(h as usize));
        assert(g2.has_edge(x as int, h));
        assert(g1.has_edge(f2[x as int] as int, p));
        assert(g1.succs@[f2[x as int] as int]@.contains(p as usize));
    }
    assert forall|x: usize| g2.succs@[h]@.contains(x) implies g1.succs@[p]@.contains(#[trigger] f2[x as int]) by {
        let t = choose|t: int| 0 <= t < g2.succs@[h]@.len() && g2.succs@[h]@[t] == x;
        assert(x < g2.n());
        assert(g2.has_edge(h, x as int));
        assert(g1.has_edge(p, f2[x as int] as int));
    }
    assert forall|x: usize, y: usize| x < g2.n() && y < g2.n() && #[trigger] f2[x as int] == #[trigger] f2[y as int] implies x == y by {
        assert(f1[f2[x as int] as int] == Some(x));
        assert(f1[f2[y as int] as int] == Some(y));
    }
}

/// A match between graphs of equal size maps every node of `g1`.
pub proof fn lemma_match_total(g1: IndexedGraph, g2: IndexedGraph, f1: Seq<Option<usize>>, f2: Seq<usize>)
    requires
        full_match(g1, g2, f1, f2),
        g1.n() == g2.n(),
    ensures
        forall|i: int| 0 <= i < g1.n() ==> (#[trigger] f1[i]) is Some,
{
    assert forall|i: int| 0 <= i < g1.n() implies (#[trigger] f1[i]) is Some by {
        if f1[i] is None {
            let dom = set_int_range(0, g2.n() as int);
            let f = |j: int| f2[j] as int;
            let img = dom.map(f);
            lemma_int_range(0, g2.n() as int);
            lemma_int_range(0, g1.n() as int);
            assert(injective_on(f, dom)) by {
                assert forall|j: int, k: int| dom.contains(j) && dom.contains(k) && #[trigger] f(j) == #[trigger] f(k) implies j == k by {
                    assert(f1[f2[j] as int] == Some(j as usize));
                    assert(f1[f2[k] as int] == Some(k as usize));
                }
            }
            lemma_map_size(dom, img, f);
            let rest = set_int_range(0, g1.n() as int).remove(i);
            assert forall|y: int| img.contains(y) implies rest.contains(y) by {
                let j = choose|j: int| dom.contains(j) && f(j) == y;
                assert(f2[j] < g1.n());
                assert(f1[f2[j] as int] == Some(j as usize));
            }
            lemma_len_subset(img, rest);
        }
    }
}

/// Under a match between graphs of equal size, neighbours of `f2[h]` in
/// `g1` have images among the neighbours of `h` in `g2`.
proof fn lemma_lists_preimage(g1: IndexedGraph, g2: IndexedGraph, f1: Seq<Option<usize>>, f2: Seq<usize>, h: int)
    requires
        g1.wf(),
        g2.wf(),
        full_match(g1, g2, f1, f2),
        g1.n() == g2.n(),
        0 <= h < g2.n(),
    ensures
        forall|x: usize|
            g1.preds@[f2[h] as int]@.contains(x) ==> g2.preds@[h]@.contains(#[trigger] f1[x as int]->0),
        forall|x: usize|
            g1.succs@[f2[h] as int]@.contains(x) ==> g2.succs@[h]@.contains(#[trigger] f1[x as int]->0),
        forall|x: usize|
            x < g1.n() ==> f1[x as int] is Some && f2[f1[x as int]->0 as int] == x,
        forall|x: usize, y: usize|
            x < g1.n() && y < g1.n() && #[trigger] f1[x as int] == #[trigger] f1[y as int] ==> x == y,
{
    let p = f2[h] as int;
    lemma_match_total(g1, g2, f1, f2);
    assert forall|x: usize| x < g1.n() implies f1[x as int] is Some && f2[f1[x as int]->0 as int] == x by {
        assert(f1[x as int] is Some);
    }
    assert forall|x: usize| g1.preds@[p]@.contains(x) implies g2.preds@[h]@.contains(#[trigger] f1[x as int]->0) by {
        let t = choose|t: int| 0 <= t < g1.preds@[p]@.len() && g1.preds@[p]@[t] == x;
        assert(x < g1.n());
        let xi = x as int;
        assert(xi as usize == x);
        assert(g1.preds@[p]@.contains(xi as usize));
        assert(g1.succs@[xi]@.contains(p as usize));
        let y = f1[xi]->0 as int;
        assert(f1[xi] is Some);
        assert(f2[y] == x);
        assert(g1.has_edge(f2[y] as int, f2[h] as int));
        assert(g2.has_edge(y, h));
    }
    assert forall|x: usize| g1.succs@[p]@.contains(x) implies g2.succs@[h]@.contains(#[trigger] f1[x as int]->0) by {
        let t = choose|t: int| 0 <= t < g1.succs@[p]@.len() && g1.succs@[p]@[t] == x;
        assert(x < g1.n());
        let y = f1[x as int]->0 as int;
        assert(f1[x as int] is Some);
        assert(f2[y] == x);
        assert(g1.has_edge(f2[h] as int, f2[y] as int));
        assert(g2.has_edge(h, y));
    }
    assert forall|x: usize, y: usize| x < g1.n() && y < g1.n() && #[trigger] f1[x as int] == #[trigger] f1[y as int] implies x == y by {
        assert(f1[x as int] is Some);
        assert(f1[y as int] is Some);
    }
}

/// A pair that a match uses, taken in a state that the match extends,
/// passes the weight test and the six syntactic tests, in graph mode where
/// the graphs are of equal size.
pub proof fn lemma_match_pair_feasible(
    s: MatchState,
    g1: IndexedGraph,
    g2: IndexedGraph,
    mode: MatchMode,
    f1: Seq<Option<usize>>,
    f2: Seq<usize>,
    h: int,
)
    requires
        g1.wf(),
        g2.wf(),
        s.wf(g1.n(), g2.n()),
        frontier_exact(s, g1, g2),
        full_match(g1, g2, f1, f2),
        extends(s, f1),
        0 <= h < g2.n(),
        s.core_2[h] is None,
        mode != MatchMode::Graph || g1.n() == g2.n(),
    ensures
        weights_agree(g1.weights@[f2[h] as int], g2.weights@[h]),
        s.syntactic_ok(g1, g2, mode, f2[h] as int, h),
{
    let p = f2[h] as int;
    assert(weights_agree(g1.weights@[f2[h] as int], g2.weights@[h]));
    assert(g2.has_edge(h, h) <==> g1.has_edge(p, p));
    lemma_lists_image(g1, g2, f1, f2, h);
    // predecessors and successors already mapped
    assert forall|t: int|
        #![trigger g1.preds@[p]@[t]]
        0 <= t < g1.preds@[p]@.len() && s.core_1[g1.preds@[p]@[t] as int] is Some implies {
            let q = g1.preds@[p]@[t];
            let q2 = s.core_1[q as int]->0;
            &&& g2.preds@[h]@.contains(q2)
            &&& g1.ec(q as int, p) == g2.ec(q2 as int, h)
        } by {
        let q = g1.preds@[p]@[t] as int;
        let q2 = s.core_1[q]->0 as int;
        assert(f1[q] == Some(q2 as usize));
        assert(f2[q2] == q as usize);
        assert(g1.preds@[p]@.contains(q as usize));
        assert(g1.succs@[q]@.contains(p as usize));
        assert(g1.has_edge(f2[q2] as int, f2[h] as int));
        assert(g2.has_edge(q2, h));
        assert(g2.preds@[h]@.contains(q2 as usize));
    }
    assert forall|t: int|
        #![trigger g2.preds@[h]@[t]]
        0 <= t < g2.preds@[h]@.len() && s.core_2[g2.preds@[h]@[t] as int] is Some implies {
            let q = g2.preds@[h]@[t];
            let q1 = s.core_2[q as int]->0;
            &&& g1.preds@[p]@.contains(q1)
            &&& g2.ec(q as int, h) == g1.ec(q1 as int, p)
        } by {
        let q = g2.preds@[h]@[t] as int;
        let q1 = s.core_2[q]->0 as int;
        assert(s.core_1[q1] == Some(q as usize));
        assert(f1[q1] == Some(q as usize));
        assert(f2[q] == q1 as usize);
        assert(g2.preds@[h]@.contains(q as usize));
        assert(g2.succs@[q]@.contains(h as usize));
        assert(g2.has_edge(q, h));
        assert(g1.has_edge(f2[q] as int, f2[h] as int));
        assert(g1.preds@[p]@.contains(q1 as usize));
    }
    assert forall|t: int|
        #![trigger g1.succs@[p]@[t]]
        0 <= t < g1.succs@[p]@.len() && s.core_1[g1.succs@[p]@[t] as int] is Some implies {
            let q = g1.succs@[p]@[t];
            let q2 = s.core_1[q as int]->0;
            &&& g2.succs@[h]@.contains(q2)
            &&& g1.ec(p, q as int) == g2.ec(h, q2 as int)
        } by {
        let q = g1.succs@[p]@[t] as int;
        let q2 = s.core_1[q]->0 as int;
        assert(f1[q] == Some(q2 as usize));
        assert(f2[q2] == q as usize);
        assert(g1.has_edge(f2[h] as int, f2[q2] as int));
        assert(g2.has_edge(h, q2));
    }
    assert forall|t: int|
        #![trigger g2.succs@[h]@[t]]
        0 <= t < g2.succs@[h]@.len() && s.core_2[g2.succs@[h]@[t] as int] is Some implies {
            let q = g2.succs@[h]@[t];
            let q1 = s.core_2[q as int]->0;
            &&& g1.succs@[p]@.contains(q1)
            &&& g2.ec(h, q as int) == g1.ec(p, q1 as int)
        } by {
        let q = g2.succs@[h]@[t] as int;
        let q1 = s.core_2[q]->0 as int;
        assert(s.core_1[q1] == Some(q as usize));
        assert(f1[q1] == Some(q as usize));
        assert(f2[q] == q1 as usize);
        assert(g2.has_edge(h, q));
        assert(g1.has_edge(f2[h] as int, f2[q] as int));
    }
    assert(s.pred_ok(g1, g2, p, h));
    assert(s.succ_ok(g1, g2, p, h));
    // look-ahead counts
    let img = |x: usize| f2[x as int];
    assert forall|x: usize| x < g2.n() implies {
        &&& (s.in_2[x as int] is Some <==> s.in_1[f2[x as int] as int] is Some)
        &&& (s.out_2[x as int] is Some <==> s.out_1[f2[x as int] as int] is Some)
        &&& (s.core_2[x as int] is Some <==> s.core_1[f2[x as int] as int] is Some)
    } by {
        lemma_image(s, g1, g2, f1, f2, x as int);
    }
    let in1 = |x: usize| s.in_1[x as int] is Some && s.core_1[x as int] is None;
    let in2 = |x: usize| s.in_2[x as int] is Some && s.core_2[x as int] is None;
    let out1 = |x: usize| s.out_1[x as int] is Some && s.core_1[x as int] is None;
    let out2 = |x: usize| s.out_2[x as int] is Some && s.core_2[x as int] is None;
    let new1 = |x: usize| s.in_1[x as int] is None && s.out_1[x as int] is None;
    let new2 = |x: usize| s.in_2[x as int] is None && s.out_2[x as int] is None;
    let pp1 = g1.preds@[p]@;
    let pp2 = g2.preds@[h]@;
    let ss1 = g1.succs@[p]@;
    let ss2 = g2.succs@[h]@;
    assert forall|x: usize| pp2.contains(x) implies x < g2.n() by {
        let t = choose|t: int| 0 <= t < pp2.len() && pp2[t] == x;
    }
    assert forall|x: usize| ss2.contains(x) implies x < g2.n() by {
        let t = choose|t: int| 0 <= t < ss2.len() && ss2[t] == x;
    }
    lemma_count_terminal(pp1, s.in_1, s.core_1);
    lemma_count_terminal(pp2, s.in_2, s.core_2);
    lemma_count_le(pp1, in1, pp2, in2, img);
    lemma_count_terminal(ss1, s.in_1, s.core_1);
    lemma_count_terminal(ss2, s.in_2, s.core_2);
    lemma_count_le(ss1, in1, ss2, in2, img);
    lemma_count_terminal(pp1, s.out_1, s.core_1);
    lemma_count_terminal(pp2, s.out_2, s.core_2);
    lemma_count_le(pp1, out1, pp2, out2, img);
    lemma_count_terminal(ss1, s.out_1, s.core_1);
    lemma_count_terminal(ss2, s.out_2, s.core_2);
    lemma_count_le(ss1, out1, ss2, out2, img);
    lemma_count_outside(pp1, s.in_1, s.out_1);
    lemma_count_outside(pp2, s.in_2, s.out_2);
    lemma_count_le(pp1, new1, pp2, new2, img);
    lemma_count_outside(ss1, s.in_1, s.out_1);
    lemma_count_outside(ss2, s.in_2, s.out_2);
    lemma_count_le(ss1, new1, ss2, new2, img);
    if mode == MatchMode::Graph {
        lemma_lists_preimage(g1, g2, f1, f2, h);
        let back = |x: usize| f1[x as int]->0;
        assert forall|x: usize| x < g1.n() implies {
            &&& (s.in_1[x as int] is Some <==> s.in_2[f1[x as int]->0 as int] is Some)
            &&& (s.out_1[x as int] is Some <==> s.out_2[f1[x as int]->0 as int] is Some)
            &&& (s.core_1[x as int] is Some <==> s.core_2[f1[x as int]->0 as int] is Some)
        } by {
            let y = f1[x as int]->0 as int;
            assert(f2[y] == x);
            assert(y < g2.n());
            lemma_image(s, g1, g2, f1, f2, y);
        }
        assert forall|x: usize| pp1.contains(x) implies x < g1.n() by {
            let t = choose|t: int| 0 <= t < pp1.len() && pp1[t] == x;
        }
        assert forall|x: usize| ss1.contains(x) implies x < g1.n() by {
            let t = choose|t: int| 0 <= t < ss1.len() && ss1[t] == x;
        }
        lemma_count_le(pp2, in2, pp1, in1, back);
        lemma_count_le(ss2, in2, ss1, in1, back);
        lemma_count_le(pp2, out2, pp1, out1, back);
        lemma_count_le(ss2, out2, ss1, out1, back);
        lemma_count_le(pp2, new2, pp1, new1, back);
        lemma_count_le(ss2, new2, ss1, new1, back);
    }
}

/// `m` lists the pairs of `f1` by name, by increasing position in `g1`.
pub open spec fn lists(g1: IndexedGraph, g2: IndexedGraph, f1: Seq<Option<usize>>, m: Seq<(String, String)>) -> bool {
    &&& m.len() == mapped_pairs(f1).len()
    &&& forall|k: int|
        0 <= k < m.len() ==> {
            &&& (#[trigger] m[k]).0@ == g1.names@[mapped_pairs(f1)[k].0 as int]@
            &&& m[k].1@ == g2.names@[mapped_pairs(f1)[k].1 as int]@
        }
}

/// Some entry of `ms` from position `from` on lists the pairs of `f1`.
pub open spec fn emitted(
    g1: IndexedGraph,
    g2: IndexedGraph,
    f1: Seq<Option<usize>>,
    ms: Seq<Vec<(String, String)>>,
    from: int,
) -> bool {
    exists|k: int| from <= k < ms.len() && lists(g1, g2, f1, (#[trigger] ms[k])@)
}

/// No list of a well-formed graph touches a table of absent entries.
proof fn lemma_untouched(g: IndexedGraph, i: int)
    requires
        g.wf(),
        0 <= i < g.n(),
    ensures
        !touches_core(Seq::new(g.n(), |k: int| None::<usize>), g.succs@[i]@),
        !touches_core(Seq::new(g.n(), |k: int| None::<usize>), g.preds@[i]@),
{
    let c = Seq::new(g.n(), |k: int| None::<usize>);
    if touches_core(c, g.succs@[i]@) {
        let t = choose|t: int| 0 <= t < g.succs@[i]@.len() && (#[trigger] c[g.succs@[i]@[t] as int]) is Some;
        assert(g.succs@[i]@[t] < g.n());
    }
    if touches_core(c, g.preds@[i]@) {
        let t = choose|t: int| 0 <= t < g.preds@[i]@.len() && (#[trigger] c[g.preds@[i]@[t] as int]) is Some;
        assert(g.preds@[i]@[t] < g.n());
    }
}

/// The state before any pair is mapped has exact frontiers.
pub proof fn lemma_empty_exact(g1: IndexedGraph, g2: IndexedGraph)
    requires
        g1.wf(),
        g2.wf(),
    ensures
        frontier_exact(MatchState::empty(g1.n(), g2.n()), g1, g2),
{
    let e = MatchState::empty(g1.n(), g2.n());
    assert forall|i: int| 0 <= i < g1.n() implies ((#[trigger] e.in_1[i]) is Some <==> e.core_1[i] is Some
        || touches_core(e.core_1, g1.succs@[i]@)) && (e.out_1[i] is Some <==> e.core_1[i] is Some
        || touches_core(e.core_1, g1.preds@[i]@)) by {
        lemma_untouched(g1, i);
    }
    assert forall|j: int| 0 <= j < g2.n() implies ((#[trigger] e.in_2[j]) is Some <==> e.core_2[j] is Some
        || touches_core(e.core_2, g2.succs@[j]@)) && (e.out_2[j] is Some <==> e.core_2[j] is Some
        || touches_core(e.core_2, g2.preds@[j]@)) by {
        lemma_untouched(g2, j);
    }
}

/// A table with as many mapped keys as entries maps every key.
proof fn lemma_core_all_some(core: Seq<Option<usize>>, j: int)
    requires
        core_size(core) == core.len(),
        0 <= j < core.len(),
    ensures
        core[j] is Some,
{
    if core[j] is None {
        lemma_core_size_insert(core, j, 0);
        lemma_core_size_bound(core.update(j, Some(0usize)));
    }
}

/// A complete state that a match extends maps exactly what the match maps.
pub proof fn lemma_complete_state_equals_match(
    s: MatchState,
    g1: IndexedGraph,
    g2: IndexedGraph,
    f1: Seq<Option<usize>>,
    f2: Seq<usize>,
)
    requires
        g1.wf(),
        g2.wf(),
        s.wf(g1.n(), g2.n()),
        full_match(g1, g2, f1, f2),
        extends(s, f1),
        s.depth == g2.n(),
    ensures
        s.core_1 == f1,
{
    assert forall|i: int| 0 <= i < f1.len() implies s.core_1[i] == f1[i] by {
        if s.core_1[i] is None && f1[i] is Some {
            let j = f1[i]->0 as int;
            lemma_core_all_some(s.core_2, j);
            let i2 = s.core_2[j]->0 as int;
            assert(s.core_1[i2] == Some(j as usize));
            assert(f1[i2] == Some(j as usize));
            assert(f2[j] == i2 as usize);
            assert(f2[j] == i as usize);
        }
    }
    assert(s.core_1 =~= f1);
}

/// Two numberings of the same graph match each other by the identity, so
/// matching a graph against itself finds the identity mapping.
pub proof fn lemma_identity_matches(g1: IndexedGraph, g2: IndexedGraph, g: DiGraphView)
    requires
        g1.wf(),
        g2.wf(),
        g1.models(g),
        g2.models(g),
    ensures
        full_match(
            g1,
            g2,
            Seq::new(g1.n(), |i: int| Some(i as usize)),
            Seq::new(g2.n(), |j: int| j as usize),
        ),
{
    let f1 = Seq::new(g1.n(), |i: int| Some(i as usize));
    let f2 = Seq::new(g2.n(), |j: int| j as usize);
    assert forall|j: int| 0 <= j < g2.n() implies weights_agree(g1.weights@[f2[j] as int], (#[trigger] g2.weights@[j])) by {
        assert(g1.names@[j]@ == g.nodes[j].name);
        assert(g2.names@[j]@ == g.nodes[j].name);
        assert(opt_text(g1.weights@[j]) == opt_text(g2.weights@[j]));
    }
    assert forall|j: int, k: int| 0 <= j < g2.n() && 0 <= k < g2.n() implies (g2.has_edge(j, k) <==> g1.has_edge(
        #[trigger] f2[j] as int,
        #[trigger] f2[k] as int,
    )) by {
        assert(f2[j] as int == j && f2[k] as int == k);
    }
}

/// `m` lists the pairs of some match of `g2` into `g1`.
pub open spec fn lists_a_match(g1: IndexedGraph, g2: IndexedGraph, m: Seq<(String, String)>) -> bool {
    exists|f1: Seq<Option<usize>>, f2: Seq<usize>| full_match(g1, g2, f1, f2) && lists(g1, g2, f1, m)
}

/// A complete, consistent state whose weights agree is a match: its first
/// mapping table, with the second read as a total map.
pub proof fn lemma_complete_state_matches(s: MatchState, g1: IndexedGraph, g2: IndexedGraph)
    requires
        g1.wf(),
        g2.wf(),
        s.wf(g1.n(), g2.n()),
        s.consistent(g1, g2),
        forall|i: int|
            0 <= i < s.core_1.len() && (#[trigger] s.core_1[i]) is Some ==> weights_agree(
                g1.weights@[i],
                g2.weights@[s.core_1[i]->0 as int],
            ),
        s.depth == g2.n(),
    ensures
        full_match(g1, g2, s.core_1, Seq::new(g2.n(), |j: int| s.core_2[j]->0)),
{
    let f2 = Seq::new(g2.n(), |j: int| s.core_2[j]->0);
    assert forall|j: int| 0 <= j < g2.n() implies (#[trigger] f2[j]) < g1.n() && s.core_1[f2[j] as int] == Some(j as usize) by {
        lemma_core_all_some(s.core_2, j);
    }
    assert forall|i: int| 0 <= i < g1.n() && (#[trigger] s.core_1[i]) is Some implies s.core_1[i]->0 < g2.n() && f2[s.core_1[i]->0 as int] == i as usize by {}
    assert forall|j: int| 0 <= j < g2.n() implies weights_agree(g1.weights@[f2[j] as int], (#[trigger] g2.weights@[j])) by {
        lemma_core_all_some(s.core_2, j);
        assert(s.core_1[f2[j] as int] == Some(j as usize));
    }
    assert forall|j: int, k: int| 0 <= j < g2.n() && 0 <= k < g2.n() implies (g2.has_edge(j, k) <==> g1.has_edge(
        #[trigger] f2[j] as int,
        #[trigger] f2[k] as int,
    )) by {
        lemma_core_all_some(s.core_2, j);
        lemma_core_all_some(s.core_2, k);
        assert(s.core_1[f2[j] as int] == Some(j as usize));
        assert(s.core_1[f2[k] as int] == Some(k as usize));
    }
}

/// Every mapped entry is listed.
proof fn lemma_mapped_pairs_has(core: Seq<Option<usize>>, i: int)
    requires
        0 <= i < core.len(),
        core.len() <= usize::MAX,
        core[i] is Some,
    ensures
        mapped_pairs(core).contains((i as usize, core[i]->0)),
    decreases core.len(),
{
    let rest = core.drop_last();
    let mr = mapped_pairs(rest);
    if i < core.len() - 1 {
        lemma_mapped_pairs_has(rest, i);
        let k = choose|k: int| 0 <= k < mr.len() && mr[k] == (i as usize, core[i]->0);
        assert(mapped_pairs(core)[k] == mr[k]);
    } else {
        assert(mapped_pairs(core)[mr.len() as int] == (i as usize, core[i]->0));
    }
}

/// Two listings agree name for name.
pub open spec fn same_listing(m1: Seq<(String, String)>, m2: Seq<(String, String)>) -> bool {
    &&& m1.len() == m2.len()
    &&& forall|k: int| 0 <= k < m1.len() ==> (#[trigger] m1[k]).0@ == m2[k].0@ && m1[k].1@ == m2[k].1@
}

/// Listings of two matches agree only where the matches are the same.
pub proof fn lemma_listing_determines(
    g1: IndexedGraph,
    g2: IndexedGraph,
    f1: Seq<Option<usize>>,
    f2: Seq<usize>,
    h1: Seq<Option<usize>>,
    h2: Seq<usize>,
    m: Seq<(String, String)>,
    n: Seq<(String, String)>,
)
    requires
        g1.wf(),
        g2.wf(),
        full_match(g1, g2, f1, f2),
        full_match(g1, g2, h1, h2),
        lists(g1, g2, f1, m),
        lists(g1, g2, h1, n),
        same_listing(m, n),
    ensures
        f1 == h1,
{
    let a = mapped_pairs(f1);
    let b = mapped_pairs(h1);
    lemma_mapped_pairs(f1);
    lemma_mapped_pairs(h1);
    assert forall|k: int| 0 <= k < a.len() implies a[k] == b[k] by {
        assert(m[k].0@ == n[k].0@ && m[k].1@ == n[k].1@);
        assert(f1[a[k].0 as int] == Some(a[k].1));
        assert(h1[b[k].0 as int] == Some(b[k].1));
        assert(g1.names@[a[k].0 as int]@ == g1.names@[b[k].0 as int]@);
        assert(g2.names@[a[k].1 as int]@ == g2.names@[b[k].1 as int]@);
    }
    assert forall|i: int| 0 <= i < f1.len() implies f1[i] == h1[i] by {
        if f1[i] is Some {
            lemma_mapped_pairs_has(f1, i);
            let k = choose|k: int| 0 <= k < a.len() && a[k] == (i as usize, f1[i]->0);
            assert(b[k] == a[k]);
        }
        if h1[i] is Some {
            lemma_mapped_pairs_has(h1, i);
            let k = choose|k: int| 0 <= k < b.len() && b[k] == (i as usize, h1[i]->0);
            assert(a[k] == b[k]);
        }
    }
    assert(f1 =~= h1);
}

/// `m` lists a match that extends `s`.
pub open spec fn lists_match_extending(g1: IndexedGraph, g2: IndexedGraph, s: MatchState, m: Seq<(String, String)>) -> bool {
    exists|f1: Seq<Option<usize>>, f2: Seq<usize>| full_match(g1, g2, f1, f2) && extends(s, f1) && lists(g1, g2, f1, m)
}

/// `m` lists a match that extends `s` and uses one of the first `k` of `pairs`.
pub open spec fn listed_by_branch(
    g1: IndexedGraph,
    g2: IndexedGraph,
    s: MatchState,
    pairs: Seq<(usize, usize)>,
    k: int,
    m: Seq<(String, String)>,
) -> bool {
    exists|f1: Seq<Option<usize>>, f2: Seq<usize>, j: int|
        0 <= j < k && full_match(g1, g2, f1, f2) && extends(s, f1) && f1[pairs[j].0 as int] == Some(pairs[j].1)
            && lists(g1, g2, f1, m)
}

/// No two entries of `ms` from position `from` on list the same pairs.
pub open spec fn listed_once(ms: Seq<Vec<(String, String)>>, from: int) -> bool {
    forall|a: int, b: int|
        from <= a < ms.len() && from <= b < ms.len() && a != b ==> !same_listing(
            (#[trigger] ms[a])@,
            (#[trigger] ms[b])@,
        )
}

/// Two listings of the same match agree name for name.
proof fn lemma_lists_same(g1: IndexedGraph, g2: IndexedGraph, f1: Seq<Option<usize>>, m: Seq<(String, String)>, n: Seq<(String, String)>)
    requires
        lists(g1, g2, f1, m),
        lists(g1, g2, f1, n),
    ensures
        same_listing(m, n),
{
}

/// Some entry of `ms` lists the same pairs as `m`.
pub open spec fn listed_in(m: Seq<(String, String)>, ms: Seq<Vec<(String, String)>>) -> bool {
    exists|u: int| 0 <= u < ms.len() && same_listing(m, (#[trigger] ms[u])@)
}

/// A mapping of one output that lists a match is listed by any output
/// that lists every match.
proof fn lemma_listed_elsewhere(
    g1: IndexedGraph,
    g2: IndexedGraph,
    m: Seq<(String, String)>,
    ms: Seq<Vec<(String, String)>>,
)
    requires
        lists_a_match(g1, g2, m),
        forall|f1: Seq<Option<usize>>, f2: Seq<usize>|
            full_match(g1, g2, f1, f2) ==> emitted(g1, g2, f1, ms, 0),
    ensures
        listed_in(m, ms),
{
    let (f1, f2) = choose|f1: Seq<Option<usize>>, f2: Seq<usize>| full_match(g1, g2, f1, f2) && lists(g1, g2, f1, m);
    assert(emitted(g1, g2, f1, ms, 0));
    let u = choose|u: int| 0 <= u < ms.len() && lists(g1, g2, f1, (#[trigger] ms[u])@);
    lemma_lists_same(g1, g2, f1, m, ms[u]@);
}

/// Two runs of the search agree: where each of two outputs lists only
/// matches and lists every match, each mapping of one is listed, name for
/// name, by the other.
pub proof fn lemma_runs_agree(
    g1: IndexedGraph,
    g2: IndexedGraph,
    ms1: Seq<Vec<(String, String)>>,
    ms2: Seq<Vec<(String, String)>>,
)
    requires
        forall|t: int| 0 <= t < ms1.len() ==> lists_a_match(g1, g2, (#[trigger] ms1[t])@),
        forall|t: int| 0 <= t < ms2.len() ==> lists_a_match(g1, g2, (#[trigger] ms2[t])@),
        forall|f1: Seq<Option<usize>>, f2: Seq<usize>|
            full_match(g1, g2, f1, f2) ==> emitted(g1, g2, f1, ms1, 0) && emitted(g1, g2, f1, ms2, 0),
    ensures
        forall|t: int| 0 <= t < ms1.len() ==> listed_in((#[trigger] ms1[t])@, ms2),
        forall|u: int| 0 <= u < ms2.len() ==> listed_in((#[trigger] ms2[u])@, ms1),
{
    assert forall|t: int| 0 <= t < ms1.len() implies listed_in((#[trigger] ms1[t])@, ms2) by {
        lemma_listed_elsewhere(g1, g2, ms1[t]@, ms2);
    }
    assert forall|u: int| 0 <= u < ms2.len() implies listed_in((#[trigger] ms2[u])@, ms1) by {
        lemma_listed_elsewhere(g1, g2, ms2[u]@, ms1);
    }
}

} // verus!
