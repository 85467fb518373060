//! Topological order of a directed graph, by repeatedly taking a node whose
//! predecessors have all been taken (Kahn's method).
use vstd::prelude::*;
use crate::algorithm::adjacency::{lemma_distinct_below, IndexedGraph};
use crate::graph::node::texts;
use crate::graph::digraph::lemma_index_of;
use crate::graph::DiGraph;

verus! {

/// How many of `ps` are not in `done`.
pub open spec fn pending(ps: Seq<usize>, done: Seq<usize>) -> nat
    decreases ps.len(),
{
    if ps.len() == 0 {
        0
    } else {
        pending(ps.drop_last(), done) + if done.contains(ps.last()) {
            0nat
        } else {
            1nat
        }
    }
}

/// Nothing is done yet: every entry is pending.
proof fn lemma_pending_none(ps: Seq<usize>)
    ensures
        pending(ps, seq![]) == ps.len(),
    decreases ps.len(),
{
    if ps.len() > 0 {
        lemma_pending_none(ps.drop_last());
    }
}

/// Marking `u` done takes one from the count if `ps` holds it.
proof fn lemma_pending_push(ps: Seq<usize>, done: Seq<usize>, u: usize)
    requires
        ps.no_duplicates(),
        !done.contains(u),
    ensures
        pending(ps, done.push(u)) + (if ps.contains(u) {
            1nat
        } else {
            0nat
        }) == pending(ps, done),
    decreases ps.len(),
{
    if ps.len() > 0 {
        let rest = ps.drop_last();
        assert(rest.no_duplicates());
        lemma_pending_push(rest, done, u);
        let x = ps.last();
        assert(done.push(u).contains(x) <==> done.contains(x) || x == u) by {
            if done.push(u).contains(x) {
                let k = choose|k: int| 0 <= k < done.push(u).len() && done.push(u)[k] == x;
                if k < done.len() {
                    assert(done[k] == x);
                }
            }
            if done.contains(x) {
                let k = choose|k: int| 0 <= k < done.len() && done[k] == x;
                assert(done.push(u)[k] == x);
            }
            if x == u {
                assert(done.push(u)[done.len() as int] == x);
            }
        }
        assert(ps.contains(u) <==> rest.contains(u) || x == u) by {
            if ps.contains(u) {
                let k = choose|k: int| 0 <= k < ps.len() && ps[k] == u;
                if k < rest.len() {
                    assert(rest[k] == u);
                }
            }
            if rest.contains(u) {
                let k = choose|k: int| 0 <= k < rest.len() && rest[k] == u;
                assert(ps[k] == u);
            }
        }
        if x == u {
            assert(!rest.contains(u)) by {
                if rest.contains(u) {
                    let k = choose|k: int| 0 <= k < rest.len() && rest[k] == u;
                    assert(ps[k] == ps[ps.len() - 1]);
                }
            }
        }
    }
}

/// Nothing pending: every entry is done.
proof fn lemma_pending_zero(ps: Seq<usize>, done: Seq<usize>)
    requires
        pending(ps, done) == 0,
    ensures
        forall|k: int| 0 <= k < ps.len() ==> done.contains(#[trigger] ps[k]),
    decreases ps.len(),
{
    if ps.len() > 0 {
        lemma_pending_zero(ps.drop_last(), done);
        assert forall|k: int| 0 <= k < ps.len() implies done.contains(#[trigger] ps[k]) by {
            if k < ps.len() - 1 {
                assert(ps.drop_last()[k] == ps[k]);
            }
        }
    }
}

/// The names of the nodes in topological order. Each node starts with a
/// count of its predecessors; nodes whose count is zero are queued in the
/// order the graph holds them, and taking a node from the queue lowers the
/// count of each successor, queueing those that reach zero. The result lists
/// the queue's nodes in the order they were taken, so that every edge
/// between listed nodes runs forward; nodes on a cycle, and those after
/// them, never reach zero and are left out.
pub fn topsort(graph: &DiGraph) -> (r: Vec<String>)
    requires
        graph.wf(),
        graph@.closed(),
    ensures
        r@.len() <= graph@.nodes.len(),
        texts(r@).no_duplicates(),
        forall|k: int| 0 <= k < r@.len() ==> graph@.has_node(#[trigger] r@[k]@),
        forall|a: int, b: int|
            0 <= a < r@.len() && 0 <= b < r@.len() && graph@.has_edge(
                #[trigger] r@[a]@,
                #[trigger] r@[b]@,
            ) ==> a < b,
{
    let ix = match IndexedGraph::from_graph(graph) {
        Ok(ix) => ix,
        Err(_) => {
            return Vec::new();
        },
    };
    let n = ix.names.len();
    let mut indeg: Vec<usize> = Vec::new();
    let mut queue: Vec<usize> = Vec::new();
    let mut i: usize = 0;
    while i < n
        invariant
            ix.wf(),
            n == ix.n(),
            i <= n,
            indeg@.len() == i,
            queue@.no_duplicates(),
            forall|k: int| 0 <= k < queue@.len() ==> queue@[k] < i,
            forall|x: int| 0 <= x < i ==> (queue@.contains(x as usize) <==> indeg@[x] == 0),
            forall|x: int| 0 <= x < i ==> indeg@[x] == pending(#[trigger] ix.preds@[x]@, seq![]),
            forall|j: int, k: int|
                #![trigger ix.preds@[queue@[j] as int]@[k]]
                0 <= j < queue@.len() && 0 <= k < ix.preds@[queue@[j] as int]@.len() ==> queue@.take(
                    j,
                ).contains(ix.preds@[queue@[j] as int]@[k]),
        decreases n - i,
    {
        let d = ix.preds[i].len();
        let ghost before = queue@;
        proof {
            lemma_pending_none(ix.preds@[i as int]@);
        }
        indeg.push(d);
        if d == 0 {
            queue.push(i);
        }
        proof {
            assert forall|x: int| 0 <= x < i + 1 implies (queue@.contains(x as usize) <==> indeg@[x] == 0) by {
                if queue@.contains(x as usize) && x != i {
                    let k = choose|k: int| 0 <= k < queue@.len() && queue@[k] == x as usize;
                    assert(before[k] == x as usize);
                }
                if x < i && before.contains(x as usize) {
                    let k = choose|k: int| 0 <= k < before.len() && before[k] == x as usize;
                    assert(queue@[k] == x as usize);
                }
                if x == i && d == 0 {
                    assert(queue@[queue@.len() - 1] == i);
                }
                if x == i && d != 0 && queue@.contains(x as usize) {
                    let k = choose|k: int| 0 <= k < queue@.len() && queue@[k] == x as usize;
                    assert(before[k] < i);
                }
            }
            assert forall|j: int, k: int|
                0 <= j < queue@.len() && 0 <= k < ix.preds@[queue@[j] as int]@.len() implies queue@.take(
                j,
            ).contains(#[trigger] ix.preds@[queue@[j] as int]@[k]) by {
                if j < before.len() {
                    assert(queue@[j] == before[j]);
                    assert(queue@.take(j) =~= before.take(j));
                }
            }
        }
        i += 1;
    }
    proof {
        lemma_distinct_below(queue@, n as nat);
        assert(queue@.take(0) =~= seq![]);
    }
    let mut head: usize = 0;
    while head < queue.len()
        invariant
            ix.wf(),
            n == ix.n(),
            indeg@.len() == n,
            head <= queue@.len(),
            queue@.len() <= n,
            queue@.no_duplicates(),
            forall|k: int| 0 <= k < queue@.len() ==> queue@[k] < n,
            forall|x: int| 0 <= x < n ==> (queue@.contains(x as usize) <==> indeg@[x] == 0),
            forall|x: int|
                0 <= x < n ==> indeg@[x] == pending(#[trigger] ix.preds@[x]@, queue@.take(head as int)),
            forall|j: int, k: int|
                #![trigger ix.preds@[queue@[j] as int]@[k]]
                0 <= j < queue@.len() && 0 <= k < ix.preds@[queue@[j] as int]@.len() ==> queue@.take(
                    j,
                ).contains(ix.preds@[queue@[j] as int]@[k]),
        decreases n - head,
    {
        let u = queue[head];
        let ghost done_before = queue@.take(head as int);
        head += 1;
        let succ = &ix.succs[u];
        proof {
            assert(queue@.take(head as int) =~= done_before.push(u));
            assert(!done_before.contains(u)) by {
                if done_before.contains(u) {
                    let k = choose|k: int| 0 <= k < done_before.len() && done_before[k] == u;
                    assert(queue@[k] == queue@[head - 1]);
                }
            }
            assert(succ@.take(0) =~= seq![]);
            assert forall|x: int| 0 <= x < n implies indeg@[x] == pending(
                #[trigger] ix.preds@[x]@,
                queue@.take(head as int),
            ) + (if succ@.contains(x as usize) && !succ@.take(0).contains(x as usize) {
                1nat
            } else {
                0nat
            }) by {
                lemma_pending_push(ix.preds@[x]@, done_before, u);
                let ui = u as int;
                assert(ui as usize == u);
                assert(ix.succs@[ui]@.contains(x as usize) <==> ix.preds@[x]@.contains(ui as usize));
            }
        }
        let mut t: usize = 0;
        while t < succ.len()
            invariant
                ix.wf(),
                n == ix.n(),
                u < n,
                1 <= head <= queue@.len(),
                queue@[head - 1] == u,
                succ@ == ix.succs@[u as int]@,
                t <= succ@.len(),
                indeg@.len() == n,
                queue@.len() <= n + 1,
                queue@.no_duplicates(),
                forall|k: int| 0 <= k < queue@.len() ==> queue@[k] < n,
                forall|x: int| 0 <= x < n ==> (queue@.contains(x as usize) <==> indeg@[x] == 0),
                forall|x: int|
                    0 <= x < n ==> indeg@[x] == pending(#[trigger] ix.preds@[x]@, queue@.take(head as int))
                        + (if succ@.contains(x as usize) && !succ@.take(t as int).contains(x as usize) {
                        1nat
                    } else {
                        0nat
                    }),
                forall|j: int, k: int|
                    #![trigger ix.preds@[queue@[j] as int]@[k]]
                    0 <= j < queue@.len() && 0 <= k < ix.preds@[queue@[j] as int]@.len() ==> queue@.take(
                        j,
                    ).contains(ix.preds@[queue@[j] as int]@[k]),
            decreases succ@.len() - t,
        {
            let v = succ[t];
            proof {
                assert(succ@.contains(v));
                assert(!succ@.take(t as int).contains(v)) by {
                    if succ@.take(t as int).contains(v) {
                        let k = choose|k: int| 0 <= k < t && succ@.take(t as int)[k] == v;
                        assert(succ@[k] == succ@[t as int]);
                    }
                }
                let nxt = succ@.take(t + 1);
                let cur = succ@.take(t as int);
                assert forall|x: int| 0 <= x < n && x != v implies (#[trigger] nxt.contains(x as usize)
                    <==> cur.contains(x as usize)) by {
                    if nxt.contains(x as usize) {
                        let k = choose|k: int| 0 <= k < nxt.len() && nxt[k] == x as usize;
                        assert(cur[k] == x as usize);
                    }
                    if cur.contains(x as usize) {
                        let k = choose|k: int| 0 <= k < cur.len() && cur[k] == x as usize;
                        assert(nxt[k] == x as usize);
                    }
                }
                assert(succ@.take(t + 1)[t as int] == v);
            }
            if indeg[v] > 0 {
                let left = indeg[v] - 1;
                indeg.set(v, left);
                if left == 0 {
                    let ghost before = queue@;
                    assert(!before.contains(v));
                    proof {
                        lemma_pending_zero(ix.preds@[v as int]@, queue@.take(head as int));
                    }
                    queue.push(v);
                    proof {
                        assert forall|x: int| 0 <= x < n implies (queue@.contains(x as usize) <==> indeg@[x]
                            == 0) by {
                            if queue@.contains(x as usize) && x != v {
                                let k = choose|k: int| 0 <= k < queue@.len() && queue@[k] == x as usize;
                                assert(before[k] == x as usize);
                            }
                            if before.contains(x as usize) {
                                let k = choose|k: int| 0 <= k < before.len() && before[k] == x as usize;
                                assert(queue@[k] == x as usize);
                            }
                            if x == v {
                                assert(queue@[queue@.len() - 1] == v);
                            }
                        }
                        assert(queue@.take(head as int) =~= before.take(head as int));
                        assert forall|j: int, k: int|
                            0 <= j < queue@.len() && 0 <= k < ix.preds@[queue@[j] as int]@.len() implies queue@.take(
                            j,
                        ).contains(#[trigger] ix.preds@[queue@[j] as int]@[k]) by {
                            if j < before.len() {
                                assert(queue@[j] == before[j]);
                                assert(queue@.take(j) =~= before.take(j));
                            } else {
                                let p = ix.preds@[v as int]@[k];
                                assert(before.take(head as int).contains(p));
                                let c = choose|c: int| 0 <= c < head && before.take(head as int)[c] == p;
                                assert(queue@.take(j)[c] == p);
                            }
                        }
                        lemma_distinct_below(queue@, n as nat);
                    }
                }
            }
            t += 1;
        }
        proof {
            assert(succ@.take(succ@.len() as int) =~= succ@);
            lemma_distinct_below(queue@, n as nat);
        }
    }
    let mut names: Vec<String> = Vec::new();
    let mut k: usize = 0;
    while k < queue.len()
        invariant
            ix.wf(),
            ix.models(graph@),
            n == ix.n(),
            k <= queue@.len(),
            queue@.len() <= n,
            queue@.no_duplicates(),
            forall|j: int| 0 <= j < queue@.len() ==> queue@[j] < n,
            names@.len() == k,
            forall|j: int| 0 <= j < k ==> (#[trigger] names@[j])@ == ix.names@[queue@[j] as int]@,
        decreases queue@.len() - k,
    {
        names.push(ix.names[queue[k]].clone());
        k += 1;
    }
    proof {
        assert forall|a: int, b: int| 0 <= a < b < names@.len() implies texts(names@)[a] != texts(
            names@,
        )[b] by {
            assert(queue@[a] != queue@[b]);
        }
        assert forall|j: int| 0 <= j < names@.len() implies graph@.has_node(#[trigger] names@[j]@) by {
            assert(graph@.nodes[queue@[j] as int].name == names@[j]@);
        }
        assert forall|a: int, b: int|
            0 <= a < names@.len() && 0 <= b < names@.len() && graph@.has_edge(
                #[trigger] names@[a]@,
                #[trigger] names@[b]@,
            ) implies a < b by {
            let qa = queue@[a] as int;
            let qb = queue@[b] as int;
            lemma_index_of(graph@, qa);
            assert(graph@.nodes[qa].name == names@[a]@);
            assert(graph@.nodes[qb].name == names@[b]@);
            assert(ix.has_edge(qa, qb));
            assert(ix.preds@[qb]@.contains(qa as usize));
            let k = choose|k: int| 0 <= k < ix.preds@[qb]@.len() && ix.preds@[qb]@[k] == qa as usize;
            assert(queue@.take(b).contains(ix.preds@[queue@[b] as int]@[k]));
            let c = choose|c: int| 0 <= c < b && queue@.take(b)[c] == qa as usize;
            assert(queue@[c] == queue@[a]);
        }
    }
    names
}

} // verus!
