//! The structure of a sankey diagram: the rank of each node along the flow
//! of the links, found by taking nodes in topological order.
use vstd::prelude::*;
use crate::digraph::{
    adj_edge, adjacency_of, build_adjacency, edges_acyclic, edges_below, lemma_acyclic_has_source,
    lemma_adjacency_acyclic, lemma_adjacency_edge, lemma_occurrences_contains, lemma_occurrences_take_le,
    lemma_occurrences_take_step, lemma_pigeonhole, occurrences, seq_has, acyclic, closed_backwards,
};

verus! {

/// The drawing order of a node: its value in `node_order`, or last when it
/// has none.
pub open spec fn order_key(node_order: Seq<(String, usize)>, name: Seq<char>) -> usize {
    match crate::ranking::order_lookup(node_order, name) {
        Some(v) => v,
        None => usize::MAX,
    }
}

/// Node `a` comes before node `b`: by drawing order, then by name.
pub open spec fn node_key_less(node_order: Seq<(String, usize)>, ids: Seq<String>, a: Seq<char>, b: Seq<char>) -> bool {
    order_key(node_order, a) < order_key(node_order, b) || (order_key(node_order, a) == order_key(node_order, b)
        && crate::ranking::name_rank(ids, a) < crate::ranking::name_rank(ids, b))
}

/// How many entries of `s` are not yet `done`.
pub open spec fn live(s: Seq<usize>, done: Seq<bool>) -> nat
    decreases s.len(),
{
    if s.len() == 0 {
        0
    } else {
        live(s.drop_last(), done) + (if !done[s.last() as int] {
            1nat
        } else {
            0nat
        })
    }
}

/// Marking `u` done takes its occurrences out of the count.
proof fn lemma_live_mark(s: Seq<usize>, done: Seq<bool>, u: int)
    requires
        0 <= u < done.len(),
        !done[u],
        forall|k: int| 0 <= k < s.len() ==> #[trigger] s[k] < done.len(),
    ensures
        live(s, done.update(u, true)) + occurrences(s, u) == live(s, done),
    decreases s.len(),
{
    if s.len() > 0 {
        assert(s[s.len() - 1] < done.len());
        assert forall|k: int| 0 <= k < s.drop_last().len() implies #[trigger] s.drop_last()[k] < done.len() by {
            assert(s.drop_last()[k] == s[k]);
        }
        lemma_live_mark(s.drop_last(), done, u);
    }
}

/// The occurrences of an entry not done all count.
proof fn lemma_live_at_least(s: Seq<usize>, done: Seq<bool>, u: int)
    requires
        0 <= u < done.len(),
        !done[u],
    ensures
        live(s, done) >= occurrences(s, u),
    decreases s.len(),
{
    if s.len() > 0 {
        lemma_live_at_least(s.drop_last(), done, u);
    }
}

/// The count is zero exactly when every entry is done.
proof fn lemma_live_zero(s: Seq<usize>, done: Seq<bool>)
    ensures
        live(s, done) == 0 <==> forall|k: int| 0 <= k < s.len() ==> done[#[trigger] s[k] as int],
    decreases s.len(),
{
    if s.len() > 0 {
        lemma_live_zero(s.drop_last(), done);
        if live(s, done) == 0 {
            assert forall|k: int| 0 <= k < s.len() implies done[#[trigger] s[k] as int] by {
                if k < s.len() - 1 {
                    assert(s.drop_last()[k] == s[k]);
                }
            }
        }
        if forall|k: int| 0 <= k < s.len() ==> done[#[trigger] s[k] as int] {
            assert forall|k: int| 0 <= k < s.drop_last().len() implies done[#[trigger] s.drop_last()[k] as int] by {
                assert(s.drop_last()[k] == s[k]);
            }
            assert(done[s[s.len() - 1] as int]);
        }
    }
}


proof fn lemma_live_none_done(s: Seq<usize>, done: Seq<bool>)
    requires
        forall|k: int| 0 <= k < s.len() ==> !done[#[trigger] s[k] as int],
    ensures
        live(s, done) == s.len(),
    decreases s.len(),
{
    if s.len() > 0 {
        assert forall|k: int| 0 <= k < s.drop_last().len() implies !done[#[trigger] s.drop_last()[k] as int] by {
            assert(s.drop_last()[k] == s[k]);
        }
        lemma_live_none_done(s.drop_last(), done);
        assert(!done[s[s.len() - 1] as int]);
    }
}

/// A repeat-free list of vertices below `n` that is missing none of them
/// has length `n`, and one of length `n` is missing none.
proof fn lemma_permutation(order: Seq<usize>, n: int)
    requires
        0 <= n,
        order.no_duplicates(),
        forall|k: int| 0 <= k < order.len() ==> #[trigger] order[k] < n,
    ensures
        order.len() <= n,
        order.len() == n <==> forall|v: int| 0 <= v < n ==> seq_has(order, v),
{
    if order.len() > n {
        let w = Seq::new(order.len(), |k: int| order[k] as int);
        lemma_pigeonhole(w, n);
        let (a, b) = choose|a: int, b: int| 0 <= a < b < w.len() && w[a] == w[b];
        assert(order[a] == order[b]);
    }
    if order.len() == n {
        assert forall|v: int| 0 <= v < n implies seq_has(order, v) by {
            if !seq_has(order, v) {
                let w = Seq::new(order.len() + 1, |k: int| if k < order.len() { order[k] as int } else { v });
                assert forall|k: int| 0 <= k < w.len() implies 0 <= #[trigger] w[k] < n by {
                    if k < order.len() {
                        assert(order[k] < n);
                    }
                }
                lemma_pigeonhole(w, n);
                let (a, b) = choose|a: int, b: int| 0 <= a < b < w.len() && w[a] == w[b];
                if b < order.len() {
                    assert(order[a] == order[b]);
                } else {
                    assert(order[a] == v);
                }
            }
        }
    }
    if order.len() < n && forall|v: int| 0 <= v < n ==> seq_has(order, v) {
        let w = Seq::new(n as nat, |v: int| choose|k: int| 0 <= k < order.len() && order[k] == v);
        assert forall|v: int| 0 <= v < w.len() implies 0 <= #[trigger] w[v] < order.len() by {
            assert(seq_has(order, v));
        }
        lemma_pigeonhole(w, order.len() as int);
        let (a, b) = choose|a: int, b: int| 0 <= a < b < w.len() && w[a] == w[b];
        assert(seq_has(order, a));
        assert(seq_has(order, b));
    }
}

/// Edges go forward along `order`.
spec fn forward_order(adj: Seq<Seq<usize>>, order: Seq<usize>) -> bool {
    forall|i: int, j: int|
        0 <= i < order.len() && 0 <= j < order.len() && #[trigger] adj_edge(adj, order[j] as int, order[i] as int)
            ==> j < i
}

/// An order of all the vertices along which every edge goes forward
/// leaves no room for a cycle.
proof fn lemma_order_acyclic(adj: Seq<Seq<usize>>, order: Seq<usize>)
    requires
        crate::digraph::adj_well_formed(adj),
        order.len() == adj.len(),
        order.no_duplicates(),
        forall|k: int| 0 <= k < order.len() ==> #[trigger] order[k] < adj.len(),
        forward_order(adj, order),
    ensures
        acyclic(adj),
{
    let n = adj.len() as int;
    lemma_permutation(order, n);
    assert forall|p: Seq<int>| #[trigger] crate::digraph::is_path(adj, p) implies p[0] != p[p.len() - 1] by {
        let pos = Seq::new(p.len(), |t: int| choose|k: int| 0 <= k < order.len() && order[k] == p[t]);
        assert forall|t: int| 0 <= t < p.len() implies 0 <= p[t] < n && 0 <= #[trigger] pos[t] < order.len()
            && order[pos[t]] == p[t] by {
            if t < p.len() - 1 {
                assert(crate::digraph::path_step(adj, p, t));
            } else {
                assert(crate::digraph::path_step(adj, p, t - 1));
                let row = adj[p[t - 1]];
                let k = choose|k: int| 0 <= k < row.len() && row[k] == p[t];
                assert(row[k] < n);
            }
            assert(seq_has(order, p[t]));
        }
        assert forall|t: int| 1 <= t < p.len() implies pos[0] < #[trigger] pos[t] by {
            lemma_positions_increase(adj, order, p, pos, t);
        }
        if p[0] == p[p.len() - 1] {
            assert(order[pos[0]] == order[pos[p.len() - 1]]);
        }
    }
}

proof fn lemma_positions_increase(adj: Seq<Seq<usize>>, order: Seq<usize>, p: Seq<int>, pos: Seq<int>, t: int)
    requires
        crate::digraph::is_path(adj, p),
        pos.len() == p.len(),
        forall|u: int| 0 <= u < p.len() ==> 0 <= #[trigger] pos[u] < order.len() && order[pos[u]] == p[u],
        forward_order(adj, order),
        1 <= t < p.len(),
    ensures
        pos[0] < pos[t],
    decreases t,
{
    assert(crate::digraph::path_step(adj, p, t - 1));
    assert(adj_edge(adj, order[pos[t - 1]] as int, order[pos[t]] as int));
    if t > 1 {
        lemma_positions_increase(adj, order, p, pos, t - 1);
    }
}

/// The state of the queue-driven topological sort: `queue` holds the
/// vertices taken so far (its first `head` already processed, exactly the
/// `done` ones), each once; a vertex is queued exactly when its count of
/// unprocessed predecessors is zero; edges go forward along the queue; and
/// every predecessor of a queued vertex is processed.
spec fn sort_state_ok(adj: Seq<Seq<usize>>, queue: Seq<usize>, head: int, done: Seq<bool>, indeg: Seq<usize>) -> bool {
    let n = adj.len() as int;
    &&& 0 <= head <= queue.len()
    &&& queue.no_duplicates()
    &&& forall|k: int| 0 <= k < queue.len() ==> #[trigger] queue[k] < n
    &&& done.len() == n
    &&& indeg.len() == n
    &&& forall|v: int| 0 <= v < n ==> (#[trigger] done[v] <==> seq_has(queue.take(head), v))
    &&& forall|v: int| 0 <= v < n ==> (seq_has(queue, v) <==> #[trigger] indeg[v] == 0)
    &&& forward_order(adj, queue)
    &&& forall|i: int, a: int| 0 <= i < queue.len() && #[trigger] adj_edge(adj, a, queue[i] as int) ==> done[a]
}

/// A vertex is listed in `rev[v]` exactly when it has an edge to `v`.
proof fn lemma_rev_edge(adj: Seq<Seq<usize>>, rev: Seq<Seq<usize>>, a: int, v: int)
    requires
        crate::digraph::reverse_of(adj, rev),
        0 <= a < adj.len(),
        0 <= v < adj.len(),
    ensures
        seq_has(rev[v], a) <==> adj_edge(adj, a, v),
{
    lemma_occurrences_contains(rev[v], a);
    lemma_occurrences_contains(adj[a], v);
}

/// One predecessor of `to` has been processed: its count falls by one,
/// and at zero `to` joins the queue (every predecessor of `to` being done).
proof fn lemma_sort_step(
    adj: Seq<Seq<usize>>,
    rev: Seq<Seq<usize>>,
    queue: Seq<usize>,
    head: int,
    done: Seq<bool>,
    indeg: Seq<usize>,
    to: int,
)
    requires
        crate::digraph::reverse_of(adj, rev),
        adj.len() <= usize::MAX,
        sort_state_ok(adj, queue, head, done, indeg),
        0 <= to < adj.len(),
        indeg[to] > 0,
        indeg[to] == 1 ==> forall|k: int| 0 <= k < rev[to].len() ==> #[trigger] done[rev[to][k] as int],
    ensures
        ({
            let indeg2 = indeg.update(to, (indeg[to] - 1) as usize);
            let queue2 = if indeg[to] == 1 {
                queue.push(to as usize)
            } else {
                queue
            };
            sort_state_ok(adj, queue2, head, done, indeg2)
        }),
{
    let n = adj.len() as int;
    let indeg2 = indeg.update(to, (indeg[to] - 1) as usize);
    assert(!seq_has(queue, to));
    if indeg[to] == 1 {
        let queue2 = queue.push(to as usize);
        assert(queue2.take(head) =~= queue.take(head));
        assert(queue2.no_duplicates()) by {
            assert forall|a: int, b: int| 0 <= a < b < queue2.len() implies queue2[a] != queue2[b] by {
                assert(queue2[a] == queue[a]);
                if b == queue.len() {
                    if queue[a] == to {
                        assert(seq_has(queue, to));
                    }
                } else {
                    assert(queue2[b] == queue[b]);
                }
            }
        }
        assert forall|v: int| 0 <= v < n implies (seq_has(queue2, v) <==> #[trigger] indeg2[v] == 0) by {
            if v != to {
                if seq_has(queue2, v) {
                    let k = choose|k: int| 0 <= k < queue2.len() && queue2[k] == v;
                    if k < queue.len() {
                        assert(queue[k] == v);
                    }
                }
                if seq_has(queue, v) {
                    let k = choose|k: int| 0 <= k < queue.len() && queue[k] == v;
                    assert(queue2[k] == v);
                }
            } else {
                assert(queue2[queue.len() as int] == to);
            }
        }
        assert(!done[to]) by {
            if done[to] {
                let k = choose|k: int| 0 <= k < queue.take(head).len() && queue.take(head)[k] == to;
                assert(queue[k] == to);
            }
        }
        assert forall|a: int| #[trigger] adj_edge(adj, a, to) implies done[a] by {
            lemma_rev_edge(adj, rev, a, to);
            let k = choose|k: int| 0 <= k < rev[to].len() && rev[to][k] == a;
        }
        assert forall|i: int, a: int| 0 <= i < queue2.len() && #[trigger] adj_edge(adj, a, queue2[i] as int) implies done[a] by {
            if i < queue.len() {
                assert(queue2[i] == queue[i]);
            }
        }
        assert(forward_order(adj, queue2)) by {
            assert forall|i: int, j: int|
                0 <= i < queue2.len() && 0 <= j < queue2.len() && #[trigger] adj_edge(adj, queue2[j] as int, queue2[i] as int)
                implies j < i by {
                if i < queue.len() && j < queue.len() {
                    assert(queue2[i] == queue[i] && queue2[j] == queue[j]);
                } else if j == queue.len() {
                    if i < queue.len() {
                        assert(queue2[i] == queue[i]);
                        assert(done[to]);
                    } else {
                        assert(done[to]);
                    }
                }
            }
        }
    } else {
        assert forall|v: int| 0 <= v < n implies (seq_has(queue, v) <==> #[trigger] indeg2[v] == 0) by {
        }
    }
}

/// The vertices in topological order, taken from a queue that starts with
/// the vertices without predecessors (in order of number) and receives
/// each vertex once all its predecessors are taken. The list holds every
/// vertex exactly when the graph has no cycle.
fn topological_order(adj: &Vec<Vec<usize>>, rev: &Vec<Vec<usize>>) -> (topo: Vec<usize>)
    requires
        crate::digraph::adj_well_formed(adj.deep_view()),
        crate::digraph::adj_well_formed(rev.deep_view()),
        crate::digraph::reverse_of(adj.deep_view(), rev.deep_view()),
    ensures
        topo@.no_duplicates(),
        forall|k: int| 0 <= k < topo@.len() ==> #[trigger] topo@[k] < adj.len(),
        forward_order(adj.deep_view(), topo@),
        topo@.len() == adj.len() <==> acyclic(adj.deep_view()),
{
    let n = adj.len();
    let ghost adjv = adj.deep_view();
    let ghost revv = rev.deep_view();
    let mut indeg: Vec<usize> = Vec::new();
    let mut v: usize = 0;
    while v < n
        invariant
            v <= n,
            n == adj.len(),
            n == rev.len(),
            revv == rev.deep_view(),
            indeg.len() == v,
            forall|w: int| 0 <= w < v ==> #[trigger] indeg@[w] == revv[w].len(),
        decreases n - v,
    {
        indeg.push(rev[v].len());
        v += 1;
    }
    let ghost mut done: Seq<bool> = Seq::new(n as nat, |w: int| false);
    let mut queue: Vec<usize> = Vec::new();
    let mut v: usize = 0;
    while v < n
        invariant
            v <= n,
            n == adj.len(),
            n == rev.len(),
            indeg.len() == n,
            forall|w: int| 0 <= w < n ==> #[trigger] indeg@[w] == revv[w].len(),
            queue@.no_duplicates(),
            forall|k: int| 0 <= k < queue@.len() ==> #[trigger] queue@[k] < v,
            forall|k: int| 0 <= k < queue@.len() ==> #[trigger] indeg@[queue@[k] as int] == 0,
            forall|w: int| 0 <= w < v && #[trigger] indeg@[w] == 0 ==> seq_has(queue@, w),
        decreases n - v,
    {
        if indeg[v] == 0 {
            let ghost q0 = queue@;
            queue.push(v);
            proof {
                assert forall|w: int| 0 <= w < v + 1 && #[trigger] indeg@[w] == 0 implies seq_has(queue@, w) by {
                    if w < v {
                        let k = choose|k: int| 0 <= k < q0.len() && q0[k] == w;
                        assert(queue@[k] == w);
                    } else {
                        assert(queue@[q0.len() as int] == w);
                    }
                }
            }
        }
        v += 1;
    }
    proof {
        assert forall|w: int| 0 <= w < n implies #[trigger] indeg@[w] == live(revv[w], done) by {
            lemma_live_none_done(revv[w], done);
        }
        assert forall|w: int| 0 <= w < n implies (seq_has(queue@, w) <==> #[trigger] indeg@[w] == 0) by {
            if seq_has(queue@, w) {
                let k = choose|k: int| 0 <= k < queue@.len() && queue@[k] == w;
            }
        }
        assert forall|i: int, a: int| 0 <= i < queue@.len() && #[trigger] adj_edge(adjv, a, queue@[i] as int) implies done[a] by {
            let x = queue@[i] as int;
            lemma_rev_edge(adjv, revv, a, x);
            assert(indeg@[x] == 0);
        }
        assert(forward_order(adjv, queue@)) by {
            assert forall|i: int, j: int|
                0 <= i < queue@.len() && 0 <= j < queue@.len() && #[trigger] adj_edge(adjv, queue@[j] as int, queue@[i] as int)
                implies j < i by {
                let x = queue@[i] as int;
                lemma_rev_edge(adjv, revv, queue@[j] as int, x);
                assert(indeg@[x] == 0);
            }
        }
        assert(queue@.take(0) =~= Seq::<usize>::empty());
    }
    let mut head: usize = 0;
    while head < queue.len()
        invariant
            n == adj.len(),
            n == rev.len(),
            adjv == adj.deep_view(),
            revv == rev.deep_view(),
            crate::digraph::adj_well_formed(adjv),
            crate::digraph::adj_well_formed(revv),
            crate::digraph::reverse_of(adjv, revv),
            sort_state_ok(adjv, queue@, head as int, done, indeg@),
            forall|w: int| 0 <= w < n ==> #[trigger] indeg@[w] == live(revv[w], done),
        decreases n - head,
    {
        proof {
            lemma_permutation(queue@, n as int);
        }
        let node = queue[head];
        let ghost h0 = head as int;
        let ghost done0 = done;
        let ghost indeg0 = indeg@;
        proof {
            assert(!done[node as int]) by {
                if done[node as int] {
                    let k = choose|k: int| 0 <= k < queue@.take(head as int).len() && queue@.take(head as int)[k] == node;
                    assert(queue@[k] == queue@[head as int]);
                }
            }
            done = done.update(node as int, true);
        }
        head += 1;
        proof {
            assert forall|w: int| 0 <= w < n implies (#[trigger] done[w] <==> seq_has(queue@.take(head as int), w)) by {
                if w == node {
                    assert(queue@.take(head as int)[head - 1] == node);
                } else {
                    if seq_has(queue@.take(head as int), w) {
                        let k = choose|k: int| 0 <= k < queue@.take(head as int).len() && queue@.take(head as int)[k] == w;
                        assert(k < h0);
                        assert(queue@.take(h0)[k] == w);
                    }
                    if seq_has(queue@.take(h0), w) {
                        let k = choose|k: int| 0 <= k < queue@.take(h0).len() && queue@.take(h0)[k] == w;
                        assert(queue@.take(head as int)[k] == w);
                    }
                }
            }
        }
        let succ = &adj[node];
        let mut j: usize = 0;
        while j < succ.len()
            invariant
                n == adj.len(),
                adjv == adj.deep_view(),
                revv == rev.deep_view(),
                crate::digraph::adj_well_formed(adjv),
                crate::digraph::adj_well_formed(revv),
                crate::digraph::reverse_of(adjv, revv),
                node < n,
                succ@ == adjv[node as int],
                j <= succ.len(),
                !done0[node as int],
                done == done0.update(node as int, true),
                done0.len() == n,
                sort_state_ok(adjv, queue@, head as int, done, indeg@),
                forall|w: int| 0 <= w < n ==> #[trigger] indeg@[w] + occurrences(succ@.take(j as int), w) == live(
                    revv[w],
                    done0,
                ),
            decreases succ.len() - j,
        {
            let to = succ[j];
            let ghost q0 = queue@;
            proof {
                lemma_occurrences_take_step(succ@, j as int, to as int);
                lemma_occurrences_take_le(succ@, j as int + 1, to as int);
                lemma_live_at_least(revv[to as int], done0, node as int);
                assert(occurrences(adjv[node as int], to as int) == occurrences(revv[to as int], node as int));
            }
            if indeg[to] > 0 {
                proof {
                    if indeg@[to as int] == 1 {
                        assert forall|kk: int| 0 <= kk < revv[to as int].len() implies #[trigger] revv[to as int][kk]
                            < done0.len() by {}
                        lemma_live_mark(revv[to as int], done0, node as int);
                        lemma_live_zero(revv[to as int], done);
                    }
                    lemma_sort_step(adjv, revv, queue@, head as int, done, indeg@, to as int);
                }
                indeg.set(to, indeg[to] - 1);
                if indeg[to] == 0 {
                    queue.push(to);
                }
            }
            proof {
                assert forall|w: int| 0 <= w < n implies #[trigger] indeg@[w] + occurrences(succ@.take(j as int + 1), w)
                    == live(revv[w], done0) by {
                    lemma_occurrences_take_step(succ@, j as int, w);
                }
            }
            j += 1;
        }
        proof {
            assert(succ@.take(succ@.len() as int) =~= succ@);
            assert forall|w: int| 0 <= w < n implies #[trigger] indeg@[w] == live(revv[w], done) by {
                assert forall|kk: int| 0 <= kk < revv[w].len() implies #[trigger] revv[w][kk] < done0.len() by {}
                lemma_live_mark(revv[w], done0, node as int);
                assert(occurrences(adjv[node as int], w) == occurrences(revv[w], node as int));
            }
        }
    }
    proof {
        lemma_permutation(queue@, n as int);
        assert(queue@.take(head as int) =~= queue@);
        if queue@.len() == n {
            lemma_order_acyclic(adjv, queue@);
        } else {
            let missing = choose|w: int| 0 <= w < n && !seq_has(queue@, w);
            let s = Set::new(|w: int| 0 <= w < n && !done[w]);
            assert(s.contains(missing));
            assert(closed_backwards(adjv, s)) by {
                assert forall|w: int| #[trigger] s.contains(w) implies exists|p: int| s.contains(p) && adj_edge(adjv, p, w) by {
                    assert(indeg@[w] != 0);
                    lemma_live_zero(revv[w], done);
                    let k = choose|k: int| 0 <= k < revv[w].len() && !done[#[trigger] revv[w][k] as int];
                    let p = revv[w][k] as int;
                    assert(p < n);
                    lemma_rev_edge(adjv, revv, p, w);
                    assert(s.contains(p));
                }
            }
            if acyclic(adjv) {
                lemma_acyclic_has_source(adjv, s, missing);
            }
        }
    }
    queue
}

/// A cycle along the edge list is a cycle in its adjacency lists.
proof fn lemma_adjacency_cycle(adj: Seq<Seq<usize>>, rev: Seq<Seq<usize>>, edges: Seq<(usize, usize)>, n: int)
    requires
        adjacency_of(adj, rev, edges, n),
        edges_below(edges, n),
        acyclic(adj),
    ensures
        edges_acyclic(edges),
{
    assert forall|p: Seq<int>|
        p.len() >= 2 && (forall|i: int| 0 <= i < p.len() - 1 ==> #[trigger] crate::digraph::edge_step(edges, p, i))
            implies p[0] != p[p.len() - 1] by {
        assert forall|i: int| 0 <= i < p.len() - 1 implies #[trigger] crate::digraph::path_step(adj, p, i) by {
            assert(crate::digraph::edge_step(edges, p, i));
            let k = choose|k: int| 0 <= k < edges.len() && edges[k].0 == p[i] && edges[k].1 == p[i + 1];
            assert(edges[k].0 < n && edges[k].1 < n);
            lemma_adjacency_edge(adj, rev, edges, n, p[i], p[i + 1]);
        }
        assert(crate::digraph::is_path(adj, p));
    }
}

/// The adjacency lists of an edge list are each other's reverse.
proof fn lemma_adjacency_reverse(adj: Seq<Seq<usize>>, rev: Seq<Seq<usize>>, edges: Seq<(usize, usize)>, n: int)
    requires
        adjacency_of(adj, rev, edges, n),
    ensures
        crate::digraph::reverse_of(adj, rev),
{
    assert forall|a: int, b: int| 0 <= a < adj.len() && 0 <= b < adj.len() implies #[trigger] occurrences(adj[a], b)
        == occurrences(rev[b], a) by {
    }
}

#[verifier::opaque]
spec fn rank_bound_ok(topo: Seq<usize>, ranks: Seq<usize>, n: int) -> bool {
    forall|i: int| 0 <= i < n ==> #[trigger] ranks[topo[i] as int] <= i
}

#[verifier::opaque]
spec fn passed_ok(adj: Seq<Seq<usize>>, topo: Seq<usize>, ranks: Seq<usize>, done: int) -> bool {
    forall|i: int, t: int|
        0 <= i < done && #[trigger] adj_edge(adj, topo[i] as int, t) ==> ranks[t] >= ranks[topo[i] as int] + 1
}

#[verifier::opaque]
spec fn partial_ok(adj: Seq<Seq<usize>>, topo: Seq<usize>, ranks: Seq<usize>, done: int, j: int) -> bool {
    done < adj.len() ==> forall|jj: int|
        0 <= jj < j ==> ranks[#[trigger] adj[topo[done] as int][jj] as int] >= ranks[topo[done] as int] + 1
}

#[verifier::opaque]
spec fn witness_ok(adj: Seq<Seq<usize>>, topo: Seq<usize>, ranks: Seq<usize>, done: int) -> bool {
    forall|w: int|
        0 <= w < adj.len() ==> #[trigger] ranks[w] == 0 || exists|i: int|
            0 <= i <= done && i < adj.len() && adj_edge(adj, topo[i] as int, w) && ranks[topo[i] as int] + 1 == ranks[w]
}

/// What the rank propagation knows after the nodes before position `done`
/// of `topo` (and, from node `topo[done]`, its first `j` successors) have
/// passed their rank on: ranks never exceed the position; every passed-on
/// link goes down at least one rank; and a node above rank 0 has a passing
/// predecessor exactly one rank above.
spec fn ranks_ok(adj: Seq<Seq<usize>>, topo: Seq<usize>, ranks: Seq<usize>, done: int, j: int) -> bool {
    &&& ranks.len() == adj.len()
    &&& rank_bound_ok(topo, ranks, adj.len() as int)
    &&& passed_ok(adj, topo, ranks, done)
    &&& partial_ok(adj, topo, ranks, done, j)
    &&& witness_ok(adj, topo, ranks, done)
}

/// `topo` lists every vertex once, and edges go forward along it.
spec fn full_order(adj: Seq<Seq<usize>>, topo: Seq<usize>) -> bool {
    let n = adj.len() as int;
    &&& crate::digraph::adj_well_formed(adj)
    &&& adj.len() <= usize::MAX
    &&& topo.len() == n
    &&& topo.no_duplicates()
    &&& forall|k: int| 0 <= k < n ==> #[trigger] topo[k] < n
    &&& forall|w: int| 0 <= w < n ==> seq_has(topo, w)
    &&& forward_order(adj, topo)
}

/// Raising the rank of the vertex at position `it` to `r`, no more than
/// `it`, keeps ranks within positions.
proof fn lemma_raise_bound(topo: Seq<usize>, ranks: Seq<usize>, n: int, it: int, r: usize)
    requires
        topo.no_duplicates(),
        topo.len() == n,
        ranks.len() == n,
        forall|k: int| 0 <= k < n ==> #[trigger] topo[k] < n,
        0 <= it < n,
        r <= it,
        rank_bound_ok(topo, ranks, n),
    ensures
        rank_bound_ok(topo, ranks.update(topo[it] as int, r), n),
{
    reveal(rank_bound_ok);
    assert forall|i: int| 0 <= i < n implies #[trigger] ranks.update(topo[it] as int, r)[topo[i] as int] <= i by {
        if i != it {
            assert(topo[i] != topo[it]);
        }
    }
}

/// Raising the rank of a vertex after position `idx` keeps what the
/// vertices up to `idx` have passed on.
proof fn lemma_raise_passed(adj: Seq<Seq<usize>>, topo: Seq<usize>, ranks: Seq<usize>, idx: int, j: int, it: int, r: usize)
    requires
        crate::digraph::adj_well_formed(adj),
        topo.no_duplicates(),
        topo.len() == adj.len(),
        forall|k: int| 0 <= k < topo.len() ==> #[trigger] topo[k] < adj.len(),
        0 <= idx < it < topo.len(),
        0 <= j <= adj[topo[idx] as int].len(),
        ranks.len() == adj.len(),
        ranks[topo[it] as int] < r,
        passed_ok(adj, topo, ranks, idx),
        partial_ok(adj, topo, ranks, idx, j),
    ensures
        passed_ok(adj, topo, ranks.update(topo[it] as int, r), idx),
        partial_ok(adj, topo, ranks.update(topo[it] as int, r), idx, j),
        forall|i: int| 0 <= i <= idx ==> #[trigger] ranks.update(topo[it] as int, r)[topo[i] as int] == ranks[topo[i] as int],
{
    reveal(passed_ok);
    reveal(partial_ok);
    let ranks2 = ranks.update(topo[it] as int, r);
    assert forall|i: int| 0 <= i <= idx implies #[trigger] ranks2[topo[i] as int] == ranks[topo[i] as int] by {
        assert(topo[i] != topo[it]);
    }
    assert forall|i: int, t: int|
        0 <= i < idx && #[trigger] adj_edge(adj, topo[i] as int, t) implies ranks2[t] >= ranks2[topo[i] as int] + 1 by {
        assert(ranks2[topo[i] as int] == ranks[topo[i] as int]);
        let row = adj[topo[i] as int];
        let k = choose|k: int| 0 <= k < row.len() && row[k] == t;
        assert(row[k] < adj.len());
    }
    assert forall|jj: int|
        0 <= jj < j implies ranks2[#[trigger] adj[topo[idx] as int][jj] as int] >= ranks2[topo[idx] as int] + 1 by {
        assert(ranks2[topo[idx] as int] == ranks[topo[idx] as int]);
        if j <= adj[topo[idx] as int].len() {
            assert(adj[topo[idx] as int][jj] < adj.len());
        }
    }
}

/// Raising the rank of `topo[it]` to one more than that of its
/// predecessor `topo[idx]` keeps a witness for every raised rank.
proof fn lemma_raise_witness(adj: Seq<Seq<usize>>, topo: Seq<usize>, ranks: Seq<usize>, idx: int, it: int)
    requires
        topo.no_duplicates(),
        topo.len() == adj.len(),
        0 <= idx < it < topo.len(),
        ranks.len() == adj.len(),
        topo[it] < adj.len(),
        adj_edge(adj, topo[idx] as int, topo[it] as int),
        ranks[topo[idx] as int] + 1 <= usize::MAX,
        witness_ok(adj, topo, ranks, idx),
    ensures
        witness_ok(adj, topo, ranks.update(topo[it] as int, (ranks[topo[idx] as int] + 1) as usize), idx),
{
    reveal(witness_ok);
    let to = topo[it] as int;
    let ranks2 = ranks.update(to, (ranks[topo[idx] as int] + 1) as usize);
    assert forall|w: int|
        0 <= w < adj.len() implies #[trigger] ranks2[w] == 0 || exists|i: int|
            0 <= i <= idx && i < adj.len() && adj_edge(adj, topo[i] as int, w) && ranks2[topo[i] as int] + 1 == ranks2[w] by {
        if w == to {
            assert(topo[idx] != topo[it]);
            assert(ranks2[topo[idx] as int] == ranks[topo[idx] as int]);
        } else {
            if ranks[w] != 0 {
                let i = choose|i: int|
                    0 <= i <= idx && i < adj.len() && adj_edge(adj, topo[i] as int, w) && ranks[topo[i] as int] + 1 == ranks[w];
                assert(topo[i] != topo[it]);
                assert(ranks2[topo[i] as int] == ranks[topo[i] as int]);
            }
        }
    }
}

/// Passing rank `ranks[node] + 1` on to successor `to` of `node` (at
/// position `idx`), where that is more than its rank, keeps `ranks_ok`.
proof fn lemma_pass_rank(adj: Seq<Seq<usize>>, topo: Seq<usize>, ranks: Seq<usize>, idx: int, j: int)
    requires
        full_order(adj, topo),
        0 <= idx < topo.len(),
        0 <= j < adj[topo[idx] as int].len(),
        ranks_ok(adj, topo, ranks, idx, j),
        ranks[adj[topo[idx] as int][j] as int] < ranks[topo[idx] as int] + 1,
    ensures
        ranks_ok(
            adj,
            topo,
            ranks.update(adj[topo[idx] as int][j] as int, (ranks[topo[idx] as int] + 1) as usize),
            idx,
            j + 1,
        ),
{
    let n = adj.len() as int;
    let node = topo[idx] as int;
    let to = adj[node][j] as int;
    assert(adj_edge(adj, node, to));
    assert(to < n);
    assert(seq_has(topo, to));
    let it = choose|k: int| 0 <= k < topo.len() && topo[k] == to;
    assert(adj_edge(adj, topo[idx] as int, topo[it] as int));
    assert(idx < it);
    assert(ranks[topo[idx] as int] <= idx) by {
        reveal(rank_bound_ok);
    }
    let r = (ranks[node] + 1) as usize;
    let ranks2 = ranks.update(to, r);
    lemma_raise_bound(topo, ranks, n, it, r);
    lemma_raise_passed(adj, topo, ranks, idx, j, it, r);
    lemma_raise_witness(adj, topo, ranks, idx, it);
    assert(partial_ok(adj, topo, ranks2, idx, j + 1)) by {
        reveal(partial_ok);
        assert forall|jj: int|
            0 <= jj < j + 1 implies ranks2[#[trigger] adj[topo[idx] as int][jj] as int] >= ranks2[topo[idx] as int] + 1 by {
            assert(ranks2[topo[idx] as int] == ranks[topo[idx] as int]);
        }
    }
}

/// A successor already ranked below `node` needs nothing passed on.
proof fn lemma_keep_rank(adj: Seq<Seq<usize>>, topo: Seq<usize>, ranks: Seq<usize>, idx: int, j: int)
    requires
        full_order(adj, topo),
        0 <= idx < topo.len(),
        0 <= j < adj[topo[idx] as int].len(),
        ranks_ok(adj, topo, ranks, idx, j),
        ranks[adj[topo[idx] as int][j] as int] >= ranks[topo[idx] as int] + 1,
    ensures
        ranks_ok(adj, topo, ranks, idx, j + 1),
{
    reveal(partial_ok);
}

/// Ranks along the order `topo` of all the vertices, edges going forward:
/// each vertex passes its rank plus one on to its successors.
fn longest_path_ranks(adj: &Vec<Vec<usize>>, topo: &Vec<usize>) -> (ranks: Vec<usize>)
    requires
        full_order(adj.deep_view(), topo@),
    ensures
        ranks_ok(adj.deep_view(), topo@, ranks@, adj.len() as int, 0),
{
    let n = adj.len();
    let ghost adjv = adj.deep_view();
    let mut ranks: Vec<usize> = Vec::new();
    let mut v: usize = 0;
    while v < n
        invariant
            v <= n,
            ranks.len() == v,
            forall|w: int| 0 <= w < v ==> #[trigger] ranks@[w] == 0,
        decreases n - v,
    {
        ranks.push(0);
        v += 1;
    }
    proof {
        reveal(rank_bound_ok);
        reveal(passed_ok);
        reveal(partial_ok);
        reveal(witness_ok);
    }
    let mut idx: usize = 0;
    while idx < n
        invariant
            n == adj.len(),
            adjv == adj.deep_view(),
            full_order(adjv, topo@),
            idx <= n,
            ranks_ok(adjv, topo@, ranks@, idx as int, 0),
        decreases n - idx,
    {
        let node = topo[idx];
        let succ = &adj[node];
        let mut j: usize = 0;
        while j < succ.len()
            invariant
                n == adj.len(),
                adjv == adj.deep_view(),
                full_order(adjv, topo@),
                idx < n,
                node == topo@[idx as int],
                succ@ == adjv[node as int],
                j <= succ.len(),
                ranks_ok(adjv, topo@, ranks@, idx as int, j as int),
            decreases succ.len() - j,
        {
            let to = succ[j];
            proof {
                reveal(rank_bound_ok);
                assert(ranks@[topo@[idx as int] as int] <= idx);
            }
            if ranks[to] < ranks[node] + 1 {
                proof {
                    lemma_pass_rank(adjv, topo@, ranks@, idx as int, j as int);
                }
                ranks.set(to, ranks[node] + 1);
            } else {
                proof {
                    lemma_keep_rank(adjv, topo@, ranks@, idx as int, j as int);
                }
            }
            j += 1;
        }
        proof {
            reveal(passed_ok);
            reveal(partial_ok);
            reveal(witness_ok);
            assert forall|i: int, t: int|
                0 <= i < idx + 1 && #[trigger] adj_edge(adjv, topo@[i] as int, t) implies ranks@[t] >= ranks@[topo@[i] as int]
                + 1 by {
                if i == idx {
                    let jj = choose|jj: int| 0 <= jj < succ@.len() && succ@[jj] == t;
                    assert(ranks@[adjv[topo@[idx as int] as int][jj] as int] >= ranks@[topo@[idx as int] as int] + 1);
                }
            }
            assert forall|w: int|
                0 <= w < n implies #[trigger] ranks@[w] == 0 || exists|i: int|
                    0 <= i <= idx + 1 && i < n && adj_edge(adjv, topo@[i] as int, w) && ranks@[topo@[i] as int] + 1 == ranks@[w] by {
                if ranks@[w] != 0 {
                    let i = choose|i: int|
                        0 <= i <= idx && i < n && adj_edge(adjv, topo@[i] as int, w) && ranks@[topo@[i] as int] + 1 == ranks@[w];
                }
            }
        }
        idx += 1;
    }
    ranks
}

/// The rank of every node of a sankey diagram with `node_count` nodes and
/// the links `edges` between them: when the links have no cycle, the
/// number of links on the longest chain of links leading to the node (so
/// every link goes down at least one rank, and a node above rank 0 has a
/// link from the rank just above); otherwise every rank is 0. The nodes are
/// ranked in topological order, taken from a queue that starts with the
/// nodes without incoming links.
pub fn sankey_ranks(node_count: usize, edges: &Vec<(usize, usize)>) -> (ranks: Vec<usize>)
    requires
        edges_below(edges@, node_count as int),
    ensures
        ranks.len() == node_count,
        forall|v: int| 0 <= v < node_count ==> #[trigger] ranks@[v] < node_count,
        edges_acyclic(edges@) ==> forall|k: int|
            0 <= k < edges.len() ==> ranks@[#[trigger] edges@[k].1 as int] >= ranks@[edges@[k].0 as int] + 1,
        edges_acyclic(edges@) ==> forall|v: int|
            0 <= v < node_count ==> #[trigger] ranks@[v] == 0 || exists|k: int|
                0 <= k < edges.len() && edges@[k].1 == v && ranks@[edges@[k].0 as int] + 1 == ranks@[v],
        !edges_acyclic(edges@) ==> forall|v: int| 0 <= v < node_count ==> #[trigger] ranks@[v] == 0,
{
    let n = node_count;
    let (adj, rev) = build_adjacency(n, edges);
    let ghost adjv = adj.deep_view();
    let ghost revv = rev.deep_view();
    proof {
        lemma_adjacency_reverse(adjv, revv, edges@, n as int);
        if edges_acyclic(edges@) {
            lemma_adjacency_acyclic(adjv, revv, edges@, n as int);
        }
        if acyclic(adjv) {
            lemma_adjacency_cycle(adjv, revv, edges@, n as int);
        }
    }
    let topo = topological_order(&adj, &rev);
    if topo.len() == n {
        proof {
            lemma_permutation(topo@, n as int);
        }
        let ranks = longest_path_ranks(&adj, &topo);
        proof {
            reveal(rank_bound_ok);
            reveal(passed_ok);
            reveal(witness_ok);
            assert forall|k: int| 0 <= k < edges.len() implies ranks@[#[trigger] edges@[k].1 as int] >= ranks@[edges@[k].0 as int]
                + 1 by {
                let a = edges@[k].0 as int;
                let b = edges@[k].1 as int;
                assert(a < n && b < n);
                lemma_adjacency_edge(adjv, revv, edges@, n as int, a, b);
                assert(seq_has(topo@, a));
                let ia = choose|i: int| 0 <= i < topo@.len() && topo@[i] == a;
                assert(adj_edge(adjv, topo@[ia] as int, b));
            }
            assert forall|w: int|
                0 <= w < n implies #[trigger] ranks@[w] == 0 || exists|k: int|
                    0 <= k < edges.len() && edges@[k].1 == w && ranks@[edges@[k].0 as int] + 1 == ranks@[w] by {
                if ranks@[w] != 0 {
                    let i = choose|i: int|
                        0 <= i <= n && i < n && adj_edge(adjv, topo@[i] as int, w) && ranks@[topo@[i] as int] + 1 == ranks@[w];
                    lemma_adjacency_edge(adjv, revv, edges@, n as int, topo@[i] as int, w);
                }
            }
            assert forall|w: int| 0 <= w < n implies #[trigger] ranks@[w] < n by {
                assert(seq_has(topo@, w));
                let i = choose|i: int| 0 <= i < topo@.len() && topo@[i] == w;
                assert(ranks@[topo@[i] as int] <= i);
            }
        }
        ranks
    } else {
        let mut ranks: Vec<usize> = Vec::new();
        let mut v: usize = 0;
        while v < n
            invariant
                v <= n,
                ranks.len() == v,
                forall|w: int| 0 <= w < v ==> #[trigger] ranks@[w] == 0,
            decreases n - v,
        {
            ranks.push(0);
            v += 1;
        }
        ranks
    }
}


/// The nodes `ids` (distinct names) in drawing order: by their value in
/// `node_order` (those without one last), then by name; with each node's
/// drawing order and name rank.
fn sankey_node_order(ids: &Vec<String>, node_order: &Vec<(String, usize)>) -> (res: (Vec<String>, Vec<usize>, Vec<usize>))
    requires
        crate::names::spellings(ids@).no_duplicates(),
    ensures
        res.0.len() == ids.len(),
        res.1.len() == ids.len(),
        res.2.len() == ids.len(),
        crate::names::spellings(res.0@).no_duplicates(),
        forall|i: int| 0 <= i < res.0.len() ==> crate::names::spellings(ids@).contains(#[trigger] res.0@[i]@),
        forall|i: int| 0 <= i < res.0.len() ==> #[trigger] res.1@[i] == order_key(node_order@, res.0@[i]@),
        forall|i: int| 0 <= i < res.0.len() ==> #[trigger] res.2@[i] == crate::ranking::name_rank(ids@, res.0@[i]@),
        forall|a: int, b: int|
            0 <= a < b < res.0.len() ==> node_key_less(node_order@, ids@, #[trigger] res.0@[a]@, #[trigger] res.0@[b]@),
{
    let n = ids.len();
    let rank = crate::ranking::sort_positions(ids);
    let mut items: Vec<usize> = Vec::new();
    let mut k1: Vec<u128> = Vec::new();
    let mut korder: Vec<usize> = Vec::new();
    let mut k3: Vec<usize> = Vec::new();
    let mut t: usize = 0;
    while t < n
        invariant
            t <= n,
            n == ids.len(),
            items.len() == t,
            k1.len() == t,
            korder.len() == t,
            k3.len() == t,
            forall|j: int| 0 <= j < t ==> #[trigger] items@[j] == j,
            forall|j: int| 0 <= j < t ==> #[trigger] korder@[j] == order_key(node_order@, ids@[j]@),
            forall|j: int| 0 <= j < t ==> #[trigger] k1@[j] == korder@[j],
            forall|j: int| 0 <= j < t ==> #[trigger] k3@[j] == 0,
        decreases n - t,
    {
        let key = match crate::ranking::lookup_order(node_order, &ids[t]) {
            Some(v) => v,
            None => usize::MAX,
        };
        items.push(t);
        k1.push(key as u128);
        korder.push(key);
        k3.push(0);
        t += 1;
    }
    let perm = crate::ordering::sort_by_keys(&items, &k1, &rank, &k3);
    proof {
        assert(items@.no_duplicates());
        items@.lemma_multiset_has_no_duplicates();
        assert forall|x: usize| perm@.to_multiset().contains(x) implies perm@.to_multiset().count(x) == 1 by {}
        perm@.lemma_multiset_has_no_duplicates_conv();
    }
    let mut node_ids: Vec<String> = Vec::new();
    let mut ko: Vec<usize> = Vec::new();
    let mut kn: Vec<usize> = Vec::new();
    let mut i: usize = 0;
    while i < n
        invariant
            i <= n,
            n == ids.len(),
            perm@.len() == n,
            korder.len() == n,
            rank.len() == n,
            forall|k: int| 0 <= k < n ==> #[trigger] perm@[k] < n,
            node_ids.len() == i,
            ko.len() == i,
            kn.len() == i,
            forall|q: int| 0 <= q < i ==> #[trigger] node_ids@[q]@ == ids@[perm@[q] as int]@,
            forall|q: int| 0 <= q < i ==> #[trigger] ko@[q] == korder@[perm@[q] as int],
            forall|q: int| 0 <= q < i ==> #[trigger] kn@[q] == rank@[perm@[q] as int],
        decreases n - i,
    {
        let src = perm[i];
        node_ids.push(ids[src].clone());
        ko.push(korder[src]);
        kn.push(rank[src]);
        i += 1;
    }
    proof {
        let sp = crate::names::spellings(ids@);
        assert forall|q: int| 0 <= q < n implies sp.contains(#[trigger] node_ids@[q]@) by {
            assert(sp[perm@[q] as int] == ids@[perm@[q] as int]@);
        }
        assert forall|q: int| 0 <= q < n implies #[trigger] ko@[q] == order_key(node_order@, node_ids@[q]@) by {}
        assert forall|q: int| 0 <= q < n implies #[trigger] kn@[q] == crate::ranking::name_rank(ids@, node_ids@[q]@) by {}
        assert(crate::names::spellings(node_ids@).no_duplicates()) by {
            assert forall|a: int, b: int| 0 <= a < b < n implies crate::names::spellings(node_ids@)[a] != crate::names::spellings(
                node_ids@,
            )[b] by {
                assert(perm@[a] != perm@[b]);
                assert(sp[perm@[a] as int] != sp[perm@[b] as int]);
            }
        }
        assert forall|a: int, b: int| 0 <= a < b < n implies node_key_less(
            node_order@,
            ids@,
            #[trigger] node_ids@[a]@,
            #[trigger] node_ids@[b]@,
        ) by {
            assert(crate::ordering::keys_le(k1@, rank@, k3@, perm@[a], perm@[b]));
            assert(perm@[a] != perm@[b]);
            crate::ranking::lemma_name_rank_order(ids@, perm@[a] as int, perm@[b] as int);
        }
    }
    (node_ids, ko, kn)
}

/// The position of `x` in `names`.
pub open spec fn index_in(names: Seq<Seq<char>>, x: Seq<char>) -> int {
    choose|i: int| 0 <= i < names.len() && names[i] == x
}

/// The links among `edges` between two of the nodes `names`, in order:
/// the positions of their ends among the nodes, and their position among
/// the edges.
pub open spec fn sankey_links(names: Seq<Seq<char>>, edges: Seq<crate::ir::Edge>) -> Seq<(usize, usize, usize)>
    decreases edges.len(),
{
    if edges.len() == 0 {
        Seq::empty()
    } else {
        let l = sankey_links(names, edges.drop_last());
        let e = edges.last();
        if names.contains(e.from@) && names.contains(e.to@) {
            l.push((index_in(names, e.from@) as usize, index_in(names, e.to@) as usize, (edges.len() - 1) as usize))
        } else {
            l
        }
    }
}

/// Links come in the order of their edges.
pub proof fn lemma_links_in_edge_order(names: Seq<Seq<char>>, edges: Seq<crate::ir::Edge>)
    requires
        edges.len() <= usize::MAX,
    ensures
        forall|l: int| 0 <= l < sankey_links(names, edges).len() ==> (#[trigger] sankey_links(names, edges)[l]).2 < edges.len(),
        forall|a: int, b: int|
            0 <= a < b < sankey_links(names, edges).len() ==> (#[trigger] sankey_links(names, edges)[a]).2
                < (#[trigger] sankey_links(names, edges)[b]).2,
    decreases edges.len(),
{
    if edges.len() > 0 {
        let l0 = sankey_links(names, edges.drop_last());
        let l1 = sankey_links(names, edges);
        lemma_links_in_edge_order(names, edges.drop_last());
        assert forall|l: int| 0 <= l < l1.len() implies (#[trigger] l1[l]).2 < edges.len() by {
            if l < l0.len() {
                assert(l1[l] == l0[l]);
            }
        }
        assert forall|a: int, b: int| 0 <= a < b < l1.len() implies (#[trigger] l1[a]).2 < (#[trigger] l1[b]).2 by {
            assert(l1[a] == l0[a]);
            if b < l0.len() {
                assert(l1[b] == l0[b]);
            } else {
                assert(l0[a].2 < edges.len() - 1);
            }
        }
    }
}

/// Stacked links to one target keep the order of their edges.
proof fn lemma_parallel_links(
    names: Seq<Seq<char>>,
    edges: Seq<crate::ir::Edge>,
    links: Seq<(usize, usize, usize)>,
    outbound: Seq<Vec<usize>>,
)
    requires
        edges.len() <= usize::MAX,
        links == sankey_links(names, edges),
        forall|v: int, l: usize| 0 <= v < outbound.len() ==> (#[trigger] outbound[v]@.contains(l) ==> l < links.len()),
        forall|v: int, a: int, b: int|
            0 <= v < outbound.len() && 0 <= a < b < outbound[v]@.len() && links[#[trigger] outbound[v]@[a] as int].1
                == links[#[trigger] outbound[v]@[b] as int].1 ==> outbound[v]@[a] < outbound[v]@[b],
    ensures
        forall|v: int, a: int, b: int|
            0 <= v < outbound.len() && 0 <= a < b < outbound[v]@.len() && links[#[trigger] outbound[v]@[a] as int].1
                == links[#[trigger] outbound[v]@[b] as int].1 ==> outbound[v]@[a] < outbound[v]@[b]
                && links[outbound[v]@[a] as int].2 < links[outbound[v]@[b] as int].2,
{
    lemma_links_in_edge_order(names, edges);
    assert forall|v: int, a: int, b: int|
        0 <= v < outbound.len() && 0 <= a < b < outbound[v]@.len() && links[#[trigger] outbound[v]@[a] as int].1
            == links[#[trigger] outbound[v]@[b] as int].1 implies outbound[v]@[a] < outbound[v]@[b]
            && links[outbound[v]@[a] as int].2 < links[outbound[v]@[b] as int].2 by {
        assert(outbound[v]@.contains(outbound[v]@[a]) && outbound[v]@.contains(outbound[v]@[b]));
    }
}

pub open spec fn link_pairs(links: Seq<(usize, usize, usize)>) -> Seq<(usize, usize)> {
    links.map_values(|l: (usize, usize, usize)| (l.0, l.1))
}

/// A list sorted into another order has the same entries, and keeps having
/// none twice.
proof fn lemma_same_members(a: Seq<usize>, b: Seq<usize>)
    requires
        a.to_multiset() == b.to_multiset(),
        a.no_duplicates(),
    ensures
        b.no_duplicates(),
        forall|x: usize| a.contains(x) <==> #[trigger] b.contains(x),
{
    broadcast use vstd::seq_lib::group_to_multiset_ensures;
    a.lemma_multiset_has_no_duplicates();
    assert forall|x: usize| b.to_multiset().contains(x) implies b.to_multiset().count(x) == 1 by {}
    b.lemma_multiset_has_no_duplicates_conv();
    a.to_multiset_ensures();
    b.to_multiset_ensures();
    assert forall|x: usize| a.contains(x) <==> #[trigger] b.contains(x) by {
        vstd::seq_lib::to_multiset_contains(a, x);
        vstd::seq_lib::to_multiset_contains(b, x);
        assert(a.to_multiset().count(x) == b.to_multiset().count(x));
    }
}

/// The links of `edges` between two of the nodes `node_ids` (distinct).
fn find_links(node_ids: &Vec<String>, edges: &Vec<crate::ir::Edge>) -> (links: Vec<(usize, usize, usize)>)
    requires
        crate::names::spellings(node_ids@).no_duplicates(),
    ensures
        links@ == sankey_links(crate::names::spellings(node_ids@), edges@),
        forall|l: int| #![trigger links@[l]] 0 <= l < links.len() ==> links@[l].0 < node_ids.len() && links@[l].1 < node_ids.len(),
{
    let ghost names = crate::names::spellings(node_ids@);
    let mut links: Vec<(usize, usize, usize)> = Vec::new();
    let mut k: usize = 0;
    while k < edges.len()
        invariant
            k <= edges.len(),
            names == crate::names::spellings(node_ids@),
            names.no_duplicates(),
            links@ == sankey_links(names, edges@.take(k as int)),
            forall|l: int| #![trigger links@[l]] 0 <= l < links.len() ==> links@[l].0 < node_ids.len() && links@[l].1 < node_ids.len(),
        decreases edges.len() - k,
    {
        let fa = crate::names::find_name(node_ids, &edges[k].from);
        let fb = crate::names::find_name(node_ids, &edges[k].to);
        let ghost l0 = links@;
        proof {
            assert(edges@.take(k + 1).drop_last() =~= edges@.take(k as int));
            assert(edges@.take(k + 1).last() == edges@[k as int]);
        }
        match (fa, fb) {
            (Some(a), Some(b)) => {
                links.push((a, b, k));
                proof {
                    assert(names[a as int] == edges@[k as int].from@);
                    assert(names[b as int] == edges@[k as int].to@);
                    let ia = index_in(names, edges@[k as int].from@);
                    let ib = index_in(names, edges@[k as int].to@);
                    assert(names.contains(edges@[k as int].from@));
                    assert(names.contains(edges@[k as int].to@));
                    assert(names[ia] == names[a as int]);
                    assert(names[ib] == names[b as int]);
                }
            },
            _ => {
                proof {
                    if names.contains(edges@[k as int].from@) && names.contains(edges@[k as int].to@) {
                        let ia = choose|i: int| 0 <= i < names.len() && names[i] == edges@[k as int].from@;
                        let ib = choose|i: int| 0 <= i < names.len() && names[i] == edges@[k as int].to@;
                        assert(node_ids@[ia]@ == names[ia]);
                        assert(node_ids@[ib]@ == names[ib]);
                    }
                }
            },
        }
        k += 1;
    }
    proof {
        assert(edges@.take(edges.len() as int) =~= edges@);
    }
    links
}

/// The structure of a sankey diagram: its nodes in drawing order, the
/// links between them, each node's rank, the nodes of each rank, and the
/// links leaving each node in the order they are stacked.
pub struct SankeyGraph {
    pub node_ids: Vec<String>,
    pub links: Vec<(usize, usize, usize)>,
    pub ranks: Vec<usize>,
    pub rank_nodes: Vec<Vec<usize>>,
    pub outbound: Vec<Vec<usize>>,
}

/// Link `a` is stacked before link `b` on their source: its target has the
/// higher rank, or the same rank and comes first in drawing order (by
/// drawing order, then by name).
pub open spec fn stacked_before(ranks: Seq<usize>, ko: Seq<usize>, kn: Seq<usize>, ta: int, tb: int) -> bool {
    ranks[ta] > ranks[tb] || (ranks[ta] == ranks[tb] && (ko[ta] < ko[tb] || (ko[ta] == ko[tb] && kn[ta] <= kn[tb])))
}

/// The nodes of each rank `0..=max_rank`, each rank's in order of the keys
/// `(order, name)`, with the highest rank.
fn rank_buckets(ranks: &Vec<usize>, ko: &Vec<usize>, kn: &Vec<usize>) -> (res: (Vec<Vec<usize>>, usize))
    requires
        ko.len() == ranks.len(),
        kn.len() == ranks.len(),
        forall|w: int| 0 <= w < ranks.len() ==> #[trigger] ranks@[w] < ranks.len(),
    ensures
        res.0.len() == res.1 + 1,
        forall|w: int| 0 <= w < ranks.len() ==> #[trigger] ranks@[w] <= res.1,
        ranks.len() == 0 ==> res.1 == 0,
        ranks.len() > 0 ==> exists|w: int| 0 <= w < ranks.len() && ranks@[w] == res.1,
        forall|q: int| 0 <= q < res.0.len() ==> (#[trigger] res.0@[q])@.no_duplicates(),
        forall|q: int, w: usize| 0 <= q < res.0.len() && #[trigger] res.0@[q]@.contains(w) ==> w < ranks.len() && ranks@[w as int] == q,
        forall|q: int, w: int| 0 <= q < res.0.len() && 0 <= w < ranks.len() && ranks@[w] == q ==> #[trigger] res.0@[q]@.contains(w as usize),
        forall|q: int, a: int, b: int|
            0 <= q < res.0.len() && 0 <= a < b < res.0@[q]@.len() ==> ko@[#[trigger] res.0@[q]@[a] as int] < ko@[#[trigger] res.0@[q]@[b] as int]
                || (ko@[res.0@[q]@[a] as int] == ko@[res.0@[q]@[b] as int] && kn@[res.0@[q]@[a] as int] <= kn@[res.0@[q]@[b] as int]),
{
    let n = ranks.len();
    let mut max_rank: usize = 0;
    let mut v: usize = 0;
    while v < n
        invariant
            v <= n,
            ranks.len() == n,
            forall|w: int| 0 <= w < n ==> #[trigger] ranks@[w] < n,
            forall|w: int| 0 <= w < v ==> #[trigger] ranks@[w] <= max_rank,
            v == 0 ==> max_rank == 0,
            v > 0 ==> exists|w: int| 0 <= w < v && ranks@[w] == max_rank,
            max_rank < n || n == 0,
        decreases n - v,
    {
        if ranks[v] > max_rank {
            max_rank = ranks[v];
        }
        v += 1;
    }
    let num_ranks = max_rank + 1;
    let mut rank_nodes: Vec<Vec<usize>> = Vec::new();
    let mut r: usize = 0;
    while r < num_ranks
        invariant
            r <= num_ranks,
            rank_nodes.len() == r,
            forall|q: int| 0 <= q < r ==> (#[trigger] rank_nodes@[q])@ == Seq::<usize>::empty(),
        decreases num_ranks - r,
    {
        rank_nodes.push(Vec::new());
        r += 1;
    }
    let mut v: usize = 0;
    while v < n
        invariant
            v <= n,
            ranks.len() == n,
            forall|w: int| 0 <= w < n ==> #[trigger] ranks@[w] < num_ranks,
            rank_nodes.len() == num_ranks,
            forall|q: int| 0 <= q < num_ranks ==> (#[trigger] rank_nodes@[q])@.no_duplicates(),
            forall|q: int, w: usize| 0 <= q < num_ranks && #[trigger] rank_nodes@[q]@.contains(w) ==> w < v && ranks@[w as int] == q,
            forall|q: int, w: int| 0 <= q < num_ranks && 0 <= w < v && ranks@[w] == q ==> #[trigger] rank_nodes@[q]@.contains(w as usize),
            forall|q: int, a: int, b: int|
                0 <= q < num_ranks && 0 <= a < b < rank_nodes@[q]@.len() ==> #[trigger] rank_nodes@[q]@[a] < #[trigger] rank_nodes@[q]@[b],
        decreases n - v,
    {
        let rv = ranks[v];
        let ghost r0 = rank_nodes@;
        let mut bucket = rank_nodes[rv].clone();
        bucket.push(v);
        rank_nodes.set(rv, bucket);
        proof {
            assert forall|q: int| 0 <= q < num_ranks implies (#[trigger] rank_nodes@[q])@.no_duplicates() by {
                if q == rv {
                    assert forall|a: int, b: int| 0 <= a < b < rank_nodes@[q]@.len() implies rank_nodes@[q]@[a] != rank_nodes@[q]@[b] by {
                        if b == rank_nodes@[q]@.len() - 1 {
                            assert(r0[q]@.contains(rank_nodes@[q]@[a]));
                        }
                    }
                } else {
                    assert(rank_nodes@[q] == r0[q]);
                }
            }
            assert forall|q: int, w: usize| 0 <= q < num_ranks && #[trigger] rank_nodes@[q]@.contains(w) implies w < v + 1
                && ranks@[w as int] == q by {
                if q == rv {
                    let k = choose|k: int| 0 <= k < rank_nodes@[q]@.len() && rank_nodes@[q]@[k] == w;
                    if k < r0[q]@.len() {
                        assert(r0[q]@[k] == w);
                        assert(r0[q]@.contains(w));
                    }
                } else {
                    assert(rank_nodes@[q] == r0[q]);
                }
            }
            assert forall|q: int, w: int| 0 <= q < num_ranks && 0 <= w < v + 1 && ranks@[w] == q implies #[trigger] rank_nodes@[q]@.contains(
                w as usize,
            ) by {
                if q == rv {
                    if w < v {
                        assert(r0[q]@.contains(w as usize));
                        let k = choose|k: int| 0 <= k < r0[q]@.len() && r0[q]@[k] == w as usize;
                        assert(rank_nodes@[q]@[k] == w as usize);
                    } else {
                        assert(rank_nodes@[q]@[r0[q]@.len() as int] == w as usize);
                    }
                } else {
                    assert(rank_nodes@[q] == r0[q]);
                }
            }
            assert forall|q: int, a: int, b: int|
                0 <= q < num_ranks && 0 <= a < b < rank_nodes@[q]@.len() implies #[trigger] rank_nodes@[q]@[a]
                < #[trigger] rank_nodes@[q]@[b] by {
                if q == rv {
                    if b == rank_nodes@[q]@.len() - 1 {
                        assert(r0[q]@.contains(rank_nodes@[q]@[a]));
                    } else {
                        assert(rank_nodes@[q]@[a] == r0[q]@[a] && rank_nodes@[q]@[b] == r0[q]@[b]);
                    }
                } else {
                    assert(rank_nodes@[q] == r0[q]);
                }
            }
        }
        v += 1;
    }
    let mut k1: Vec<u128> = Vec::new();
    let mut k3: Vec<usize> = Vec::new();
    let mut v: usize = 0;
    while v < n
        invariant
            v <= n,
            ko.len() == n,
            k1.len() == v,
            k3.len() == v,
            forall|w: int| 0 <= w < v ==> #[trigger] k1@[w] == ko@[w],
            forall|w: int| 0 <= w < v ==> #[trigger] k3@[w] == 0,
        decreases n - v,
    {
        k1.push(ko[v] as u128);
        k3.push(0);
        v += 1;
    }
    let mut r: usize = 0;
    while r < num_ranks
        invariant
            r <= num_ranks,
            rank_nodes.len() == num_ranks,
            forall|q: int| 0 <= q < num_ranks ==> (#[trigger] rank_nodes@[q])@.no_duplicates(),
            forall|q: int, w: usize| 0 <= q < num_ranks && #[trigger] rank_nodes@[q]@.contains(w) ==> w < n && ranks@[w as int] == q,
            forall|q: int, w: int| 0 <= q < num_ranks && 0 <= w < n && ranks@[w] == q ==> #[trigger] rank_nodes@[q]@.contains(w as usize),
            forall|q: int, a: int, b: int|
                0 <= q < r && 0 <= a < b < rank_nodes@[q]@.len() ==> crate::ordering::keys_le(
                    k1@,
                    kn@,
                    k3@,
                    #[trigger] rank_nodes@[q]@[a],
                    #[trigger] rank_nodes@[q]@[b],
                ),
            k1.len() == n,
            kn.len() == n,
            k3.len() == n,
        decreases num_ranks - r,
    {
        let ghost r0 = rank_nodes@;
        proof {
            assert forall|t: int| 0 <= t < rank_nodes@[r as int]@.len() implies #[trigger] rank_nodes@[r as int]@[t] < k1.len() by {
                assert(rank_nodes@[r as int]@.contains(rank_nodes@[r as int]@[t]));
            }
        }
        let sorted = crate::ordering::sort_by_keys(&rank_nodes[r], &k1, &kn, &k3);
        proof {
            lemma_same_members(r0[r as int]@, sorted@);
        }
        rank_nodes.set(r, sorted);
        proof {
            assert forall|q: int, w: usize| 0 <= q < num_ranks && #[trigger] rank_nodes@[q]@.contains(w) implies w < n && ranks@[w as int] == q by {
                if q != r {
                    assert(rank_nodes@[q] == r0[q]);
                } else {
                    assert(r0[q]@.contains(w));
                }
            }
            assert forall|q: int, w: int| 0 <= q < num_ranks && 0 <= w < n && ranks@[w] == q implies #[trigger] rank_nodes@[q]@.contains(
                w as usize,
            ) by {
                if q != r {
                    assert(rank_nodes@[q] == r0[q]);
                } else {
                    assert(r0[q]@.contains(w as usize));
                }
            }
            assert forall|q: int| 0 <= q < num_ranks implies (#[trigger] rank_nodes@[q])@.no_duplicates() by {
                if q != r {
                    assert(rank_nodes@[q] == r0[q]);
                }
            }
            assert forall|q: int, a: int, b: int|
                0 <= q < r + 1 && 0 <= a < b < rank_nodes@[q]@.len() implies crate::ordering::keys_le(
                k1@,
                kn@,
                k3@,
                #[trigger] rank_nodes@[q]@[a],
                #[trigger] rank_nodes@[q]@[b],
            ) by {
                if q != r {
                    assert(rank_nodes@[q] == r0[q]);
                }
            }
        }
        r += 1;
    }
    proof {
        assert forall|q: int, a: int, b: int|
            0 <= q < num_ranks && 0 <= a < b < rank_nodes@[q]@.len() implies ko@[#[trigger] rank_nodes@[q]@[a] as int] < ko@[#[trigger] rank_nodes@[q]@[b] as int]
                || (ko@[rank_nodes@[q]@[a] as int] == ko@[rank_nodes@[q]@[b] as int] && kn@[rank_nodes@[q]@[a] as int] <= kn@[rank_nodes@[q]@[b] as int]) by {
            assert(crate::ordering::keys_le(k1@, kn@, k3@, rank_nodes@[q]@[a], rank_nodes@[q]@[b]));
            assert(rank_nodes@[q]@.contains(rank_nodes@[q]@[a]) && rank_nodes@[q]@.contains(rank_nodes@[q]@[b]));
        }
    }
    (rank_nodes, max_rank)
}

/// For each node, the links leaving it, ordered by the keys of their
/// targets: rank descending, then order, then name.
fn stacked_links(links: &Vec<(usize, usize, usize)>, ranks: &Vec<usize>, ko: &Vec<usize>, kn: &Vec<usize>) -> (outbound: Vec<Vec<usize>>)
    requires
        ko.len() == ranks.len(),
        kn.len() == ranks.len(),
        forall|q: int| #![trigger links@[q]] 0 <= q < links.len() ==> links@[q].0 < ranks.len() && links@[q].1 < ranks.len(),
    ensures
        outbound.len() == ranks.len(),
        forall|v: int| 0 <= v < ranks.len() ==> (#[trigger] outbound@[v])@.no_duplicates(),
        forall|v: int, l: usize|
            0 <= v < ranks.len() ==> (#[trigger] outbound@[v]@.contains(l) <==> l < links.len() && links@[l as int].0 == v),
        forall|v: int, a: int, b: int|
            0 <= v < ranks.len() && 0 <= a < b < outbound@[v]@.len() ==> stacked_before(
                ranks@,
                ko@,
                kn@,
                links@[#[trigger] outbound@[v]@[a] as int].1 as int,
                links@[#[trigger] outbound@[v]@[b] as int].1 as int,
            ),
        forall|v: int, a: int, b: int|
            0 <= v < ranks.len() && 0 <= a < b < outbound@[v]@.len() && links@[#[trigger] outbound@[v]@[a] as int].1
                == links@[#[trigger] outbound@[v]@[b] as int].1 ==> outbound@[v]@[a] < outbound@[v]@[b],
{
    let n = ranks.len();
    let mut outbound: Vec<Vec<usize>> = Vec::new();
    let mut v: usize = 0;
    while v < n
        invariant
            v <= n,
            outbound.len() == v,
            forall|q: int| 0 <= q < v ==> (#[trigger] outbound@[q])@ == Seq::<usize>::empty(),
        decreases n - v,
    {
        outbound.push(Vec::new());
        v += 1;
    }
    let mut l: usize = 0;
    while l < links.len()
        invariant
            l <= links.len(),
            outbound.len() == n,
            forall|q: int| #![trigger links@[q]] 0 <= q < links.len() ==> links@[q].0 < n && links@[q].1 < n,
            forall|q: int| 0 <= q < n ==> (#[trigger] outbound@[q])@.no_duplicates(),
            forall|q: int, m: usize| 0 <= q < n ==> (#[trigger] outbound@[q]@.contains(m) <==> m < l && links@[m as int].0 == q),
            forall|q: int, a: int, b: int| 0 <= q < n && 0 <= a < b < outbound@[q]@.len() ==> #[trigger] outbound@[q]@[a] < #[trigger] outbound@[q]@[b],
        decreases links.len() - l,
    {
        let src = links[l].0;
        let ghost o0 = outbound@;
        let mut list = outbound[src].clone();
        list.push(l);
        outbound.set(src, list);
        proof {
            assert forall|q: int| 0 <= q < n implies (#[trigger] outbound@[q])@.no_duplicates() by {
                if q == src {
                    assert forall|a: int, b: int| 0 <= a < b < outbound@[q]@.len() implies outbound@[q]@[a] != outbound@[q]@[b] by {
                        if b == outbound@[q]@.len() - 1 {
                            assert(o0[q]@.contains(outbound@[q]@[a]));
                        }
                    }
                } else {
                    assert(outbound@[q] == o0[q]);
                }
            }
            assert forall|q: int, m: usize| 0 <= q < n implies (#[trigger] outbound@[q]@.contains(m) <==> m < l + 1
                && links@[m as int].0 == q) by {
                if q == src {
                    if outbound@[q]@.contains(m) {
                        let k = choose|k: int| 0 <= k < outbound@[q]@.len() && outbound@[q]@[k] == m;
                        if k < o0[q]@.len() {
                            assert(o0[q]@[k] == m);
                            assert(o0[q]@.contains(m));
                        }
                    }
                    if m < l + 1 && links@[m as int].0 == q {
                        if m < l {
                            assert(o0[q]@.contains(m));
                            let k = choose|k: int| 0 <= k < o0[q]@.len() && o0[q]@[k] == m;
                            assert(outbound@[q]@[k] == m);
                        } else {
                            assert(outbound@[q]@[o0[q]@.len() as int] == m);
                        }
                    }
                } else {
                    assert(outbound@[q] == o0[q]);
                }
            }
            assert forall|q: int, a: int, b: int| 0 <= q < n && 0 <= a < b < outbound@[q]@.len() implies #[trigger] outbound@[q]@[a] < #[trigger] outbound@[q]@[b] by {
                if q == src {
                    if b == outbound@[q]@.len() - 1 {
                        assert(o0[q]@.contains(outbound@[q]@[a]));
                    } else {
                        assert(outbound@[q]@[a] == o0[q]@[a] && outbound@[q]@[b] == o0[q]@[b]);
                    }
                } else {
                    assert(outbound@[q] == o0[q]);
                }
            }
        }
        l += 1;
    }
    let mut s1: Vec<u128> = Vec::new();
    let mut s2: Vec<usize> = Vec::new();
    let mut s3: Vec<usize> = Vec::new();
    let mut l: usize = 0;
    while l < links.len()
        invariant
            l <= links.len(),
            ranks.len() == n,
            ko.len() == n,
            kn.len() == n,
            forall|q: int| #![trigger links@[q]] 0 <= q < links.len() ==> links@[q].0 < n && links@[q].1 < n,
            s1.len() == l,
            s2.len() == l,
            s3.len() == l,
            forall|q: int| 0 <= q < l ==> #[trigger] s1@[q] == usize::MAX - ranks@[links@[q].1 as int],
            forall|q: int| 0 <= q < l ==> #[trigger] s2@[q] == ko@[links@[q].1 as int],
            forall|q: int| 0 <= q < l ==> #[trigger] s3@[q] == kn@[links@[q].1 as int],
        decreases links.len() - l,
    {
        let to = links[l].1;
        s1.push((usize::MAX - ranks[to]) as u128);
        s2.push(ko[to]);
        s3.push(kn[to]);
        l += 1;
    }
    let mut v: usize = 0;
    while v < n
        invariant
            v <= n,
            outbound.len() == n,
            s1.len() == links.len(),
            s2.len() == links.len(),
            s3.len() == links.len(),
            forall|q: int| 0 <= q < n ==> (#[trigger] outbound@[q])@.no_duplicates(),
            forall|q: int, m: usize| 0 <= q < n ==> (#[trigger] outbound@[q]@.contains(m) <==> m < links.len()
                && links@[m as int].0 == q),
            forall|q: int, a: int, b: int|
                0 <= q < v && 0 <= a < b < outbound@[q]@.len() ==> crate::ordering::keys_le(
                    s1@,
                    s2@,
                    s3@,
                    #[trigger] outbound@[q]@[a],
                    #[trigger] outbound@[q]@[b],
                ),
            forall|q: int, a: int, b: int| v <= q < n && 0 <= a < b < outbound@[q]@.len() ==> #[trigger] outbound@[q]@[a] < #[trigger] outbound@[q]@[b],
            forall|q: int| #![trigger links@[q]] 0 <= q < links.len() ==> links@[q].0 < n && links@[q].1 < n,
            forall|q: int| 0 <= q < links.len() ==> #[trigger] s1@[q] == usize::MAX - ranks@[links@[q].1 as int],
            forall|q: int| 0 <= q < links.len() ==> #[trigger] s2@[q] == ko@[links@[q].1 as int],
            forall|q: int| 0 <= q < links.len() ==> #[trigger] s3@[q] == kn@[links@[q].1 as int],
            forall|q: int, a: int, b: int|
                0 <= q < v && 0 <= a < b < outbound@[q]@.len() && links@[#[trigger] outbound@[q]@[a] as int].1
                    == links@[#[trigger] outbound@[q]@[b] as int].1 ==> outbound@[q]@[a] < outbound@[q]@[b],
        decreases n - v,
    {
        let ghost o0 = outbound@;
        proof {
            assert forall|t: int| 0 <= t < outbound@[v as int]@.len() implies #[trigger] outbound@[v as int]@[t] < s1.len() by {
                assert(outbound@[v as int]@.contains(outbound@[v as int]@[t]));
            }
        }
        let sorted = crate::ordering::sort_by_keys(&outbound[v], &s1, &s2, &s3);
        proof {
            lemma_same_members(o0[v as int]@, sorted@);
        }
        outbound.set(v, sorted);
        proof {
            assert forall|q: int| 0 <= q < n implies (#[trigger] outbound@[q])@.no_duplicates() by {
                if q != v {
                    assert(outbound@[q] == o0[q]);
                }
            }
            assert forall|q: int, m: usize| 0 <= q < n implies (#[trigger] outbound@[q]@.contains(m) <==> m < links.len()
                && links@[m as int].0 == q) by {
                if q != v {
                    assert(outbound@[q] == o0[q]);
                } else {
                    assert(o0[q]@.contains(m) <==> outbound@[q]@.contains(m));
                }
            }
            assert forall|q: int, a: int, b: int|
                0 <= q < v + 1 && 0 <= a < b < outbound@[q]@.len() implies crate::ordering::keys_le(
                s1@,
                s2@,
                s3@,
                #[trigger] outbound@[q]@[a],
                #[trigger] outbound@[q]@[b],
            ) by {
                if q != v {
                    assert(outbound@[q] == o0[q]);
                }
            }
            assert forall|q: int, a: int, b: int| v + 1 <= q < n && 0 <= a < b < outbound@[q]@.len() implies #[trigger] outbound@[q]@[a] < #[trigger] outbound@[q]@[b] by {
                assert(outbound@[q] == o0[q]);
            }
            assert forall|q: int, a: int, b: int|
                0 <= q < v + 1 && 0 <= a < b < outbound@[q]@.len() && links@[#[trigger] outbound@[q]@[a] as int].1
                    == links@[#[trigger] outbound@[q]@[b] as int].1 implies outbound@[q]@[a] < outbound@[q]@[b] by {
                if q != v {
                    assert(outbound@[q] == o0[q]);
                } else {
                    let x = outbound@[q]@[a];
                    let y = outbound@[q]@[b];
                    assert(outbound@[q]@.contains(x) && outbound@[q]@.contains(y));
                    assert(crate::ordering::keys_le(s1@, s2@, s3@, y, x));
                }
            }
        }
        v += 1;
    }
    proof {
        assert forall|v: int, a: int, b: int|
            0 <= v < n && 0 <= a < b < outbound@[v]@.len() implies stacked_before(
                ranks@,
                ko@,
                kn@,
                links@[#[trigger] outbound@[v]@[a] as int].1 as int,
                links@[#[trigger] outbound@[v]@[b] as int].1 as int,
            ) by {
            let x = outbound@[v]@[a];
            let y = outbound@[v]@[b];
            assert(outbound@[v]@.contains(x) && outbound@[v]@.contains(y));
            assert(crate::ordering::keys_le(s1@, s2@, s3@, x, y));
        }
    }
    outbound
}

/// The structure of the sankey diagram with nodes `ids` (distinct names),
/// drawing order `node_order` and edges `edges`: the nodes are put in
/// drawing order (by their value in `node_order`, those without one last,
/// then by name); the edges between two of them become links; nodes are
/// ranked along the links (`sankey_ranks`); each rank lists its nodes in
/// drawing order; and each node's outgoing links are stacked by the rank
/// of their target, highest first, then by the target's drawing order.
#[verifier::spinoff_prover]
#[verifier::rlimit(50)]
pub fn sankey_graph(ids: &Vec<String>, node_order: &Vec<(String, usize)>, edges: &Vec<crate::ir::Edge>) -> (g: SankeyGraph)
    requires
        crate::names::spellings(ids@).no_duplicates(),
    ensures
        g.node_ids.len() == ids.len(),
        crate::names::spellings(g.node_ids@).no_duplicates(),
        forall|i: int| 0 <= i < g.node_ids.len() ==> crate::names::spellings(ids@).contains(#[trigger] g.node_ids@[i]@),
        forall|a: int, b: int|
            0 <= a < b < g.node_ids.len() ==> node_key_less(node_order@, ids@, #[trigger] g.node_ids@[a]@, #[trigger] g.node_ids@[b]@),
        g.links@ == sankey_links(crate::names::spellings(g.node_ids@), edges@),
        g.ranks.len() == ids.len(),
        forall|v: int| 0 <= v < ids.len() ==> #[trigger] g.ranks@[v] < ids.len(),
        edges_acyclic(link_pairs(g.links@)) ==> forall|l: int|
            0 <= l < g.links.len() ==> g.ranks@[#[trigger] g.links@[l].1 as int] >= g.ranks@[g.links@[l].0 as int] + 1,
        edges_acyclic(link_pairs(g.links@)) ==> forall|v: int|
            0 <= v < ids.len() ==> #[trigger] g.ranks@[v] == 0 || exists|l: int|
                0 <= l < g.links.len() && g.links@[l].1 == v && g.ranks@[g.links@[l].0 as int] + 1 == g.ranks@[v],
        !edges_acyclic(link_pairs(g.links@)) ==> forall|v: int| 0 <= v < ids.len() ==> #[trigger] g.ranks@[v] == 0,
        g.rank_nodes.len() >= 1,
        forall|v: int| 0 <= v < ids.len() ==> #[trigger] g.ranks@[v] < g.rank_nodes.len(),
        g.rank_nodes.len() == 1 || exists|v: int| 0 <= v < ids.len() && g.ranks@[v] + 1 == g.rank_nodes.len(),
        forall|r: int| 0 <= r < g.rank_nodes.len() ==> (#[trigger] g.rank_nodes@[r])@.no_duplicates(),
        forall|r: int, v: int|
            0 <= r < g.rank_nodes.len() && 0 <= v < ids.len() ==> (#[trigger] g.rank_nodes@[r]@.contains(v as usize)
                <==> g.ranks@[v] == r),
        forall|r: int, v: usize| 0 <= r < g.rank_nodes.len() && #[trigger] g.rank_nodes@[r]@.contains(v) ==> v < ids.len(),
        forall|r: int, a: int, b: int|
            0 <= r < g.rank_nodes.len() && 0 <= a < b < g.rank_nodes@[r]@.len() ==> node_key_less(
                node_order@,
                ids@,
                g.node_ids@[#[trigger] g.rank_nodes@[r]@[a] as int]@,
                g.node_ids@[#[trigger] g.rank_nodes@[r]@[b] as int]@,
            ),
        g.outbound.len() == ids.len(),
        forall|v: int| 0 <= v < ids.len() ==> (#[trigger] g.outbound@[v])@.no_duplicates(),
        forall|v: int, l: usize|
            0 <= v < ids.len() ==> (#[trigger] g.outbound@[v]@.contains(l) <==> l < g.links.len() && g.links@[l as int].0 == v),
        forall|v: int, a: int, b: int|
            0 <= v < ids.len() && 0 <= a < b < g.outbound@[v]@.len() ==> ({
                let ta = g.links@[#[trigger] g.outbound@[v]@[a] as int].1 as int;
                let tb = g.links@[#[trigger] g.outbound@[v]@[b] as int].1 as int;
                g.ranks@[ta] > g.ranks@[tb] || (g.ranks@[ta] == g.ranks@[tb] && (order_key(node_order@, g.node_ids@[ta]@)
                    < order_key(node_order@, g.node_ids@[tb]@) || (order_key(node_order@, g.node_ids@[ta]@) == order_key(
                    node_order@,
                    g.node_ids@[tb]@,
                ) && crate::ranking::name_rank(ids@, g.node_ids@[ta]@) <= crate::ranking::name_rank(
                    ids@,
                    g.node_ids@[tb]@,
                ))))
            }),
        forall|v: int, a: int, b: int|
            0 <= v < ids.len() && 0 <= a < b < g.outbound@[v]@.len() && g.links@[#[trigger] g.outbound@[v]@[a] as int].1
                == g.links@[#[trigger] g.outbound@[v]@[b] as int].1 ==> g.outbound@[v]@[a] < g.outbound@[v]@[b]
                && g.links@[g.outbound@[v]@[a] as int].2 < g.links@[g.outbound@[v]@[b] as int].2,
{
    let n = ids.len();
    let (node_ids, ko, kn) = sankey_node_order(ids, node_order);
    let links = find_links(&node_ids, edges);
    let mut pairs: Vec<(usize, usize)> = Vec::new();
    let mut l: usize = 0;
    while l < links.len()
        invariant
            l <= links.len(),
            pairs@ == link_pairs(links@.take(l as int)),
            forall|q: int| #![trigger links@[q]] 0 <= q < links.len() ==> links@[q].0 < n && links@[q].1 < n,
        decreases links.len() - l,
    {
        pairs.push((links[l].0, links[l].1));
        l += 1;
        proof {
            assert(link_pairs(links@.take(l as int)) =~= link_pairs(links@.take(l - 1)).push((links@[l - 1].0, links@[l - 1].1)));
        }
    }
    proof {
        assert(links@.take(links.len() as int) =~= links@);
        assert forall|k: int| 0 <= k < pairs@.len() implies #[trigger] pairs@[k].0 < n && pairs@[k].1 < n by {
            assert(pairs@[k] == (links@[k].0, links@[k].1));
        }
    }
    let ranks = sankey_ranks(n, &pairs);
    let (rank_nodes, max_rank) = rank_buckets(&ranks, &ko, &kn);
    let outbound = stacked_links(&links, &ranks, &ko, &kn);
    let elen = edges.len();
    proof {
        assert(edges@.len() == elen);
        lemma_parallel_links(crate::names::spellings(node_ids@), edges@, links@, outbound@);
        assert(link_pairs(links@) =~= pairs@);
        assert forall|q: int| 0 <= q < links.len() implies #[trigger] pairs@[q] == (links@[q].0, links@[q].1) by {}
        assert forall|q: int| 0 <= q < links.len() implies ranks@[#[trigger] links@[q].1 as int] >= ranks@[links@[q].0 as int] + 1
            || !edges_acyclic(link_pairs(links@)) by {
            assert(pairs@[q] == (links@[q].0, links@[q].1));
            if edges_acyclic(link_pairs(links@)) {
                assert(edges_acyclic(pairs@));
                assert(ranks@[pairs@[q].1 as int] >= ranks@[pairs@[q].0 as int] + 1);
            }
        }
        assert(rank_nodes.len() == max_rank + 1);
        if n > 0 {
            assert(exists|w: int| 0 <= w < ranks.len() && ranks@[w] == max_rank);
            let w = choose|w: int| 0 <= w < ranks.len() && ranks@[w] == max_rank;
            assert(ranks@[w] + 1 == rank_nodes.len());
            assert(exists|v: int| 0 <= v < ids.len() && ranks@[v] + 1 == rank_nodes.len());
        }
        assert forall|w: int| 0 <= w < n && edges_acyclic(link_pairs(links@)) implies #[trigger] ranks@[w] == 0 || exists|q: int|
            0 <= q < links.len() && links@[q].1 == w && ranks@[links@[q].0 as int] + 1 == ranks@[w] by {
            if ranks@[w] != 0 {
                let q = choose|q: int| 0 <= q < pairs@.len() && pairs@[q].1 == w && ranks@[pairs@[q].0 as int] + 1 == ranks@[w];
                assert(pairs@[q] == (links@[q].0, links@[q].1));
            }
        }
        assert forall|q: int, a: int, b: int|
            0 <= q < rank_nodes.len() && 0 <= a < b < rank_nodes@[q]@.len() implies node_key_less(
            node_order@,
            ids@,
            node_ids@[#[trigger] rank_nodes@[q]@[a] as int]@,
            node_ids@[#[trigger] rank_nodes@[q]@[b] as int]@,
        ) by {
            let x = rank_nodes@[q]@[a];
            let y = rank_nodes@[q]@[b];
            assert(rank_nodes@[q]@.contains(x) && rank_nodes@[q]@.contains(y));
            assert(x != y);
            lemma_distinct_name_ranks(ids@, node_ids@, x as int, y as int);
        }
        assert forall|q: int, a: int, b: int|
            0 <= q < n && 0 <= a < b < outbound@[q]@.len() implies ({
                let ta = links@[#[trigger] outbound@[q]@[a] as int].1 as int;
                let tb = links@[#[trigger] outbound@[q]@[b] as int].1 as int;
                ranks@[ta] > ranks@[tb] || (ranks@[ta] == ranks@[tb] && (order_key(node_order@, node_ids@[ta]@)
                    < order_key(node_order@, node_ids@[tb]@) || (order_key(node_order@, node_ids@[ta]@) == order_key(
                    node_order@,
                    node_ids@[tb]@,
                ) && crate::ranking::name_rank(ids@, node_ids@[ta]@) <= crate::ranking::name_rank(
                    ids@,
                    node_ids@[tb]@,
                ))))
            }) by {
            let x = outbound@[q]@[a];
            let y = outbound@[q]@[b];
            assert(stacked_before(ranks@, ko@, kn@, links@[x as int].1 as int, links@[y as int].1 as int));
            assert(outbound@[q]@.contains(x));
            assert(outbound@[q]@.contains(y));
        }
    }
    SankeyGraph { node_ids, links, ranks, rank_nodes, outbound }
}

/// Distinct nodes have distinct name ranks.
proof fn lemma_distinct_name_ranks(ids: Seq<String>, node_ids: Seq<String>, x: int, y: int)
    requires
        crate::names::spellings(ids).no_duplicates(),
        crate::names::spellings(node_ids).no_duplicates(),
        forall|i: int| 0 <= i < node_ids.len() ==> crate::names::spellings(ids).contains(#[trigger] node_ids[i]@),
        0 <= x < node_ids.len(),
        0 <= y < node_ids.len(),
        x != y,
    ensures
        crate::ranking::name_rank(ids, node_ids[x]@) != crate::ranking::name_rank(ids, node_ids[y]@),
{
    let sp = crate::names::spellings(ids);
    assert(sp.contains(node_ids[x]@));
    assert(sp.contains(node_ids[y]@));
    let i = choose|i: int| 0 <= i < sp.len() && sp[i] == node_ids[x]@;
    let j = choose|j: int| 0 <= j < sp.len() && sp[j] == node_ids[y]@;
    assert(crate::names::spellings(node_ids)[x] != crate::names::spellings(node_ids)[y]);
    assert(i != j);
    crate::ranking::lemma_name_rank_order(ids, i, j);
}
} // verus!
