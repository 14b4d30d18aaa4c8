//! Layer assignment of a directed graph over the vertices `0..n`: the
//! strongly connected parts are ordered topologically, each part is layered
//! internally, and the parts are shifted so that edges between parts point
//! down.
use vstd::prelude::*;
use crate::digraph::{picked_least, ready_after, has_edge, key_less, edges_reach, mutual, lemma_reaches_edges, lemma_edges_reach, adj_edge, seq_has, path_step, is_path, acyclic, adj_well_formed, lemma_pigeonhole, occurrences, edges_below, adjacency_of, lemma_occurrences_contains, lemma_adjacency_edge, build_adjacency, components_ok, strongly_connected_components, item_set_ok, reverse_of, lemma_sub_sequence_count, stable_topology_order, layered_ranks_from_order, lemma_acyclic_subgraph, lemma_acyclic_increasing, edges_acyclic, lemma_adjacency_acyclic, lemma_occurrences_no_duplicates, entries_in_component};

verus! {

/// Successor and predecessor lists between components, each edge once.
fn component_graph(edges: &Vec<(usize, usize)>, comp_of: &Vec<usize>, ncomp: usize) -> (res: (
    Vec<Vec<usize>>,
    Vec<Vec<usize>>,
))
    requires
        edges_below(edges@, comp_of.len() as int),
        forall|v: int| 0 <= v < comp_of.len() ==> #[trigger] comp_of@[v] < ncomp,
    ensures
        res.0.len() == ncomp,
        res.1.len() == ncomp,
        adj_well_formed(res.0.deep_view()),
        adj_well_formed(res.1.deep_view()),
        reverse_of(res.0.deep_view(), res.1.deep_view()),
        forall|a: int, b: int|
            #[trigger] adj_edge(res.0.deep_view(), a, b) <==> (a != b && exists|k: int|
                0 <= k < edges@.len() && comp_of@[edges@[k].0 as int] == a && comp_of@[edges@[k].1 as int]
                    == b),
{
    let mut cadj: Vec<Vec<usize>> = Vec::new();
    let mut crev: Vec<Vec<usize>> = Vec::new();
    let mut i: usize = 0;
    while i < ncomp
        invariant
            i <= ncomp,
            cadj.len() == i,
            crev.len() == i,
            forall|j: int| 0 <= j < i ==> (#[trigger] cadj.deep_view()[j]).len() == 0,
            forall|j: int| 0 <= j < i ==> (#[trigger] crev.deep_view()[j]).len() == 0,
        decreases ncomp - i,
    {
        let ghost a0 = cadj.deep_view();
        let ghost r0 = crev.deep_view();
        cadj.push(Vec::new());
        crev.push(Vec::new());
        assert forall|j: int| 0 <= j <= i implies (#[trigger] cadj.deep_view()[j]).len() == 0 by {
            if j < i {
                assert(cadj.deep_view()[j] == a0[j]);
            }
        }
        assert forall|j: int| 0 <= j <= i implies (#[trigger] crev.deep_view()[j]).len() == 0 by {
            if j < i {
                assert(crev.deep_view()[j] == r0[j]);
            }
        }
        i += 1;
    }
    let mut k: usize = 0;
    while k < edges.len()
        invariant
            k <= edges.len(),
            cadj.len() == ncomp,
            crev.len() == ncomp,
            edges_below(edges@, comp_of.len() as int),
            forall|v: int| 0 <= v < comp_of.len() ==> #[trigger] comp_of@[v] < ncomp,
            forall|a: int| 0 <= a < ncomp ==> (#[trigger] cadj.deep_view()[a]).no_duplicates(),
            forall|a: int| 0 <= a < ncomp ==> (#[trigger] crev.deep_view()[a]).no_duplicates(),
            forall|a: int, t: int|
                0 <= a < ncomp && 0 <= t < cadj.deep_view()[a].len() ==> #[trigger] cadj.deep_view()[a][t]
                    < ncomp,
            forall|a: int, t: int|
                0 <= a < ncomp && 0 <= t < crev.deep_view()[a].len() ==> #[trigger] crev.deep_view()[a][t]
                    < ncomp,
            forall|a: int, b: int|
                0 <= a < ncomp && 0 <= b < ncomp ==> (#[trigger] seq_has(cadj.deep_view()[a], b)
                    <==> (a != b && exists|q: int|
                    0 <= q < k && comp_of@[edges@[q].0 as int] == a && comp_of@[edges@[q].1 as int]
                        == b)),
            forall|a: int, b: int|
                0 <= a < ncomp && 0 <= b < ncomp ==> (#[trigger] seq_has(crev.deep_view()[b], a)
                    <==> seq_has(cadj.deep_view()[a], b)),
        decreases edges.len() - k,
    {
        let (u, v) = edges[k];
        proof {
            assert(edges@[k as int].0 < comp_of.len() && edges@[k as int].1 < comp_of.len());
        }
        let cu = comp_of[u];
        let cv = comp_of[v];
        let ghost a0 = cadj.deep_view();
        let ghost r0 = crev.deep_view();
        if cu != cv {
            let mut found = false;
            let mut t: usize = 0;
            while t < cadj[cu].len()
                invariant
                    cu < cadj.len(),
                    t <= cadj@[cu as int]@.len(),
                    found <==> exists|q: int| 0 <= q < t && cadj@[cu as int]@[q] == cv,
                decreases cadj@[cu as int]@.len() - t,
            {
                if cadj[cu][t] == cv {
                    found = true;
                }
                t += 1;
            }
            proof {
                assert(cadj@[cu as int]@ == a0[cu as int]);
                assert(found <==> seq_has(a0[cu as int], cv as int));
            }
            if !found {
                cadj[cu].push(cv);
                crev[cv].push(cu);
            }
        }
        proof {
            assert forall|a: int| 0 <= a < ncomp implies (#[trigger] cadj.deep_view()[a]).no_duplicates() by {
                assert(a0[a].no_duplicates());
                if a == cu && cadj.deep_view()[a].len() > a0[a].len() {
                    assert(cadj.deep_view()[a] =~= a0[a].push(cv));
                    assert forall|x: int, y: int| 0 <= x < y < cadj.deep_view()[a].len() implies cadj.deep_view()[a][x] != cadj.deep_view()[a][y] by {
                        if y == a0[a].len() {
                            assert(!seq_has(a0[a], cv as int));
                        }
                    }
                } else {
                    assert(cadj.deep_view()[a] =~= a0[a]);
                }
            }
            assert forall|a: int| 0 <= a < ncomp implies (#[trigger] crev.deep_view()[a]).no_duplicates() by {
                assert(r0[a].no_duplicates());
                if a == cv && crev.deep_view()[a].len() > r0[a].len() {
                    assert(crev.deep_view()[a] =~= r0[a].push(cu));
                    assert forall|x: int, y: int| 0 <= x < y < crev.deep_view()[a].len() implies crev.deep_view()[a][x] != crev.deep_view()[a][y] by {
                        if y == r0[a].len() {
                            assert(!seq_has(a0[cu as int], cv as int));
                            assert(!seq_has(r0[cv as int], cu as int));
                        }
                    }
                } else {
                    assert(crev.deep_view()[a] =~= r0[a]);
                }
            }
            assert forall|a: int, t: int|
                0 <= a < ncomp && 0 <= t < cadj.deep_view()[a].len() implies #[trigger] cadj.deep_view()[a][t]
                    < ncomp by {
                if t < a0[a].len() {
                    assert(cadj.deep_view()[a][t] == a0[a][t]);
                }
            }
            assert forall|a: int, t: int|
                0 <= a < ncomp && 0 <= t < crev.deep_view()[a].len() implies #[trigger] crev.deep_view()[a][t]
                    < ncomp by {
                if t < r0[a].len() {
                    assert(crev.deep_view()[a][t] == r0[a][t]);
                }
            }
            assert forall|a: int, b: int|
                0 <= a < ncomp && 0 <= b < ncomp implies (#[trigger] seq_has(cadj.deep_view()[a], b)
                    <==> (a != b && exists|q: int|
                    0 <= q < k + 1 && comp_of@[edges@[q].0 as int] == a && comp_of@[edges@[q].1 as int]
                        == b)) by {
                if seq_has(cadj.deep_view()[a], b) {
                    let t = choose|t: int| 0 <= t < cadj.deep_view()[a].len() && cadj.deep_view()[a][t] == b;
                    if t < a0[a].len() {
                        assert(cadj.deep_view()[a][t] == a0[a][t]);
                        assert(seq_has(a0[a], b));
                        let q = choose|q: int| 0 <= q < k && comp_of@[edges@[q].0 as int] == a && comp_of@[edges@[q].1 as int] == b;
                    } else {
                        assert(a == cu && b == cv);
                    }
                }
                if a != b && exists|q: int|
                    0 <= q < k + 1 && comp_of@[edges@[q].0 as int] == a && comp_of@[edges@[q].1 as int] == b {
                    let q = choose|q: int| 0 <= q < k + 1 && comp_of@[edges@[q].0 as int] == a && comp_of@[edges@[q].1 as int] == b;
                    if q < k {
                        assert(seq_has(a0[a], b));
                        let t = choose|t: int| 0 <= t < a0[a].len() && a0[a][t] == b;
                        assert(cadj.deep_view()[a][t] == a0[a][t]);
                    } else {
                        assert(a == cu && b == cv);
                        if !seq_has(a0[a], b) {
                            assert(cadj.deep_view()[a][a0[a].len() as int] == b);
                        } else {
                            let t = choose|t: int| 0 <= t < a0[a].len() && a0[a][t] == b;
                            assert(cadj.deep_view()[a][t] == a0[a][t]);
                        }
                    }
                }
            }
            assert forall|a: int, b: int|
                0 <= a < ncomp && 0 <= b < ncomp implies (#[trigger] seq_has(crev.deep_view()[b], a)
                    <==> seq_has(cadj.deep_view()[a], b)) by {
                assert(seq_has(r0[b], a) <==> seq_has(a0[a], b));
                if seq_has(crev.deep_view()[b], a) {
                    let t = choose|t: int| 0 <= t < crev.deep_view()[b].len() && crev.deep_view()[b][t] == a;
                    if t < r0[b].len() {
                        assert(crev.deep_view()[b][t] == r0[b][t]);
                        let t2 = choose|t2: int| 0 <= t2 < a0[a].len() && a0[a][t2] == b;
                        assert(cadj.deep_view()[a][t2] == a0[a][t2]);
                    } else {
                        assert(cadj.deep_view()[a][a0[a].len() as int] == b);
                    }
                }
                if seq_has(cadj.deep_view()[a], b) {
                    let t = choose|t: int| 0 <= t < cadj.deep_view()[a].len() && cadj.deep_view()[a][t] == b;
                    if t < a0[a].len() {
                        assert(cadj.deep_view()[a][t] == a0[a][t]);
                        let t2 = choose|t2: int| 0 <= t2 < r0[b].len() && r0[b][t2] == a;
                        assert(crev.deep_view()[b][t2] == r0[b][t2]);
                    } else {
                        assert(crev.deep_view()[b][r0[b].len() as int] == a);
                    }
                }
            }
        }
        k += 1;
    }
    proof {
        assert forall|a: int, b: int|
            0 <= a < ncomp && 0 <= b < ncomp implies #[trigger] occurrences(cadj.deep_view()[a], b) == occurrences(
                crev.deep_view()[b],
                a,
            ) by {
            lemma_occurrences_no_duplicates(cadj.deep_view()[a], b);
            lemma_occurrences_no_duplicates(crev.deep_view()[b], a);
        }
        assert forall|a: int, b: int|
            #[trigger] adj_edge(cadj.deep_view(), a, b) <==> (a != b && exists|k: int|
                0 <= k < edges@.len() && comp_of@[edges@[k].0 as int] == a && comp_of@[edges@[k].1 as int]
                    == b) by {
            if a != b && exists|k: int|
                0 <= k < edges@.len() && comp_of@[edges@[k].0 as int] == a && comp_of@[edges@[k].1 as int] == b {
                let k = choose|k: int| 0 <= k < edges@.len() && comp_of@[edges@[k].0 as int] == a && comp_of@[edges@[k].1 as int] == b;
                assert(edges@[k].0 < comp_of.len() && edges@[k].1 < comp_of.len());
                assert(0 <= a < ncomp && 0 <= b < ncomp);
            }
            if adj_edge(cadj.deep_view(), a, b) {
                let t = choose|t: int| 0 <= t < cadj.deep_view()[a].len() && cadj.deep_view()[a][t] == b;
                assert(b < ncomp);
            }
        }
    }
    (cadj, crev)
}


/// The edges that stay inside one component.
fn internal_adjacency(adj: &Vec<Vec<usize>>, rev: &Vec<Vec<usize>>, comp_of: &Vec<usize>) -> (res: (
    Vec<Vec<usize>>,
    Vec<Vec<usize>>,
))
    requires
        adj.len() == comp_of.len(),
        adj_well_formed(adj.deep_view()),
        adj_well_formed(rev.deep_view()),
        reverse_of(adj.deep_view(), rev.deep_view()),
    ensures
        res.0.len() == adj.len(),
        res.1.len() == adj.len(),
        adj_well_formed(res.0.deep_view()),
        adj_well_formed(res.1.deep_view()),
        reverse_of(res.0.deep_view(), res.1.deep_view()),
        forall|a: int, b: int|
            0 <= a < adj.len() && 0 <= b < adj.len() ==> (#[trigger] adj_edge(res.0.deep_view(), a, b)
                <==> adj_edge(adj.deep_view(), a, b) && comp_of@[a] == comp_of@[b]),
{
    let n = adj.len();
    let ghost adjv = adj.deep_view();
    let ghost revv = rev.deep_view();
    let mut iadj: Vec<Vec<usize>> = Vec::new();
    let mut irev: Vec<Vec<usize>> = Vec::new();
    let mut u: usize = 0;
    while u < n
        invariant
            u <= n,
            n == adj.len(),
            n == rev.len(),
            n == comp_of.len(),
            adjv == adj.deep_view(),
            revv == rev.deep_view(),
            adj_well_formed(adjv),
            adj_well_formed(revv),
            iadj.len() == u,
            irev.len() == u,
            forall|a: int, x: int|
                0 <= a < u && 0 <= x < n ==> #[trigger] occurrences(iadj.deep_view()[a], x) == (if comp_of@[x]
                    == comp_of@[a] {
                    occurrences(adjv[a], x)
                } else {
                    0
                }),
            forall|a: int, x: int|
                0 <= a < u && 0 <= x < n ==> #[trigger] occurrences(irev.deep_view()[a], x) == (if comp_of@[x]
                    == comp_of@[a] {
                    occurrences(revv[a], x)
                } else {
                    0
                }),
            forall|a: int, t: int|
                0 <= a < u && 0 <= t < iadj.deep_view()[a].len() ==> #[trigger] iadj.deep_view()[a][t] < n,
            forall|a: int, t: int|
                0 <= a < u && 0 <= t < irev.deep_view()[a].len() ==> #[trigger] irev.deep_view()[a][t] < n,
        decreases n - u,
    {
        proof {
            assert forall|k: int| 0 <= k < adj@[u as int]@.len() implies #[trigger] adj@[u as int]@[k] < comp_of.len() by {
                assert(adjv[u as int][k] == adj@[u as int]@[k]);
            }
            assert forall|k: int| 0 <= k < rev@[u as int]@.len() implies #[trigger] rev@[u as int]@[k] < comp_of.len() by {
                assert(revv[u as int][k] == rev@[u as int]@[k]);
            }
        }
        let a_list = entries_in_component(&adj[u], comp_of, comp_of[u]);
        let r_list = entries_in_component(&rev[u], comp_of, comp_of[u]);
        let ghost ia0 = iadj.deep_view();
        let ghost ir0 = irev.deep_view();
        iadj.push(a_list);
        irev.push(r_list);
        proof {
            assert forall|a: int| 0 <= a < u implies #[trigger] iadj.deep_view()[a] == ia0[a] by {
            }
            assert forall|a: int| 0 <= a < u implies #[trigger] irev.deep_view()[a] == ir0[a] by {
            }
            assert(iadj.deep_view()[u as int] == a_list@);
            assert(irev.deep_view()[u as int] == r_list@);
            assert(adjv[u as int] == adj@[u as int]@);
            assert(revv[u as int] == rev@[u as int]@);
        }
        u += 1;
    }
    proof {
        assert forall|a: int, b: int| 0 <= a < n && 0 <= b < n implies #[trigger] occurrences(iadj.deep_view()[a], b)
            == occurrences(irev.deep_view()[b], a) by {
            assert(occurrences(adjv[a], b) == occurrences(revv[b], a));
        }
        assert forall|a: int, b: int|
            0 <= a < n && 0 <= b < n implies (#[trigger] adj_edge(iadj.deep_view(), a, b)
                <==> adj_edge(adjv, a, b) && comp_of@[a] == comp_of@[b]) by {
            lemma_occurrences_contains(iadj.deep_view()[a], b);
            lemma_occurrences_contains(adjv[a], b);
        }
    }
    (iadj, irev)
}

/// A repeat-free list of vertices below `n` has at most `n` entries.
proof fn lemma_distinct_below_len(s: Seq<usize>, n: int)
    requires
        0 <= n,
        s.no_duplicates(),
        forall|k: int| 0 <= k < s.len() ==> #[trigger] s[k] < n,
    ensures
        s.len() <= n,
{
    if s.len() > n {
        let w = Seq::new(s.len(), |i: int| s[i] as int);
        lemma_pigeonhole(w, n);
        let (i, j) = choose|i: int, j: int| 0 <= i < j < w.len() && w[i] == w[j];
        assert(s[i] == s[j]);
    }
}

/// Component `x` starts at layer 0, or as low as an edge into it from a
/// component among the first `lim` in order allows.
pub open spec fn start_justified(
    adj: Seq<Seq<usize>>,
    comp_of: Seq<usize>,
    local: Seq<usize>,
    start: Seq<u128>,
    cpos: Seq<usize>,
    n: int,
    x: int,
    lim: int,
) -> bool {
    start[x] == 0 || exists|u: int, v: int|
        0 <= u < n && 0 <= v < n && #[trigger] adj_edge(adj, u, v) && comp_of[v] == x && comp_of[u] != x
            && cpos[comp_of[u] as int] < lim && start[x] + local[v] == start[comp_of[u] as int] + local[u] + 1
}

/// Some vertex of component `x` has layer 0 inside it.
pub open spec fn comp_has_zero(comp_of: Seq<usize>, local: Seq<usize>, n: int, x: int) -> bool {
    exists|w: int| 0 <= w < n && #[trigger] comp_of[w] == x && local[w] == 0
}

/// Each vertex's layer inside its component is 0 or one more than that of
/// an internal predecessor, and each component has a vertex at layer 0.
#[verifier::opaque]
pub open spec fn local_tight(iadj: Seq<Seq<usize>>, comp_of: Seq<usize>, local: Seq<usize>) -> bool {
    &&& forall|v: int|
        0 <= v < iadj.len() ==> #[trigger] local[v] == 0 || exists|u: int|
            #[trigger] adj_edge(iadj, u, v) && local[v] == local[u] + 1
    &&& forall|v: int| 0 <= v < iadj.len() ==> comp_has_zero(comp_of, local, iadj.len() as int, #[trigger] comp_of[v] as int)
}

/// `o` lists the vertices `members` once each, in the order in which the
/// topological ordering by `(key, tie)` along the edges `iadj` places them,
/// and `local` layers them along `o`: each is at 0 or exactly one below an
/// earlier vertex with an edge into it, and each edge forward in `o` goes
/// down at least one layer.
#[verifier::opaque]
pub open spec fn local_order_ok(
    iadj: Seq<Seq<usize>>,
    members: Seq<usize>,
    key: Seq<usize>,
    tie: Seq<usize>,
    local: Seq<usize>,
    o: Seq<usize>,
) -> bool {
    &&& o.no_duplicates()
    &&& forall|k: int| 0 <= k < o.len() ==> seq_has(members, #[trigger] o[k] as int)
    &&& forall|k: int| 0 <= k < members.len() ==> seq_has(o, #[trigger] members[k] as int)
    &&& forall|t: int| 0 <= t < o.len() ==> #[trigger] picked_least(members, iadj, key, tie, o.take(t), o[t] as int)
    &&& forall|q: int|
        0 <= q < o.len() ==> #[trigger] local[o[q] as int] == 0 || exists|a: int|
            0 <= a < q && #[trigger] adj_edge(iadj, o[a] as int, o[q] as int) && local[o[q] as int] == local[o[a] as int] + 1
    &&& forall|a: int, b: int|
        0 <= a < b < o.len() && #[trigger] adj_edge(iadj, o[a] as int, o[b] as int) ==> local[o[b] as int] >= local[o[a] as int]
            + 1
}

/// Layers of vertices outside `o` do not matter to it.
proof fn lemma_local_order_frame(
    iadj: Seq<Seq<usize>>,
    members: Seq<usize>,
    key: Seq<usize>,
    tie: Seq<usize>,
    l0: Seq<usize>,
    l1: Seq<usize>,
    o: Seq<usize>,
)
    requires
        local_order_ok(iadj, members, key, tie, l0, o),
        forall|k: int| 0 <= k < o.len() ==> l1[#[trigger] o[k] as int] == l0[o[k] as int],
    ensures
        local_order_ok(iadj, members, key, tie, l1, o),
{
    reveal(local_order_ok);
    assert forall|q: int|
        0 <= q < o.len() implies #[trigger] l1[o[q] as int] == 0 || exists|a: int|
            0 <= a < q && #[trigger] adj_edge(iadj, o[a] as int, o[q] as int) && l1[o[q] as int] == l1[o[a] as int] + 1 by {
        assert(l1[o[q] as int] == l0[o[q] as int]);
        if l0[o[q] as int] != 0 {
            let a = choose|a: int|
                0 <= a < q && #[trigger] adj_edge(iadj, o[a] as int, o[q] as int) && l0[o[q] as int] == l0[o[a] as int] + 1;
            assert(l1[o[a] as int] == l0[o[a] as int]);
            assert(adj_edge(iadj, o[a] as int, o[q] as int));
        }
    }
    assert forall|a: int, b: int|
        0 <= a < b < o.len() && #[trigger] adj_edge(iadj, o[a] as int, o[b] as int) implies l1[o[b] as int] >= l1[o[a] as int]
            + 1 by {
        assert(l1[o[a] as int] == l0[o[a] as int]);
        assert(l1[o[b] as int] == l0[o[b] as int]);
    }
}

/// Component `c` has an order that its layers follow.
pub open spec fn comp_ordered(
    iadj: Seq<Seq<usize>>,
    comps: Seq<Seq<usize>>,
    key: Seq<usize>,
    tie: Seq<usize>,
    local: Seq<usize>,
    c: int,
) -> bool {
    exists|o: Seq<usize>| #[trigger] local_order_ok(iadj, comps[c], key, tie, local, o)
}

/// Layers inside each component: the component's vertices are ordered
/// topologically by `(key, tie)` along the internal edges, then layered
/// along that order.
fn local_ranks(
    comps: &Vec<Vec<usize>>,
    comp_of: &Vec<usize>,
    iadj: &Vec<Vec<usize>>,
    irev: &Vec<Vec<usize>>,
    key: &Vec<usize>,
    tie: &Vec<usize>,
) -> (local: Vec<usize>)
    requires
        components_ok(comps.deep_view(), comp_of@, iadj.len() as int),
        iadj.len() == irev.len(),
        key.len() == iadj.len(),
        tie.len() == iadj.len(),
        adj_well_formed(iadj.deep_view()),
        adj_well_formed(irev.deep_view()),
        reverse_of(iadj.deep_view(), irev.deep_view()),
        forall|a: int, b: int| #[trigger] adj_edge(iadj.deep_view(), a, b) ==> comp_of@[a] == comp_of@[b],
    ensures
        local.len() == iadj.len(),
        forall|v: int| 0 <= v < iadj.len() ==> #[trigger] local@[v] < iadj.len(),
        forall|v: int|
            0 <= v < iadj.len() ==> #[trigger] local@[v] < comps.deep_view()[comp_of@[v] as int].len(),
        acyclic(iadj.deep_view()) ==> forall|a: int, b: int|
            #[trigger] adj_edge(iadj.deep_view(), a, b) ==> local@[b] >= local@[a] + 1,
        local_tight(iadj.deep_view(), comp_of@, local@),
        forall|c: int| 0 <= c < comps.len() ==> #[trigger] comp_ordered(iadj.deep_view(), comps.deep_view(), key@, tie@, local@, c),
{
    let n = iadj.len();
    let ghost iadjv = iadj.deep_view();
    let ghost irevv = irev.deep_view();
    let ghost compsv = comps.deep_view();
    let mut local: Vec<usize> = Vec::new();
    let mut i: usize = 0;
    while i < n
        invariant
            i <= n,
            local.len() == i,
            forall|v: int| 0 <= v < i ==> #[trigger] local@[v] == 0,
        decreases n - i,
    {
        local.push(0);
        i += 1;
    }
    let mut c: usize = 0;
    while c < comps.len()
        invariant
            c <= comps.len(),
            n == iadj.len(),
            n == irev.len(),
            key.len() == n,
            tie.len() == n,
            iadjv == iadj.deep_view(),
            irevv == irev.deep_view(),
            compsv == comps.deep_view(),
            components_ok(compsv, comp_of@, n as int),
            adj_well_formed(iadjv),
            adj_well_formed(irevv),
            reverse_of(iadjv, irevv),
            forall|a: int, b: int| #[trigger] adj_edge(iadjv, a, b) ==> comp_of@[a] == comp_of@[b],
            local.len() == n,
            forall|v: int| 0 <= v < n && comp_of@[v] >= c ==> #[trigger] local@[v] == 0,
            forall|v: int| 0 <= v < n ==> #[trigger] local@[v] < n,
            forall|v: int| 0 <= v < n ==> #[trigger] local@[v] < compsv[comp_of@[v] as int].len(),
            acyclic(iadjv) ==> forall|a: int, b: int|
                #[trigger] adj_edge(iadjv, a, b) && comp_of@[a] < c ==> local@[b] >= local@[a] + 1,
            forall|v: int|
                0 <= v < n && comp_of@[v] < c ==> #[trigger] local@[v] == 0 || exists|u: int|
                    #[trigger] adj_edge(iadjv, u, v) && local@[v] == local@[u] + 1,
            forall|x: int| 0 <= x < c ==> #[trigger] comp_has_zero(comp_of@, local@, n as int, x),
            forall|x: int| 0 <= x < c ==> #[trigger] comp_ordered(iadjv, compsv, key@, tie@, local@, x),
        decreases comps.len() - c,
    {
        proof {
            assert(comps@[c as int]@ == compsv[c as int]);
            assert forall|x: int, k: int|
                seq_has(compsv[c as int], x) && 0 <= k < iadjv[x].len() implies seq_has(
                compsv[c as int],
                #[trigger] iadjv[x][k] as int,
            ) by {
                let t = choose|t: int| 0 <= t < compsv[c as int].len() && compsv[c as int][t] == x;
                let y = iadjv[x][k] as int;
                assert(adj_edge(iadjv, x, y));
                assert(comp_of@[compsv[c as int][t] as int] == c);
            }
            assert forall|x: int, k: int|
                seq_has(compsv[c as int], x) && 0 <= k < irevv[x].len() implies seq_has(
                compsv[c as int],
                #[trigger] irevv[x][k] as int,
            ) by {
                let t = choose|t: int| 0 <= t < compsv[c as int].len() && compsv[c as int][t] == x;
                let p = irevv[x][k] as int;
                assert(x < n);
                assert(p < n);
                lemma_occurrences_contains(irevv[x], p);
                assert(occurrences(iadjv[p], x) == occurrences(irevv[x], p));
                lemma_occurrences_contains(iadjv[p], x);
                assert(adj_edge(iadjv, p, x));
                assert(comp_of@[compsv[c as int][t] as int] == c);
            }
            assert(item_set_ok(comps@[c as int]@, iadjv, irevv));
        }
        let order = stable_topology_order(&comps[c], iadj, irev, key, tie);
        let ghost l0 = local@;
        proof {
            assert forall|k: int| 0 <= k < order@.len() implies #[trigger] order@[k] < iadjv.len() by {
                let t = choose|t: int| 0 <= t < compsv[c as int].len() && compsv[c as int][t] == order@[k];
            }
            assert forall|i: int, t: int|
                0 <= i < order@.len() && 0 <= t < iadjv[order@[i] as int].len() implies seq_has(
                order@,
                #[trigger] iadjv[order@[i] as int][t] as int,
            ) by {
                let x = order@[i] as int;
                let tt = choose|tt: int| 0 <= tt < compsv[c as int].len() && compsv[c as int][tt] == x;
                let y = iadjv[x][t] as int;
                assert(adj_edge(iadjv, x, y));
                assert(comp_of@[compsv[c as int][tt] as int] == c);
                assert(seq_has(compsv[c as int], y));
                let ty = choose|ty: int| 0 <= ty < compsv[c as int].len() && compsv[c as int][ty] == y;
                assert(seq_has(order@, compsv[c as int][ty] as int));
            }
            assert forall|k: int| 0 <= k < order@.len() implies local@[#[trigger] order@[k] as int] == 0 by {
                let t = choose|t: int| 0 <= t < compsv[c as int].len() && compsv[c as int][t] == order@[k];
                assert(comp_of@[compsv[c as int][t] as int] == c);
            }
            lemma_distinct_below_len(order@, n as int);
        }
        layered_ranks_from_order(&order, iadj, &mut local);
        proof {
            assert(comps@[c as int]@ == compsv[c as int]);
            assert(local_order_ok(iadjv, compsv[c as int], key@, tie@, local@, order@)) by {
                reveal(local_order_ok);
            }
            assert(comp_ordered(iadjv, compsv, key@, tie@, local@, c as int));
            assert forall|x: int| 0 <= x < c + 1 implies #[trigger] comp_ordered(iadjv, compsv, key@, tie@, local@, x) by {
                if x < c {
                    assert(comp_ordered(iadjv, compsv, key@, tie@, l0, x));
                    let o = choose|o: Seq<usize>| #[trigger] local_order_ok(iadjv, compsv[x], key@, tie@, l0, o);
                    assert forall|k: int| 0 <= k < o.len() implies local@[#[trigger] o[k] as int] == l0[o[k] as int] by {
                        reveal(local_order_ok);
                        assert(seq_has(compsv[x], o[k] as int));
                        let t = choose|t: int| 0 <= t < compsv[x].len() && compsv[x][t] == o[k];
                        assert(comp_of@[compsv[x][t] as int] == x);
                        if seq_has(order@, o[k] as int) {
                            let k2 = choose|k2: int| 0 <= k2 < order@.len() && order@[k2] == o[k];
                            let t2 = choose|t2: int| 0 <= t2 < compsv[c as int].len() && compsv[c as int][t2] == order@[k2];
                            assert(comp_of@[compsv[c as int][t2] as int] == c);
                        }
                    }
                    lemma_local_order_frame(iadjv, compsv[x], key@, tie@, l0, local@, o);
                }
            }
            assert forall|v: int|
                0 <= v < n && comp_of@[v] < c + 1 implies #[trigger] local@[v] == 0 || exists|u: int|
                    #[trigger] adj_edge(iadjv, u, v) && local@[v] == local@[u] + 1 by {
                if seq_has(order@, v) {
                    let k = choose|k: int| 0 <= k < order@.len() && order@[k] == v;
                    if local@[order@[k] as int] != 0 {
                        let a = choose|a: int|
                            0 <= a < k && #[trigger] adj_edge(iadjv, order@[a] as int, order@[k] as int)
                                && local@[order@[k] as int] == local@[order@[a] as int] + 1;
                        assert(adj_edge(iadjv, order@[a] as int, v));
                    }
                } else {
                    assert(comp_of@[v] < c) by {
                        if comp_of@[v] == c {
                            assert(seq_has(compsv[c as int], v));
                            let t = choose|t: int| 0 <= t < compsv[c as int].len() && compsv[c as int][t] == v;
                            assert(seq_has(order@, compsv[c as int][t] as int));
                        }
                    }
                    assert(local@[v] == l0[v]);
                    if l0[v] != 0 {
                        let u = choose|u: int| #[trigger] adj_edge(iadjv, u, v) && l0[v] == l0[u] + 1;
                        assert(comp_of@[u] == comp_of@[v]);
                        assert(0 <= u < n);
                        if seq_has(order@, u) {
                            let k = choose|k: int| 0 <= k < order@.len() && order@[k] == u;
                            let t = choose|t: int| 0 <= t < compsv[c as int].len() && compsv[c as int][t] == order@[k];
                            assert(comp_of@[compsv[c as int][t] as int] == c);
                        }
                        assert(local@[u] == l0[u]);
                        assert(adj_edge(iadjv, u, v));
                    }
                }
            }
            assert(compsv[c as int].len() > 0);
            assert(order@.len() > 0);
            let w0 = order@[0] as int;
            assert(local@[order@[0] as int] == 0);
            assert(comp_of@[w0] == c) by {
                let t = choose|t: int| 0 <= t < compsv[c as int].len() && compsv[c as int][t] == order@[0];
            }
            assert forall|x: int| 0 <= x < c + 1 implies #[trigger] comp_has_zero(comp_of@, local@, n as int, x) by {
                if x < c {
                    assert(comp_has_zero(comp_of@, l0, n as int, x));
                    let w = choose|w: int| 0 <= w < n && #[trigger] comp_of@[w] == x && l0[w] == 0;
                    if seq_has(order@, w) {
                        let k = choose|k: int| 0 <= k < order@.len() && order@[k] == w;
                        let t = choose|t: int| 0 <= t < compsv[c as int].len() && compsv[c as int][t] == order@[k];
                        assert(comp_of@[compsv[c as int][t] as int] == c);
                    }
                    assert(local@[w] == 0);
                } else {
                    assert(comp_of@[w0] == x && local@[w0] == 0 && 0 <= w0 < n);
                }
            }
        }
        proof {
            assert forall|v: int| 0 <= v < n && comp_of@[v] >= c + 1 implies #[trigger] local@[v] == 0 by {
                if seq_has(order@, v) {
                    let k = choose|k: int| 0 <= k < order@.len() && order@[k] == v;
                    let t = choose|t: int| 0 <= t < compsv[c as int].len() && compsv[c as int][t] == order@[k];
                    assert(comp_of@[compsv[c as int][t] as int] == c);
                }
            }
            assert forall|v: int| 0 <= v < n implies #[trigger] local@[v] < n by {
                if seq_has(order@, v) {
                    let k = choose|k: int| 0 <= k < order@.len() && order@[k] == v;
                    assert(local@[order@[k] as int] <= k);
                }
            }
            assert forall|v: int| 0 <= v < n implies #[trigger] local@[v] < compsv[comp_of@[v] as int].len() by {
                if seq_has(order@, v) {
                    let k = choose|k: int| 0 <= k < order@.len() && order@[k] == v;
                    assert(local@[order@[k] as int] <= k);
                    let t = choose|t: int| 0 <= t < compsv[c as int].len() && compsv[c as int][t] == order@[k];
                    assert(comp_of@[compsv[c as int][t] as int] == c);
                    assert(order@.len() == compsv[c as int].len());
                } else {
                    assert(comp_of@[v] < compsv.len());
                }
            }
            if acyclic(iadjv) {
                assert forall|a: int, b: int|
                    #[trigger] adj_edge(iadjv, a, b) && comp_of@[a] < c + 1 implies local@[b] >= local@[a] + 1 by {
                    assert(0 <= a < n);
                    assert(comp_of@[a] == comp_of@[b]);
                    if comp_of@[a] < c {
                        assert(l0[b] >= l0[a] + 1);
                        if seq_has(order@, a) {
                            let k = choose|k: int| 0 <= k < order@.len() && order@[k] == a;
                            let t = choose|t: int| 0 <= t < compsv[c as int].len() && compsv[c as int][t] == order@[k];
                            assert(comp_of@[compsv[c as int][t] as int] == c);
                        }
                        if seq_has(order@, b) {
                            let k = choose|k: int| 0 <= k < order@.len() && order@[k] == b;
                            let t = choose|t: int| 0 <= t < compsv[c as int].len() && compsv[c as int][t] == order@[k];
                            assert(comp_of@[compsv[c as int][t] as int] == c);
                        }
                    } else {
                        assert(seq_has(compsv[c as int], a));
                        assert(seq_has(compsv[c as int], b)) by {
                            assert(0 <= b < n);
                        }
                        let ta = choose|ta: int| 0 <= ta < compsv[c as int].len() && compsv[c as int][ta] == a;
                        let tb = choose|tb: int| 0 <= tb < compsv[c as int].len() && compsv[c as int][tb] == b;
                        assert(seq_has(order@, compsv[c as int][ta] as int));
                        assert(seq_has(order@, compsv[c as int][tb] as int));
                        let i1 = choose|i1: int| 0 <= i1 < order@.len() && order@[i1] == a;
                        let i2 = choose|i2: int| 0 <= i2 < order@.len() && order@[i2] == b;
                        lemma_acyclic_no_self_loop(iadjv, a);
                        assert(adj_edge(iadjv, order@[i1] as int, order@[i2] as int));
                        assert(i1 < i2);
                    }
                }
            }
        }
        c += 1;
    }
    proof {
        assert forall|v: int|
            0 <= v < n implies #[trigger] local@[v] == 0 || exists|u: int|
                #[trigger] adj_edge(iadjv, u, v) && local@[v] == local@[u] + 1 by {
            assert(comp_of@[v] < compsv.len());
        }
        assert forall|v: int| 0 <= v < n implies comp_has_zero(comp_of@, local@, n as int, #[trigger] comp_of@[v] as int) by {
            assert(comp_of@[v] < compsv.len());
        }
        assert(iadjv.len() == n);
        assert(local_tight(iadjv, comp_of@, local@)) by {
            reveal(local_tight);
            assert(forall|v: int|
                0 <= v < iadjv.len() ==> #[trigger] local@[v] == 0 || exists|u: int|
                    #[trigger] adj_edge(iadjv, u, v) && local@[v] == local@[u] + 1);
        }
        assert(iadjv == iadj.deep_view());
    }
    local
}

/// Number of vertices in the components at the first `p` places of `order`.
pub open spec fn placed_size(comps: Seq<Seq<usize>>, order: Seq<usize>, p: int) -> nat
    decreases p,
{
    if p <= 0 {
        0
    } else {
        placed_size(comps, order, p - 1) + comps[order[p - 1] as int].len()
    }
}

/// The vertices of the components at the first `p` places of `order`.
pub open spec fn placed(comps: Seq<Seq<usize>>, order: Seq<usize>, p: int) -> Seq<usize>
    decreases p,
{
    if p <= 0 {
        Seq::empty()
    } else {
        placed(comps, order, p - 1) + comps[order[p - 1] as int]
    }
}

proof fn lemma_placed_size_mono(comps: Seq<Seq<usize>>, order: Seq<usize>, p: int, q: int)
    requires
        0 <= p <= q,
    ensures
        placed_size(comps, order, p) <= placed_size(comps, order, q),
    decreases q - p,
{
    if p < q {
        lemma_placed_size_mono(comps, order, p, q - 1);
    }
}

/// The components placed so far hold distinct vertices, as many as their
/// sizes add up to.
proof fn lemma_placed(comps: Seq<Seq<usize>>, comp_of: Seq<usize>, order: Seq<usize>, n: int, p: int)
    requires
        components_ok(comps, comp_of, n),
        order.no_duplicates(),
        forall|t: int| 0 <= t < order.len() ==> #[trigger] order[t] < comps.len(),
        0 <= p <= order.len(),
    ensures
        placed(comps, order, p).len() == placed_size(comps, order, p),
        placed(comps, order, p).no_duplicates(),
        forall|k: int| 0 <= k < placed(comps, order, p).len() ==> #[trigger] placed(comps, order, p)[k] < n,
        forall|k: int|
            0 <= k < placed(comps, order, p).len() ==> exists|t: int|
                0 <= t < p && comp_of[#[trigger] placed(comps, order, p)[k] as int] == order[t],
    decreases p,
{
    if p > 0 {
        lemma_placed(comps, comp_of, order, n, p - 1);
        let a = placed(comps, order, p - 1);
        let c = order[p - 1] as int;
        let b = comps[c];
        let all = placed(comps, order, p);
        assert(all == a + b);
        assert forall|k: int| 0 <= k < all.len() implies #[trigger] all[k] < n by {
            if k >= a.len() {
                assert(all[k] == b[k - a.len()]);
            }
        }
        assert forall|k: int| 0 <= k < all.len() implies exists|t: int|
            0 <= t < p && comp_of[#[trigger] all[k] as int] == order[t] by {
            if k < a.len() {
                assert(all[k] == a[k]);
                let t = choose|t: int| 0 <= t < p - 1 && comp_of[a[k] as int] == order[t];
            } else {
                assert(all[k] == b[k - a.len()]);
                assert(comp_of[b[k - a.len()] as int] == c);
            }
        }
        assert forall|i: int, j: int| 0 <= i < j < all.len() implies all[i] != all[j] by {
            if j < a.len() {
                assert(all[i] == a[i] && all[j] == a[j]);
            } else if i >= a.len() {
                assert(all[i] == b[i - a.len()] && all[j] == b[j - a.len()]);
            } else {
                assert(all[i] == a[i]);
                assert(all[j] == b[j - a.len()]);
                assert(comp_of[b[j - a.len()] as int] == c);
                let t = choose|t: int| 0 <= t < p - 1 && comp_of[a[i] as int] == order[t];
                assert(order[t] != order[p - 1]);
            }
        }
    }
}

/// A graph without cycles has no edge from a vertex to itself.
proof fn lemma_acyclic_no_self_loop(adj: Seq<Seq<usize>>, a: int)
    requires
        acyclic(adj),
    ensures
        !adj_edge(adj, a, a),
{
    if adj_edge(adj, a, a) {
        let p = seq![a, a];
        assert(path_step(adj, p, 0));
        assert(is_path(adj, p));
    }
}


/// Least `key` among the vertices of `members`.
fn least_key(members: &Vec<usize>, key: &Vec<usize>) -> (res: usize)
    requires
        forall|k: int| 0 <= k < members@.len() ==> #[trigger] members@[k] < key.len(),
    ensures
        forall|k: int| 0 <= k < members@.len() ==> res <= key@[#[trigger] members@[k] as int],
        members@.len() == 0 ==> res == usize::MAX,
        members@.len() > 0 ==> exists|k: int| 0 <= k < members@.len() && res == key@[#[trigger] members@[k] as int],
{
    let mut best = usize::MAX;
    let mut k: usize = 0;
    while k < members.len()
        invariant
            k <= members@.len(),
            forall|t: int| 0 <= t < members@.len() ==> #[trigger] members@[t] < key.len(),
            forall|t: int| 0 <= t < k ==> best <= key@[#[trigger] members@[t] as int],
            k == 0 ==> best == usize::MAX,
            k > 0 ==> exists|t: int| 0 <= t < k && best == key@[#[trigger] members@[t] as int],
        decreases members@.len() - k,
    {
        let v = members[k];
        if key[v] < best {
            best = key[v];
        }
        k += 1;
    }
    best
}

/// `a` and `b` reach each other along `edges`: the same vertex, or two
/// vertices on one cycle.
pub open spec fn same_group(edges: Seq<(usize, usize)>, a: int, b: int) -> bool {
    edges_reach(edges, a, b) && edges_reach(edges, b, a)
}

/// `v` has the least layer of its group.
pub open spec fn least_in_group(edges: Seq<(usize, usize)>, ranks: Seq<usize>, n: int, v: int) -> bool {
    forall|w: int| 0 <= w < n && #[trigger] same_group(edges, v, w) ==> ranks[v] <= ranks[w]
}

/// The layer of `v` is as low as the edges allow: unless it is the least of
/// its group, an edge inside the group puts it exactly one below its
/// source; the least of a group is at layer 0, or an edge from outside into
/// the group puts its target exactly one below its source.
pub open spec fn layer_tight(edges: Seq<(usize, usize)>, ranks: Seq<usize>, n: int, v: int) -> bool {
    &&& least_in_group(edges, ranks, n, v) || exists|k: int|
        0 <= k < edges.len() && (#[trigger] edges[k]).1 == v && same_group(edges, edges[k].0 as int, v)
            && ranks[v] == ranks[edges[k].0 as int] + 1
    &&& least_in_group(edges, ranks, n, v) ==> ranks[v] == 0 || exists|k: int|
        0 <= k < edges.len() && same_group(edges, (#[trigger] edges[k]).1 as int, v) && !same_group(
            edges,
            edges[k].0 as int,
            edges[k].1 as int,
        ) && ranks[edges[k].1 as int] == ranks[edges[k].0 as int] + 1
}

proof fn lemma_same_group_comp(
    edges: Seq<(usize, usize)>,
    n: int,
    adjv: Seq<Seq<usize>>,
    revv: Seq<Seq<usize>>,
    comp_of: Seq<usize>,
    a: int,
    b: int,
)
    requires
        adjacency_of(adjv, revv, edges, n),
        adj_well_formed(adjv),
        adjv.len() == n,
        edges_below(edges, n),
        0 <= a < n,
        0 <= b < n,
        forall|x: int, y: int| 0 <= x < n && 0 <= y < n && #[trigger] comp_of[x] == #[trigger] comp_of[y] ==> mutual(adjv, x, y),
        forall|x: int, y: int| 0 <= x < n && 0 <= y < n && #[trigger] mutual(adjv, x, y) ==> comp_of[x] == comp_of[y],
    ensures
        same_group(edges, a, b) <==> comp_of[a] == comp_of[b],
{
    if comp_of[a] == comp_of[b] {
        assert(mutual(adjv, a, b));
        lemma_reaches_edges(adjv, revv, edges, n, a, b);
        lemma_reaches_edges(adjv, revv, edges, n, b, a);
    }
    if same_group(edges, a, b) {
        lemma_edges_reach(adjv, revv, edges, n, a, b);
        lemma_edges_reach(adjv, revv, edges, n, b, a);
        assert(mutual(adjv, a, b));
    }
}

proof fn lemma_layers_tight(
    edges: Seq<(usize, usize)>,
    n: int,
    adjv: Seq<Seq<usize>>,
    revv: Seq<Seq<usize>>,
    iadjv: Seq<Seq<usize>>,
    comp_of: Seq<usize>,
    local: Seq<usize>,
    start: Seq<u128>,
    cpos: Seq<usize>,
    ranks: Seq<usize>,
    ncomp: int,
    v: int,
)
    requires
        adjacency_of(adjv, revv, edges, n),
        adj_well_formed(adjv),
        adjv.len() == n,
        iadjv.len() == n,
        edges_below(edges, n),
        comp_of.len() == n,
        forall|w: int| 0 <= w < n ==> #[trigger] comp_of[w] < ncomp,
        forall|x: int, y: int| 0 <= x < n && 0 <= y < n && #[trigger] comp_of[x] == #[trigger] comp_of[y] ==> mutual(adjv, x, y),
        forall|x: int, y: int| 0 <= x < n && 0 <= y < n && #[trigger] mutual(adjv, x, y) ==> comp_of[x] == comp_of[y],
        local_tight(iadjv, comp_of, local),
        forall|a: int, b: int|
            0 <= a < n && 0 <= b < n ==> (#[trigger] adj_edge(iadjv, a, b) <==> adj_edge(adjv, a, b) && comp_of[a] == comp_of[b]),
        forall|x: int| 0 <= x < ncomp ==> #[trigger] start_justified(adjv, comp_of, local, start, cpos, n, x, ncomp),
        forall|w: int| 0 <= w < n ==> #[trigger] ranks[w] == start[comp_of[w] as int] + local[w],
        0 <= v < n,
    ensures
        layer_tight(edges, ranks, n, v),
{
    reveal(local_tight);
    let c = comp_of[v] as int;
    assert(comp_has_zero(comp_of, local, n, c));
    let w0 = choose|w: int| 0 <= w < n && #[trigger] comp_of[w] == c && local[w] == 0;
    lemma_same_group_comp(edges, n, adjv, revv, comp_of, v, w0);
    assert(ranks[w0] == start[c]);
    if local[v] == 0 {
        assert forall|w: int| 0 <= w < n && #[trigger] same_group(edges, v, w) implies ranks[v] <= ranks[w] by {
            lemma_same_group_comp(edges, n, adjv, revv, comp_of, v, w);
        }
        assert(least_in_group(edges, ranks, n, v));
    } else {
        let u = choose|u: int| #[trigger] adj_edge(iadjv, u, v) && local[v] == local[u] + 1;
        assert(0 <= u < n);
        assert(adj_edge(adjv, u, v) && comp_of[u] == comp_of[v]);
        lemma_adjacency_edge(adjv, revv, edges, n, u, v);
        let k = choose|k: int| 0 <= k < edges.len() && edges[k].0 == u && edges[k].1 == v;
        lemma_same_group_comp(edges, n, adjv, revv, comp_of, u, v);
        assert(ranks[v] == ranks[u] + 1);
        assert(edges[k].1 == v && same_group(edges, edges[k].0 as int, v));
    }
    if least_in_group(edges, ranks, n, v) {
        assert(same_group(edges, v, w0));
        assert(ranks[v] <= ranks[w0]);
        assert(ranks[v] == start[c]);
        assert(start_justified(adjv, comp_of, local, start, cpos, n, c, ncomp));
        if start[c] != 0 {
            let (u, w) = choose|u: int, w: int|
                0 <= u < n && 0 <= w < n && #[trigger] adj_edge(adjv, u, w) && comp_of[w] == c && comp_of[u] != c
                    && cpos[comp_of[u] as int] < ncomp && start[c] + local[w] == start[comp_of[u] as int] + local[u] + 1;
            lemma_adjacency_edge(adjv, revv, edges, n, u, w);
            let k = choose|k: int| 0 <= k < edges.len() && edges[k].0 == u && edges[k].1 == w;
            lemma_same_group_comp(edges, n, adjv, revv, comp_of, w, v);
            lemma_same_group_comp(edges, n, adjv, revv, comp_of, u, w);
            assert(ranks[w] == ranks[u] + 1);
            assert(same_group(edges, edges[k].1 as int, v));
        }
    }
}

/// An edge of the list runs from `a` to `b`, both in one group.
pub open spec fn group_edge(edges: Seq<(usize, usize)>, a: int, b: int) -> bool {
    has_edge(edges, a, b) && same_group(edges, a, b)
}

/// `y` is one of `members`, not in `placed`, and all its predecessors in
/// its group are in `placed`.
pub open spec fn group_ready(edges: Seq<(usize, usize)>, members: Seq<usize>, placed: Seq<usize>, y: int) -> bool {
    &&& seq_has(members, y)
    &&& !seq_has(placed, y)
    &&& forall|p: int| #[trigger] group_edge(edges, p, y) ==> seq_has(placed, p)
}

/// After `placed`, `x` is the member that goes next: the least by `(key,
/// tie)` among the ready members, or, when none is ready, among all members
/// not yet placed.
pub open spec fn group_picked(
    edges: Seq<(usize, usize)>,
    key: Seq<usize>,
    tie: Seq<usize>,
    members: Seq<usize>,
    placed: Seq<usize>,
    x: int,
) -> bool {
    if exists|y: int| #[trigger] group_ready(edges, members, placed, y) {
        &&& group_ready(edges, members, placed, x)
        &&& forall|y: int| #[trigger] group_ready(edges, members, placed, y) ==> !key_less(key, tie, y, x)
    } else {
        &&& seq_has(members, x)
        &&& !seq_has(placed, x)
        &&& forall|y: int| seq_has(members, y) && !seq_has(placed, y) ==> !key_less(key, tie, y, x)
    }
}

/// `o` lists the group of `v` once each, in topological order along the
/// group's own edges, the least by `(key, tie)` going next among the ready
/// members (among all unplaced ones when none is ready); and the layers of
/// the group follow `o`: each member is at the layer of `o`'s first, or
/// exactly one below an earlier member with an edge into it, and every edge
/// forward in `o` goes down at least one layer.
pub open spec fn group_order_ok(
    edges: Seq<(usize, usize)>,
    key: Seq<usize>,
    tie: Seq<usize>,
    ranks: Seq<usize>,
    n: int,
    v: int,
    o: Seq<usize>,
) -> bool {
    &&& o.len() >= 1
    &&& o.no_duplicates()
    &&& forall|k: int| 0 <= k < o.len() ==> 0 <= #[trigger] o[k] < n && same_group(edges, v, o[k] as int)
    &&& forall|w: int| 0 <= w < n && #[trigger] same_group(edges, v, w) ==> seq_has(o, w)
    &&& forall|t: int| 0 <= t < o.len() ==> #[trigger] group_picked(edges, key, tie, o, o.take(t), o[t] as int)
    &&& forall|q: int|
        0 <= q < o.len() ==> #[trigger] ranks[o[q] as int] == ranks[o[0] as int] || exists|a: int|
            0 <= a < q && #[trigger] group_edge(edges, o[a] as int, o[q] as int) && ranks[o[q] as int] == ranks[o[a] as int] + 1
    &&& forall|a: int, b: int|
        0 <= a < b < o.len() && #[trigger] group_edge(edges, o[a] as int, o[b] as int) ==> ranks[o[b] as int] >= ranks[o[a] as int]
            + 1
}

/// The group of `v` is layered along its order.
pub open spec fn group_ordered(
    edges: Seq<(usize, usize)>,
    key: Seq<usize>,
    tie: Seq<usize>,
    ranks: Seq<usize>,
    n: int,
    v: int,
) -> bool {
    exists|o: Seq<usize>| #[trigger] group_order_ok(edges, key, tie, ranks, n, v, o)
}

proof fn lemma_group_ordered(
    edges: Seq<(usize, usize)>,
    n: int,
    adjv: Seq<Seq<usize>>,
    revv: Seq<Seq<usize>>,
    iadjv: Seq<Seq<usize>>,
    comp_of: Seq<usize>,
    compsv: Seq<Seq<usize>>,
    key: Seq<usize>,
    tie: Seq<usize>,
    local: Seq<usize>,
    start: Seq<u128>,
    ranks: Seq<usize>,
    v: int,
)
    requires
        adjacency_of(adjv, revv, edges, n),
        adj_well_formed(adjv),
        adjv.len() == n,
        iadjv.len() == n,
        edges_below(edges, n),
        components_ok(compsv, comp_of, n),
        forall|x: int, y: int| 0 <= x < n && 0 <= y < n && #[trigger] comp_of[x] == #[trigger] comp_of[y] ==> mutual(adjv, x, y),
        forall|x: int, y: int| 0 <= x < n && 0 <= y < n && #[trigger] mutual(adjv, x, y) ==> comp_of[x] == comp_of[y],
        forall|a: int, b: int|
            0 <= a < n && 0 <= b < n ==> (#[trigger] adj_edge(iadjv, a, b) <==> adj_edge(adjv, a, b) && comp_of[a] == comp_of[b]),
        forall|c: int| 0 <= c < compsv.len() ==> #[trigger] comp_ordered(iadjv, compsv, key, tie, local, c),
        forall|w: int| 0 <= w < n ==> #[trigger] ranks[w] == start[comp_of[w] as int] + local[w],
        0 <= v < n,
    ensures
        group_ordered(edges, key, tie, ranks, n, v),
{
    let c = comp_of[v] as int;
    assert(comp_ordered(iadjv, compsv, key, tie, local, c));
    let o = choose|o: Seq<usize>| #[trigger] local_order_ok(iadjv, compsv[c], key, tie, local, o);
    reveal(local_order_ok);
    let mem = compsv[c];
    // edges inside the group, either way
    assert forall|p: int, y: int|
        #![trigger adj_edge(iadjv, p, y)]
        #![trigger group_edge(edges, p, y)]
        0 <= y < n implies (adj_edge(iadjv, p, y) <==> group_edge(edges, p, y)) by {
        if adj_edge(iadjv, p, y) {
            assert(0 <= p < n);
            assert(adj_edge(adjv, p, y) && comp_of[p] == comp_of[y]);
            lemma_adjacency_edge(adjv, revv, edges, n, p, y);
            lemma_same_group_comp(edges, n, adjv, revv, comp_of, p, y);
        }
        if group_edge(edges, p, y) {
            let k = choose|k: int| 0 <= k < edges.len() && edges[k].0 == p && edges[k].1 == y;
            assert(edges[k].0 < n);
            lemma_adjacency_edge(adjv, revv, edges, n, p, y);
            lemma_same_group_comp(edges, n, adjv, revv, comp_of, p, y);
        }
    }
    assert forall|y: int| seq_has(mem, y) <==> seq_has(o, y) by {
        if seq_has(mem, y) {
            let t = choose|t: int| 0 <= t < mem.len() && mem[t] == y;
            assert(seq_has(o, mem[t] as int));
        }
        if seq_has(o, y) {
            let k = choose|k: int| 0 <= k < o.len() && o[k] == y;
            assert(seq_has(mem, o[k] as int));
        }
    }
    assert forall|y: int| #[trigger] seq_has(mem, y) ==> 0 <= y < n && comp_of[y] == c by {
        if seq_has(mem, y) {
            let t = choose|t: int| 0 <= t < mem.len() && mem[t] == y;
            assert(mem[t] < n && comp_of[mem[t] as int] == c);
        }
    }
    assert forall|t: int| 0 <= t < o.len() implies #[trigger] group_picked(edges, key, tie, o, o.take(t), o[t] as int) by {
        let placed = o.take(t);
        assert(picked_least(mem, iadjv, key, tie, placed, o[t] as int));
        assert forall|y: int|
            #![trigger ready_after(mem, iadjv, placed, y)]
            #![trigger group_ready(edges, o, placed, y)]
            ready_after(mem, iadjv, placed, y) <==> group_ready(edges, o, placed, y) by {
            if seq_has(mem, y) || seq_has(o, y) {
                assert(seq_has(mem, y));
                assert(0 <= y < n);
                assert forall|p: int| #[trigger] adj_edge(iadjv, p, y) <==> group_edge(edges, p, y) by {}
            }
        }
        if exists|y: int| #[trigger] ready_after(mem, iadjv, placed, y) {
            let y = choose|y: int| #[trigger] ready_after(mem, iadjv, placed, y);
            assert(group_ready(edges, o, placed, y));
        }
        if exists|y: int| #[trigger] group_ready(edges, o, placed, y) {
            let y = choose|y: int| #[trigger] group_ready(edges, o, placed, y);
            assert(ready_after(mem, iadjv, placed, y));
        }
    }
    assert(mem.len() > 0);
    assert(seq_has(o, mem[0] as int));
    assert(o.len() >= 1);
    assert(local[o[0] as int] == 0);
    assert forall|k: int| 0 <= k < o.len() implies 0 <= #[trigger] o[k] < n && same_group(edges, v, o[k] as int) by {
        assert(seq_has(mem, o[k] as int));
        assert(seq_has(compsv[comp_of[v] as int], v));
        lemma_same_group_comp(edges, n, adjv, revv, comp_of, v, o[k] as int);
    }
    assert forall|w: int| 0 <= w < n && #[trigger] same_group(edges, v, w) implies seq_has(o, w) by {
        lemma_same_group_comp(edges, n, adjv, revv, comp_of, v, w);
        assert(seq_has(compsv[comp_of[w] as int], w));
    }
    assert forall|q: int|
        0 <= q < o.len() implies #[trigger] ranks[o[q] as int] == ranks[o[0] as int] || exists|a: int|
            0 <= a < q && #[trigger] group_edge(edges, o[a] as int, o[q] as int) && ranks[o[q] as int] == ranks[o[a] as int] + 1 by {
        assert(seq_has(mem, o[q] as int));
        assert(seq_has(mem, o[0] as int));
        if local[o[q] as int] != 0 {
            let a = choose|a: int|
                0 <= a < q && #[trigger] adj_edge(iadjv, o[a] as int, o[q] as int) && local[o[q] as int] == local[o[a] as int] + 1;
            assert(seq_has(mem, o[a] as int));
            assert(group_edge(edges, o[a] as int, o[q] as int));
        }
    }
    assert forall|a: int, b: int|
        0 <= a < b < o.len() && #[trigger] group_edge(edges, o[a] as int, o[b] as int) implies ranks[o[b] as int] >= ranks[o[a] as int]
            + 1 by {
        assert(seq_has(mem, o[a] as int));
        assert(seq_has(mem, o[b] as int));
        assert(adj_edge(iadjv, o[a] as int, o[b] as int));
    }
    assert(group_order_ok(edges, key, tie, ranks, n, v, o));
}

/// Layers for the vertices `0..n` of the graph `edges`: the strongly
/// connected components are put in topological order (ties by the least
/// `key` of their vertices, then by component number), each component is
/// layered internally along its own topological order by `(key, tie)`
/// (`group_ordered`), and
/// each component is shifted down just far enough that every edge leaving
/// it goes down at least one layer. On a graph without cycles every edge
/// goes down at least one layer. No layer is higher than needed
/// (`layer_tight`): inside a group of vertices on one cycle, each vertex but
/// the group's lowest sits exactly one below a predecessor in the group,
/// and the lowest sits at 0 or exactly one below a predecessor outside.
pub fn compute_layers(n: usize, edges: &Vec<(usize, usize)>, key: &Vec<usize>, tie: &Vec<usize>) -> (ranks: Vec<usize>)
    requires
        edges_below(edges@, n as int),
        key.len() == n,
        tie.len() == n,
    ensures
        ranks.len() == n,
        forall|v: int| 0 <= v < n ==> #[trigger] ranks@[v] < n,
        forall|k: int|
            0 <= k < edges@.len() && !edges_reach(edges@, edges@[k].1 as int, edges@[k].0 as int)
                ==> ranks@[#[trigger] edges@[k].1 as int] >= ranks@[edges@[k].0 as int] + 1,
        edges_acyclic(edges@) ==> forall|k: int|
            0 <= k < edges@.len() ==> ranks@[#[trigger] edges@[k].1 as int] >= ranks@[edges@[k].0 as int] + 1,
        forall|v: int| 0 <= v < n ==> #[trigger] layer_tight(edges@, ranks@, n as int, v),
        forall|v: int| 0 <= v < n ==> #[trigger] group_ordered(edges@, key@, tie@, ranks@, n as int, v),
{
    let (adj, rev) = build_adjacency(n, edges);
    let ghost adjv = adj.deep_view();
    let ghost revv = rev.deep_view();
    proof {
        assert forall|a: int, b: int|
            0 <= a < adj.len() && 0 <= b < adj.len() implies (#[trigger] adj_edge(adjv, a, b)
                <==> adj_edge(revv, b, a)) by {
            lemma_adjacency_edge(adjv, revv, edges@, n as int, a, b);
        }
        assert forall|a: int, b: int|
            0 <= a < adjv.len() && 0 <= b < adjv.len() implies #[trigger] occurrences(adjv[a], b) == occurrences(
                revv[b],
                a,
            ) by {
        }
    }
    let (comps, comp_of) = strongly_connected_components(&adj, &rev);
    let ghost compsv = comps.deep_view();
    let ncomp = comps.len();
    let (iadj, irev) = internal_adjacency(&adj, &rev, &comp_of);
    let ghost iadjv = iadj.deep_view();
    proof {
        assert forall|a: int, b: int| #[trigger] adj_edge(iadjv, a, b) implies comp_of@[a] == comp_of@[b] by {
            assert(0 <= a < n);
            let t = choose|t: int| 0 <= t < iadjv[a].len() && iadjv[a][t] == b;
            assert(iadjv[a][t] < n);
        }
    }
    let local = local_ranks(&comps, &comp_of, &iadj, &irev, key, tie);
    // component ordering keys
    let mut ckey: Vec<usize> = Vec::new();
    let mut ctie: Vec<usize> = Vec::new();
    let mut citems: Vec<usize> = Vec::new();
    let mut c: usize = 0;
    while c < ncomp
        invariant
            c <= ncomp,
            ncomp == comps.len(),
            compsv == comps.deep_view(),
            components_ok(compsv, comp_of@, n as int),
            key.len() == n,
            ckey.len() == c,
            ctie.len() == c,
            citems.len() == c,
            forall|t: int| 0 <= t < c ==> #[trigger] citems@[t] == t,
        decreases ncomp - c,
    {
        proof {
            assert(comps@[c as int]@ == compsv[c as int]);
            assert forall|k: int| 0 <= k < comps@[c as int]@.len() implies #[trigger] comps@[c as int]@[k] < key.len() by {
                assert(compsv[c as int][k] < n);
            }
        }
        ckey.push(least_key(&comps[c], key));
        ctie.push(c);
        citems.push(c);
        c += 1;
    }
    proof {
        assert forall|v: int| 0 <= v < comp_of.len() implies #[trigger] comp_of@[v] < ncomp by {}
        assert(edges_below(edges@, comp_of.len() as int));
    }
    let (cadj, crev) = component_graph(edges, &comp_of, ncomp);
    let ghost cadjv = cadj.deep_view();
    proof {
        assert forall|a: int, b: int| #[trigger] adj_edge(cadjv, a, b) implies a < b by {
            let k = choose|k: int|
                0 <= k < edges@.len() && comp_of@[edges@[k].0 as int] == a && comp_of@[edges@[k].1 as int] == b;
            let u = edges@[k].0 as int;
            let v = edges@[k].1 as int;
            lemma_adjacency_edge(adjv, revv, edges@, n as int, u, v);
            assert(adj_edge(adjv, u, v));
        }
        lemma_acyclic_increasing(cadjv);
        assert(citems@.no_duplicates());
        assert forall|x: int| 0 <= x < ncomp implies seq_has(citems@, x) by {
            assert(citems@[x] == x);
        }
        assert forall|k: int| 0 <= k < citems@.len() implies #[trigger] citems@[k] < cadjv.len() by {}
        assert forall|x: int, k: int|
            seq_has(citems@, x) && 0 <= k < cadjv[x].len() implies seq_has(citems@, #[trigger] cadjv[x][k] as int) by {
            assert(cadjv[x][k] < ncomp);
        }
        assert forall|x: int, k: int|
            seq_has(citems@, x) && 0 <= k < crev.deep_view()[x].len() implies seq_has(citems@, #[trigger] crev.deep_view()[x][k] as int) by {
            assert(crev.deep_view()[x][k] < ncomp);
        }
    }
    let corder = stable_topology_order(&citems, &cadj, &crev, &ckey, &ctie);
    // position of each component in the order
    let mut cpos: Vec<usize> = Vec::new();
    let mut c: usize = 0;
    while c < ncomp
        invariant
            c <= ncomp,
            cpos.len() == c,
        decreases ncomp - c,
    {
        cpos.push(0);
        c += 1;
    }
    let mut q: usize = 0;
    while q < corder.len()
        invariant
            q <= corder@.len(),
            corder@.len() == ncomp,
            citems@.len() == ncomp,
            cpos.len() == ncomp,
            corder@.no_duplicates(),
            forall|k: int| 0 <= k < corder@.len() ==> seq_has(citems@, #[trigger] corder@[k] as int),
            forall|t: int| 0 <= t < ncomp ==> #[trigger] citems@[t] == t,
            forall|t: int| 0 <= t < q ==> cpos@[#[trigger] corder@[t] as int] == t,
        decreases corder@.len() - q,
    {
        let cc = corder[q];
        proof {
            assert(seq_has(citems@, corder@[q as int] as int));
            let t = choose|t: int| 0 <= t < citems@.len() && citems@[t] == cc;
            assert(citems@[t] == t);
        }
        cpos.set(cc, q);
        proof {
            assert forall|t: int| 0 <= t <= q implies cpos@[#[trigger] corder@[t] as int] == t by {
                if t < q {
                    assert(corder@[t] != corder@[q as int]);
                }
            }
        }
        q += 1;
    }
    proof {
        assert forall|a: int, b: int| #[trigger] adj_edge(cadjv, a, b) implies cpos@[a] < cpos@[b] by {
            assert(0 <= a < ncomp);
            let t = choose|t: int| 0 <= t < cadjv[a].len() && cadjv[a][t] == b;
            assert(cadjv[a][t] < ncomp);
            assert(seq_has(corder@, citems@[a] as int));
            assert(seq_has(corder@, citems@[b] as int));
            let i1 = choose|i1: int| 0 <= i1 < corder@.len() && corder@[i1] == a;
            let i2 = choose|i2: int| 0 <= i2 < corder@.len() && corder@[i2] == b;
            assert(adj_edge(cadjv, corder@[i1] as int, corder@[i2] as int));
            assert(cpos@[corder@[i1] as int] == i1);
            assert(cpos@[corder@[i2] as int] == i2);
        }
        let firsts = Seq::new(ncomp as nat, |c: int| compsv[c][0]);
        assert forall|k: int| 0 <= k < firsts.len() implies #[trigger] firsts[k] < n by {
            assert(compsv[k].len() > 0);
        }
        assert(firsts.no_duplicates()) by {
            assert forall|i: int, j: int| 0 <= i < firsts.len() && 0 <= j < firsts.len() && i != j implies firsts[i] != firsts[j] by {
                assert(compsv[i].len() > 0 && compsv[j].len() > 0);
                assert(comp_of@[compsv[i][0] as int] == i);
                assert(comp_of@[compsv[j][0] as int] == j);
            }
        }
        lemma_distinct_below_len(firsts, n as int);
        assert forall|t: int| 0 <= t < corder@.len() implies #[trigger] corder@[t] < compsv.len() by {
            assert(seq_has(citems@, corder@[t] as int));
        }
        lemma_placed(compsv, comp_of@, corder@, n as int, ncomp as int);
        lemma_distinct_below_len(placed(compsv, corder@, ncomp as int), n as int);
        assert forall|x: int| 0 <= x < ncomp implies #[trigger] cpos@[x] < ncomp by {
            lemma_sub_sequence_count(corder@, citems@);
            assert(seq_has(corder@, citems@[x] as int));
            let tq = choose|tq: int| 0 <= tq < corder@.len() && corder@[tq] == x;
            assert(cpos@[corder@[tq] as int] == tq);
        }
    }
    let ghost total = placed_size(compsv, corder@, ncomp as int);
    let mut start: Vec<u128> = Vec::new();
    let mut c: usize = 0;
    while c < ncomp
        invariant
            c <= ncomp,
            start.len() == c,
            forall|t: int| 0 <= t < c ==> #[trigger] start@[t] == 0,
        decreases ncomp - c,
    {
        start.push(0);
        c += 1;
    }
    let mut idx: usize = 0;
    while idx < ncomp
        invariant
            idx <= ncomp,
            ncomp <= n,
            ncomp == comps.len(),
            compsv.len() == ncomp,
            total == placed_size(compsv, corder@, ncomp as int),
            total <= n,
            forall|x: int| 0 <= x < ncomp ==> #[trigger] cpos@[x] < ncomp,
            forall|v: int| 0 <= v < n ==> #[trigger] local@[v] < compsv[comp_of@[v] as int].len(),
            n == adj.len(),
            corder@.len() == ncomp,
            citems@.len() == ncomp,
            cpos.len() == ncomp,
            start.len() == ncomp,
            local.len() == n,
            compsv == comps.deep_view(),
            adjv == adj.deep_view(),
            cadjv == cadj.deep_view(),
            components_ok(compsv, comp_of@, n as int),
            adj_well_formed(adjv),
            adjacency_of(adjv, revv, edges@, n as int),
            forall|v: int| 0 <= v < n ==> #[trigger] local@[v] < n,
            forall|k: int| 0 <= k < corder@.len() ==> seq_has(citems@, #[trigger] corder@[k] as int),
            forall|t: int| 0 <= t < ncomp ==> #[trigger] citems@[t] == t,
            forall|t: int| 0 <= t < ncomp ==> cpos@[#[trigger] corder@[t] as int] == t,
            forall|a: int, b: int| #[trigger] adj_edge(cadjv, a, b) ==> cpos@[a] < cpos@[b],
            forall|a: int, b: int|
                #[trigger] adj_edge(cadjv, a, b) <==> (a != b && exists|k: int|
                    0 <= k < edges@.len() && comp_of@[edges@[k].0 as int] == a && comp_of@[edges@[k].1 as int]
                        == b),
            forall|x: int| 0 <= x < ncomp ==> #[trigger] start@[x] <= placed_size(compsv, corder@, cpos@[x] as int),
            forall|u: int, v: int|
                0 <= u < n && 0 <= v < n && #[trigger] adj_edge(adjv, u, v) && comp_of@[u] != comp_of@[v]
                    && cpos@[comp_of@[u] as int] < idx ==> start@[comp_of@[v] as int] + local@[v]
                    >= start@[comp_of@[u] as int] + local@[u] + 1,
            forall|x: int| 0 <= x < ncomp ==> #[trigger] start_justified(adjv, comp_of@, local@, start@, cpos@, n as int, x, idx as int),
        decreases ncomp - idx,
    {
        let c = corder[idx];
        proof {
            assert(seq_has(citems@, corder@[idx as int] as int));
            let t = choose|t: int| 0 <= t < citems@.len() && citems@[t] == c;
            assert(citems@[t] == t);
            assert(c < ncomp);
            assert(comps@[c as int]@ == compsv[c as int]);
        }
        let ghost s0 = start@;
        proof {
            assert forall|x: int| 0 <= x < ncomp implies #[trigger] start_justified(adjv, comp_of@, local@, start@, cpos@, n as int, x, idx + 1) by {
                assert(start_justified(adjv, comp_of@, local@, start@, cpos@, n as int, x, idx as int));
                if start@[x] != 0 {
                    let (u, v) = choose|u: int, v: int|
                        0 <= u < n && 0 <= v < n && #[trigger] adj_edge(adjv, u, v) && comp_of@[v] == x && comp_of@[u] != x
                            && cpos@[comp_of@[u] as int] < idx && start@[x] + local@[v] == start@[comp_of@[u] as int] + local@[u] + 1;
                    assert(adj_edge(adjv, u, v));
                }
            }
        }
        let members = &comps[c];
        let mut t: usize = 0;
        while t < members.len()
            invariant
                t <= members@.len(),
                members@ == compsv[c as int],
                c < ncomp,
                idx < ncomp,
                c == corder@[idx as int],
                corder@.len() == ncomp,
                compsv.len() == ncomp,
                total == placed_size(compsv, corder@, ncomp as int),
                total <= n,
                forall|x: int| 0 <= x < ncomp ==> #[trigger] cpos@[x] < ncomp,
                forall|v: int| 0 <= v < n ==> #[trigger] local@[v] < compsv[comp_of@[v] as int].len(),
                ncomp <= n,
                n == adj.len(),
                cpos.len() == ncomp,
                start.len() == ncomp,
                local.len() == n,
                adjv == adj.deep_view(),
                cadjv == cadj.deep_view(),
                components_ok(compsv, comp_of@, n as int),
                adj_well_formed(adjv),
                adjacency_of(adjv, revv, edges@, n as int),
                forall|v: int| 0 <= v < n ==> #[trigger] local@[v] < n,
                forall|t2: int| 0 <= t2 < ncomp ==> cpos@[#[trigger] corder@[t2] as int] == t2,
                forall|a: int, b: int| #[trigger] adj_edge(cadjv, a, b) ==> cpos@[a] < cpos@[b],
                forall|a: int, b: int|
                    #[trigger] adj_edge(cadjv, a, b) <==> (a != b && exists|k: int|
                        0 <= k < edges@.len() && comp_of@[edges@[k].0 as int] == a && comp_of@[edges@[k].1 as int]
                            == b),
                forall|x: int| 0 <= x < ncomp ==> #[trigger] s0[x] <= placed_size(compsv, corder@, cpos@[x] as int),
                forall|x: int| 0 <= x < ncomp && cpos@[x] <= idx ==> #[trigger] start@[x] == s0[x],
                forall|x: int| 0 <= x < ncomp ==> #[trigger] start@[x] <= placed_size(compsv, corder@, cpos@[x] as int),
                forall|x: int| 0 <= x < ncomp ==> #[trigger] start@[x] >= s0[x],
                forall|tt: int, v: int|
                    0 <= tt < t && 0 <= v < n && #[trigger] adj_edge(adjv, members@[tt] as int, v) && comp_of@[v] != c
                        ==> start@[comp_of@[v] as int] + local@[v] >= start@[c as int] + local@[members@[tt] as int] + 1,
                forall|x: int| 0 <= x < ncomp ==> #[trigger] start_justified(adjv, comp_of@, local@, start@, cpos@, n as int, x, idx + 1),
            decreases members@.len() - t,
        {
            let u = members[t];
            proof {
                assert(compsv[c as int][t as int] < n);
            }
            let len = adj[u].len();
            let ghost sm = start@;
            let mut j: usize = 0;
            while j < len
                invariant
                    j <= len,
                    len == adjv[u as int].len(),
                    u < n,
                    comp_of@[u as int] == c,
                    c < ncomp,
                    idx < ncomp,
                    ncomp <= n,
                    compsv.len() == ncomp,
                    total == placed_size(compsv, corder@, ncomp as int),
                    total <= n,
                    c == corder@[idx as int],
                    corder@.len() == ncomp,
                    forall|x: int| 0 <= x < ncomp ==> #[trigger] cpos@[x] < ncomp,
                    forall|v: int| 0 <= v < n ==> #[trigger] local@[v] < compsv[comp_of@[v] as int].len(),
                    n == adj.len(),
                    cpos.len() == ncomp,
                    start.len() == ncomp,
                    local.len() == n,
                    adjv == adj.deep_view(),
                    cadjv == cadj.deep_view(),
                    components_ok(compsv, comp_of@, n as int),
                    adj_well_formed(adjv),
                    adjacency_of(adjv, revv, edges@, n as int),
                    cpos@[c as int] == idx,
                    forall|v: int| 0 <= v < n ==> #[trigger] local@[v] < n,
                    forall|a: int, b: int| #[trigger] adj_edge(cadjv, a, b) ==> cpos@[a] < cpos@[b],
                    forall|a: int, b: int|
                        #[trigger] adj_edge(cadjv, a, b) <==> (a != b && exists|k: int|
                            0 <= k < edges@.len() && comp_of@[edges@[k].0 as int] == a && comp_of@[edges@[k].1 as int]
                                == b),
                    forall|x: int| 0 <= x < ncomp ==> #[trigger] s0[x] <= placed_size(compsv, corder@, cpos@[x] as int),
                    forall|x: int| 0 <= x < ncomp && cpos@[x] <= idx ==> #[trigger] start@[x] == s0[x],
                    forall|x: int| 0 <= x < ncomp ==> #[trigger] start@[x] <= placed_size(compsv, corder@, cpos@[x] as int),
                    forall|x: int| 0 <= x < ncomp ==> #[trigger] start@[x] >= sm[x],
                    forall|x: int| 0 <= x < ncomp ==> #[trigger] sm[x] >= s0[x],
                    forall|jj: int|
                        0 <= jj < j && comp_of@[#[trigger] adjv[u as int][jj] as int] != c ==> start@[comp_of@[adjv[u as int][jj] as int] as int]
                            + local@[adjv[u as int][jj] as int] >= start@[c as int] + local@[u as int] + 1,
                    forall|x: int| 0 <= x < ncomp ==> #[trigger] start_justified(adjv, comp_of@, local@, start@, cpos@, n as int, x, idx + 1),
                decreases len - j,
            {
                let v = adj[u][j];
                proof {
                    assert(adjv[u as int][j as int] == v);
                    assert(v < n);
                }
                let d = comp_of[v];
                if d != c {
                    proof {
                        assert(adj_edge(adjv, u as int, v as int));
                        lemma_adjacency_edge(adjv, revv, edges@, n as int, u as int, v as int);
                        let k = choose|k: int| 0 <= k < edges@.len() && edges@[k].0 == u && edges@[k].1 == v;
                        assert(adj_edge(cadjv, c as int, d as int));
                        assert(cpos@[d as int] > idx);
                        assert(start@[c as int] == s0[c as int]);
                        assert(cpos@[c as int] == idx);
                        assert(s0[c as int] <= placed_size(compsv, corder@, idx as int));
                        assert(local@[u as int] < compsv[c as int].len());
                        assert(placed_size(compsv, corder@, idx + 1) == placed_size(compsv, corder@, idx as int)
                            + compsv[c as int].len());
                        lemma_placed_size_mono(compsv, corder@, idx + 1, cpos@[d as int] as int);
                        lemma_placed_size_mono(compsv, corder@, idx + 1, ncomp as int);
                        assert(start@[c as int] + local@[u as int] + 1 <= placed_size(compsv, corder@, cpos@[d as int] as int));
                    }
                    let base = start[c] + (local[u] as u128) + 1;
                    let lv = local[v] as u128;
                    if base > lv {
                        let cand = base - lv;
                        if start[d] < cand {
                            let ghost sb = start@;
                            start.set(d, cand);
                            proof {
                                assert forall|x: int| 0 <= x < ncomp implies #[trigger] start_justified(adjv, comp_of@, local@, start@, cpos@, n as int, x, idx + 1) by {
                                    if x == d {
                                        assert(adj_edge(adjv, u as int, v as int));
                                        assert(comp_of@[u as int] == c);
                                        assert(start@[c as int] == sb[c as int]);
                                    } else {
                                        assert(start_justified(adjv, comp_of@, local@, sb, cpos@, n as int, x, idx + 1));
                                        if sb[x] != 0 {
                                            let (uu, vv) = choose|uu: int, vv: int|
                                                0 <= uu < n && 0 <= vv < n && #[trigger] adj_edge(adjv, uu, vv) && comp_of@[vv] == x && comp_of@[uu] != x
                                                    && cpos@[comp_of@[uu] as int] < idx + 1 && sb[x] + local@[vv] == sb[comp_of@[uu] as int] + local@[uu] + 1;
                                            assert(comp_of@[uu] < ncomp);
                                            assert(comp_of@[uu] != d);
                                            assert(adj_edge(adjv, uu, vv));
                                        }
                                    }
                                }
                                assert forall|x: int| 0 <= x < ncomp && x != d implies #[trigger] start@[x] == sb[x] by {}
                            }
                        }
                    }
                }
                proof {
                    assert forall|jj: int|
                        0 <= jj < j + 1 && comp_of@[#[trigger] adjv[u as int][jj] as int] != c implies start@[comp_of@[adjv[u as int][jj] as int] as int]
                            + local@[adjv[u as int][jj] as int] >= start@[c as int] + local@[u as int] + 1 by {
                        if jj < j {
                            let dd = comp_of@[adjv[u as int][jj] as int] as int;
                            assert(adjv[u as int][jj] < n);
                        }
                    }
                }
                j += 1;
            }
            proof {
                assert forall|tt: int, v: int|
                    0 <= tt < t + 1 && 0 <= v < n && #[trigger] adj_edge(adjv, members@[tt] as int, v) && comp_of@[v] != c
                        implies start@[comp_of@[v] as int] + local@[v] >= start@[c as int] + local@[members@[tt] as int] + 1 by {
                    if tt < t {
                        assert(start@[comp_of@[v] as int] >= sm[comp_of@[v] as int]) by {
                            assert(comp_of@[v] < ncomp);
                        }
                        assert(start@[c as int] == sm[c as int]);
                    } else {
                        let jj = choose|jj: int| 0 <= jj < adjv[u as int].len() && adjv[u as int][jj] == v;
                    }
                }
            }
            t += 1;
        }
        proof {
            assert forall|uu: int, v: int|
                0 <= uu < n && 0 <= v < n && #[trigger] adj_edge(adjv, uu, v) && comp_of@[uu] != comp_of@[v]
                    && cpos@[comp_of@[uu] as int] < idx + 1 implies start@[comp_of@[v] as int] + local@[v]
                    >= start@[comp_of@[uu] as int] + local@[uu] + 1 by {
                let cu = comp_of@[uu] as int;
                assert(cu < ncomp);
                assert(comp_of@[v] < ncomp);
                if cpos@[cu] < idx {
                    assert(start@[cu] == s0[cu]);
                    assert(start@[comp_of@[v] as int] >= s0[comp_of@[v] as int]);
                } else {
                    assert(cu == c) by {
                        assert(cpos@[corder@[idx as int] as int] == idx);
                        let tq = choose|tq: int| 0 <= tq < corder@.len() && corder@[tq] == cu;
                        assert(seq_has(corder@, cu)) by {
                            lemma_sub_sequence_count(corder@, citems@);
                            assert(seq_has(corder@, citems@[cu] as int));
                        }
                    }
                    let tt = choose|tt: int| 0 <= tt < compsv[c as int].len() && compsv[c as int][tt] == uu;
                }
            }
        }
        idx += 1;
    }
    // final layers
    let mut ranks: Vec<usize> = Vec::new();
    let mut v: usize = 0;
    while v < n
        invariant
            v <= n,
            ncomp <= n,
            n == adj.len(),
            comp_of.len() == n,
            compsv.len() == ncomp,
            corder@.len() == ncomp,
            citems@.len() == ncomp,
            cpos.len() == ncomp,
            ranks.len() == v,
            start.len() == ncomp,
            local.len() == n,
            total == placed_size(compsv, corder@, ncomp as int),
            total <= n,
            components_ok(compsv, comp_of@, n as int),
            forall|k: int| 0 <= k < corder@.len() ==> seq_has(citems@, #[trigger] corder@[k] as int),
            forall|t: int| 0 <= t < ncomp ==> #[trigger] citems@[t] == t,
            forall|t: int| 0 <= t < ncomp ==> cpos@[#[trigger] corder@[t] as int] == t,
            forall|x: int| 0 <= x < ncomp ==> #[trigger] cpos@[x] < ncomp,
            forall|x: int| 0 <= x < ncomp ==> #[trigger] start@[x] <= placed_size(compsv, corder@, cpos@[x] as int),
            forall|w: int| 0 <= w < n ==> #[trigger] local@[w] < compsv[comp_of@[w] as int].len(),
            forall|w: int| 0 <= w < v ==> #[trigger] ranks@[w] == start@[comp_of@[w] as int] + local@[w],
            forall|w: int| 0 <= w < v ==> #[trigger] ranks@[w] < n,
        decreases n - v,
    {
        proof {
            let x = comp_of@[v as int] as int;
            assert(x < ncomp);
            lemma_sub_sequence_count(corder@, citems@);
            assert(seq_has(corder@, citems@[x] as int));
            let tq = choose|tq: int| 0 <= tq < corder@.len() && corder@[tq] == x;
            assert(cpos@[corder@[tq] as int] == tq);
            assert(placed_size(compsv, corder@, tq + 1) == placed_size(compsv, corder@, tq)
                + compsv[x].len());
            lemma_placed_size_mono(compsv, corder@, tq + 1, ncomp as int);
            assert(start@[x] + local@[v as int] < n);
        }
        let sc = start[comp_of[v]];
        let r = (sc + local[v] as u128) as usize;
        ranks.push(r);
        v += 1;
    }
    proof {
        assert forall|k: int|
            0 <= k < edges@.len() && !edges_reach(edges@, edges@[k].1 as int, edges@[k].0 as int)
                implies ranks@[#[trigger] edges@[k].1 as int] >= ranks@[edges@[k].0 as int] + 1 by {
            let uu = edges@[k].0 as int;
            let vv = edges@[k].1 as int;
            assert(uu < n && vv < n);
            lemma_adjacency_edge(adjv, revv, edges@, n as int, uu, vv);
            if comp_of@[uu] == comp_of@[vv] {
                assert(mutual(adjv, uu, vv));
                lemma_reaches_edges(adjv, revv, edges@, n as int, vv, uu);
            } else {
                lemma_sub_sequence_count(corder@, citems@);
                let cu = comp_of@[uu] as int;
                assert(cu < ncomp);
                assert(seq_has(corder@, citems@[cu] as int));
                let tq = choose|tq: int| 0 <= tq < corder@.len() && corder@[tq] == cu;
                assert(cpos@[corder@[tq] as int] == tq);
            }
        }
        assert forall|v: int| 0 <= v < n implies #[trigger] layer_tight(edges@, ranks@, n as int, v) by {
            lemma_layers_tight(edges@, n as int, adjv, revv, iadjv, comp_of@, local@, start@, cpos@, ranks@, ncomp as int, v);
        }
        assert forall|v: int| 0 <= v < n implies #[trigger] group_ordered(edges@, key@, tie@, ranks@, n as int, v) by {
            lemma_group_ordered(edges@, n as int, adjv, revv, iadjv, comp_of@, compsv, key@, tie@, local@, start@, ranks@, v);
        }
        if edges_acyclic(edges@) {
            lemma_adjacency_acyclic(adjv, revv, edges@, n as int);
            lemma_acyclic_subgraph(iadjv, adjv);
            assert forall|k: int|
                0 <= k < edges@.len() implies ranks@[#[trigger] edges@[k].1 as int] >= ranks@[edges@[k].0 as int] + 1 by {
                let uu = edges@[k].0 as int;
                let vv = edges@[k].1 as int;
                assert(uu < n && vv < n);
                lemma_adjacency_edge(adjv, revv, edges@, n as int, uu, vv);
                if comp_of@[uu] == comp_of@[vv] {
                    assert(adj_edge(iadjv, uu, vv));
                } else {
                    lemma_sub_sequence_count(corder@, citems@);
                    let cu = comp_of@[uu] as int;
                    assert(cu < ncomp);
                    assert(seq_has(corder@, citems@[cu] as int));
                    let tq = choose|tq: int| 0 <= tq < corder@.len() && corder@[tq] == cu;
                    assert(cpos@[corder@[tq] as int] == tq);
                }
            }
        }
    }
    ranks
}

} // verus!
