//! Rank (layer) assignment for the nodes of a diagram, and the ordering of
//! nodes within ranks.
use vstd::prelude::*;
use crate::digraph::{edges_acyclic, edges_below, edges_reach, edge_step, edge_walk, has_edge, key_less, seq_has};
use crate::ir::{copy_edge, DiagramKind, Edge, EdgeStyle, Graph};
use crate::subgraphs::{distinct_count, distinct_upto};
use crate::layering::{
    compute_layers, group_edge, group_order_ok, group_ordered, group_picked, group_ready, layer_tight, least_in_group, same_group,
};
use crate::names::{add_name, find_name, intern, lemma_multiset_map, lex_less, number_names, spellings, str_less};
use crate::ordering::{buckets_below, order_buckets, ordering_passes};

verus! {

/// The value of the first entry of `m` whose name is spelled `s`.
pub open spec fn order_lookup(m: Seq<(String, usize)>, s: Seq<char>) -> Option<usize>
    decreases m.len(),
{
    if m.len() == 0 {
        None
    } else if m[0].0@ == s {
        Some(m[0].1)
    } else {
        order_lookup(m.skip(1), s)
    }
}

/// Value recorded for `name` in `node_order`.
pub fn lookup_order(node_order: &Vec<(String, usize)>, name: &String) -> (res: Option<usize>)
    ensures
        res == order_lookup(node_order@, name@),
{
    let mut i: usize = 0;
    proof {
        assert(node_order@.skip(0) =~= node_order@);
    }
    while i < node_order.len()
        invariant
            i <= node_order.len(),
            order_lookup(node_order@, name@) == order_lookup(node_order@.skip(i as int), name@),
        decreases node_order.len() - i,
    {
        proof {
            assert(node_order@.skip(i as int)[0] == node_order@[i as int]);
            assert(node_order@.skip(i as int).skip(1) =~= node_order@.skip(i + 1));
        }
        if node_order[i].0 == *name {
            return Some(node_order[i].1);
        }
        i += 1;
    }
    None
}

/// Number of entries of `s` before position `upto` that sort before `x`.
pub open spec fn count_sorting_before(s: Seq<Seq<char>>, x: Seq<char>, upto: int) -> nat
    decreases upto,
{
    if upto <= 0 {
        0
    } else {
        count_sorting_before(s, x, upto - 1) + (if lex_less(s[upto - 1], x) {
            1nat
        } else {
            0nat
        })
    }
}

/// Entries sorting before `a` also sort before any `b` after `a`, and `a`
/// itself (if present) sorts before `b` too.
proof fn lemma_count_before_mono(s: Seq<Seq<char>>, a: Seq<char>, b: Seq<char>, upto: int)
    requires
        lex_less(a, b),
        0 <= upto <= s.len(),
    ensures
        count_sorting_before(s, a, upto) <= count_sorting_before(s, b, upto),
        (exists|k: int| 0 <= k < upto && s[k] == a) ==> count_sorting_before(s, a, upto) < count_sorting_before(
            s,
            b,
            upto,
        ),
    decreases upto,
{
    if upto > 0 {
        lemma_count_before_mono(s, a, b, upto - 1);
        if lex_less(s[upto - 1], a) {
            crate::names::lemma_lex_trans(s[upto - 1], a, b);
        }
        crate::routing::lemma_lex_total(a, a);
        if exists|k: int| 0 <= k < upto && s[k] == a {
            let k = choose|k: int| 0 <= k < upto && s[k] == a;
            if k < upto - 1 {
                assert(exists|k2: int| 0 <= k2 < upto - 1 && s[k2] == a);
            }
        }
    }
}

/// How many of `names` sort before `x`.
pub open spec fn name_rank(names: Seq<String>, x: Seq<char>) -> nat {
    count_sorting_before(spellings(names), x, names.len() as int)
}

/// Among distinct names, one has the lower name rank exactly when it
/// comes first in lexicographic order.
pub proof fn lemma_name_rank_order(names: Seq<String>, i: int, j: int)
    requires
        spellings(names).no_duplicates(),
        0 <= i < names.len(),
        0 <= j < names.len(),
        i != j,
    ensures
        name_rank(names, names[i]@) < name_rank(names, names[j]@) <==> lex_less(names[i]@, names[j]@),
        name_rank(names, names[i]@) != name_rank(names, names[j]@),
{
    let s = spellings(names);
    let a = names[i]@;
    let b = names[j]@;
    assert(s[i] == a && s[j] == b);
    assert(a != b);
    crate::routing::lemma_lex_total(a, b);
    if lex_less(a, b) {
        lemma_count_before_mono(s, a, b, names.len() as int);
    } else {
        lemma_count_before_mono(s, b, a, names.len() as int);
    }
}

/// For each name, how many of the names sort before it.
pub(crate) fn sort_positions(names: &Vec<String>) -> (res: Vec<usize>)
    ensures
        res.len() == names.len(),
        forall|t: int|
            0 <= t < names.len() ==> #[trigger] res@[t] == count_sorting_before(
                spellings(names@),
                names@[t]@,
                names.len() as int,
            ),
{
    let mut res: Vec<usize> = Vec::new();
    let mut t: usize = 0;
    while t < names.len()
        invariant
            t <= names.len(),
            res.len() == t,
            forall|q: int|
                0 <= q < t ==> #[trigger] res@[q] == count_sorting_before(
                    spellings(names@),
                    names@[q]@,
                    names.len() as int,
                ),
        decreases names.len() - t,
    {
        let mut count: usize = 0;
        let mut j: usize = 0;
        while j < names.len()
            invariant
                j <= names.len(),
                t < names.len(),
                count == count_sorting_before(spellings(names@), names@[t as int]@, j as int),
                count <= j,
            decreases names.len() - j,
        {
            if str_less(names[j].as_str(), names[t].as_str()) {
                count += 1;
            }
            proof {
                assert(spellings(names@)[j as int] == names@[j as int]@);
            }
            j += 1;
        }
        res.push(count);
        t += 1;
    }
    res
}

/// The node named `a` has an edge to the node named `b`, both among `names`.
pub open spec fn name_edge(names: Seq<Seq<char>>, edges: Seq<Edge>, a: Seq<char>, b: Seq<char>) -> bool {
    &&& names.contains(a)
    &&& names.contains(b)
    &&& exists|k: int| 0 <= k < edges.len() && edges[k].from@ == a && edges[k].to@ == b
}

/// Step `i` of the walk `p` is an edge between nodes of `names`.
pub open spec fn name_step(names: Seq<Seq<char>>, edges: Seq<Edge>, p: Seq<Seq<char>>, i: int) -> bool {
    name_edge(names, edges, p[i], p[i + 1])
}

/// No walk along the edges between nodes of `names` returns to its start.
pub open spec fn names_acyclic(names: Seq<Seq<char>>, edges: Seq<Edge>) -> bool {
    forall|p: Seq<Seq<char>>|
        p.len() >= 2 && (forall|i: int| 0 <= i < p.len() - 1 ==> #[trigger] name_step(names, edges, p, i))
            ==> p[0] != p[p.len() - 1]
}

/// `p` is a walk along the edges between nodes of `names` (one name alone
/// is a walk too).
pub open spec fn names_walk(names: Seq<Seq<char>>, edges: Seq<Edge>, p: Seq<Seq<char>>) -> bool {
    &&& p.len() >= 1
    &&& forall|i: int| 0 <= i < p.len() - 1 ==> #[trigger] name_step(names, edges, p, i)
}

/// The node named `b` is reached from the one named `a` along the edges
/// between nodes of `names` (every name reaches itself).
pub open spec fn names_reach(names: Seq<Seq<char>>, edges: Seq<Edge>, a: Seq<char>, b: Seq<char>) -> bool {
    exists|p: Seq<Seq<char>>| #[trigger] names_walk(names, edges, p) && p[0] == a && p[p.len() - 1] == b
}

/// The nodes named `a` and `b` reach each other along the edges between
/// nodes of `ids`: the same name, or two names on one cycle.
pub open spec fn same_name_group(ids: Seq<String>, edges: Seq<Edge>, a: Seq<char>, b: Seq<char>) -> bool {
    names_reach(spellings(ids), edges, a, b) && names_reach(spellings(ids), edges, b, a)
}

/// Entry `i` has the least rank of its group.
pub open spec fn least_named(ids: Seq<String>, edges: Seq<Edge>, ranks: Seq<usize>, i: int) -> bool {
    forall|j: int| 0 <= j < ids.len() && #[trigger] same_name_group(ids, edges, ids[i]@, ids[j]@) ==> ranks[i] <= ranks[j]
}

/// The rank of entry `i` is as low as the edges allow: unless it is the
/// least of its group, an edge inside the group puts it exactly one below
/// its source; the least of a group has rank 0, or an edge from outside
/// into the group puts its target exactly one below its source.
pub open spec fn rank_tight(ids: Seq<String>, edges: Seq<Edge>, ranks: Seq<usize>, i: int) -> bool {
    &&& least_named(ids, edges, ranks, i) || exists|k: int, j: int|
        0 <= k < edges.len() && 0 <= j < ids.len() && (#[trigger] edges[k]).to@ == ids[i]@ && (#[trigger] ids[j])@
            == edges[k].from@ && same_name_group(ids, edges, edges[k].from@, ids[i]@) && ranks[i] == ranks[j] + 1
    &&& least_named(ids, edges, ranks, i) ==> ranks[i] == 0 || exists|k: int, a: int, b: int|
        0 <= k < edges.len() && 0 <= a < ids.len() && 0 <= b < ids.len() && (#[trigger] ids[a])@ == (#[trigger] edges[k]).from@
            && (#[trigger] ids[b])@ == edges[k].to@ && same_name_group(ids, edges, ids[b]@, ids[i]@) && !same_name_group(
            ids,
            edges,
            ids[a]@,
            ids[b]@,
        ) && ranks[b] == ranks[a] + 1
}

/// A walk along the named edges between listed nodes is a walk among the
/// numbered ones.
proof fn lemma_named_reach(
    names: Seq<String>,
    ids: Seq<String>,
    index: Seq<usize>,
    edges: Seq<Edge>,
    int_edges: Seq<(usize, usize)>,
    x: int,
    y: int,
)
    requires
        spellings(names).no_duplicates(),
        index.len() == ids.len(),
        forall|q: int| 0 <= q < ids.len() ==> #[trigger] index[q] < names.len() && names[index[q] as int]@ == ids[q]@,
        forall|e: int, a: int, b: int|
            #![trigger edges[e], names[a], names[b]]
            0 <= e < edges.len() && 0 <= a < names.len() && 0 <= b < names.len() && names[a]@ == edges[e].from@
                && names[b]@ == edges[e].to@ ==> has_edge(int_edges, a, b),
        0 <= x < names.len(),
        0 <= y < names.len(),
        names_reach(spellings(ids), edges, names[x]@, names[y]@),
    ensures
        edges_reach(int_edges, x, y),
{
    let p = choose|p: Seq<Seq<char>>| #[trigger] names_walk(spellings(ids), edges, p) && p[0] == names[x]@ && p[p.len() - 1]
        == names[y]@;
    assert forall|i: int|
        #![trigger p[i]]
        0 <= i < p.len() implies exists|t: int| 0 <= t < names.len() && #[trigger] names[t]@ == p[i] by {
        if i == 0 {
            assert(names[x]@ == p[0]);
        } else {
            assert(name_step(spellings(ids), edges, p, i - 1));
            assert(spellings(ids).contains(p[i]));
            let j = choose|j: int| 0 <= j < spellings(ids).len() && spellings(ids)[j] == p[i];
            assert(names[index[j] as int]@ == p[i]);
        }
    }
    let q = Seq::new(p.len(), |i: int| choose|t: int| 0 <= t < names.len() && #[trigger] names[t]@ == p[i]);
    assert forall|i: int| 0 <= i < q.len() implies 0 <= #[trigger] q[i] < names.len() && names[q[i]]@ == p[i] by {}
    assert forall|a: int, b: int| 0 <= a < names.len() && 0 <= b < names.len() && names[a]@ == names[b]@ implies a == b by {
        if a != b {
            assert(spellings(names)[a] == spellings(names)[b]);
        }
    }
    assert forall|i: int| 0 <= i < q.len() - 1 implies #[trigger] edge_step(int_edges, q, i) by {
        assert(name_step(spellings(ids), edges, p, i));
        let e = choose|e: int| 0 <= e < edges.len() && edges[e].from@ == p[i] && edges[e].to@ == p[i + 1];
        assert(0 <= q[i] < names.len() && names[q[i]]@ == p[i]);
        assert(0 <= q[i + 1] < names.len() && names[q[i + 1]]@ == p[i + 1]);
        assert(names[q[i]]@ == edges[e].from@ && names[q[i + 1]]@ == edges[e].to@);
        assert(has_edge(int_edges, q[i], q[i + 1]));
    }
    assert(edge_walk(int_edges, q));
    assert(names[q[0]]@ == names[x]@);
    assert(q[0] == x);
    assert(names[q[q.len() - 1]]@ == names[y]@);
    assert(q[q.len() - 1] == y);
}

/// The ranks of the named nodes carry over the tightness of the numbered
/// layers.
proof fn lemma_rank_tight(
    names: Seq<String>,
    ids: Seq<String>,
    index: Seq<usize>,
    edges: Seq<Edge>,
    int_edges: Seq<(usize, usize)>,
    layers: Seq<usize>,
    ranks: Seq<usize>,
    i: int,
)
    requires
        spellings(names).no_duplicates(),
        index.len() == ids.len(),
        forall|q: int| 0 <= q < ids.len() ==> #[trigger] index[q] < names.len() && names[index[q] as int]@ == ids[q]@,
        forall|t: int| 0 <= t < names.len() ==> #[trigger] crate::names::spelled_in(ids, names[t]@, ids.len() as int),
        edges_below(int_edges, names.len() as int),
        forall|q: int| 0 <= q < int_edges.len() ==> edge_names_match(edges, names, #[trigger] int_edges[q]),
        forall|e: int, a: int, b: int|
            #![trigger edges[e], names[a], names[b]]
            0 <= e < edges.len() && 0 <= a < names.len() && 0 <= b < names.len() && names[a]@ == edges[e].from@
                && names[b]@ == edges[e].to@ ==> has_edge(int_edges, a, b),
        layers.len() == names.len(),
        forall|v: int| 0 <= v < names.len() ==> #[trigger] layer_tight(int_edges, layers, names.len() as int, v),
        ranks.len() == ids.len(),
        forall|q: int| 0 <= q < ids.len() ==> #[trigger] ranks[q] == layers[index[q] as int],
        0 <= i < ids.len(),
    ensures
        rank_tight(ids, edges, ranks, i),
{
    let n = names.len() as int;
    let v = index[i] as int;
    assert forall|x: int, y: int| 0 <= x < n && 0 <= y < n implies (#[trigger] same_group(int_edges, x, y)
        <==> same_name_group(ids, edges, names[x]@, names[y]@)) by {
        if same_group(int_edges, x, y) {
            lemma_numbered_reach(names, ids, index, edges, int_edges, x, y);
            lemma_numbered_reach(names, ids, index, edges, int_edges, y, x);
        }
        if same_name_group(ids, edges, names[x]@, names[y]@) {
            lemma_named_reach(names, ids, index, edges, int_edges, x, y);
            lemma_named_reach(names, ids, index, edges, int_edges, y, x);
        }
    }
    assert forall|t: int|
        #![trigger names[t]]
        0 <= t < n implies exists|q: int| 0 <= q < ids.len() && #[trigger] index[q] == t by {
        assert(crate::names::spelled_in(ids, names[t]@, ids.len() as int));
        let q = choose|q: int| 0 <= q < ids.len() && ids[q]@ == names[t]@;
        if index[q] != t {
            assert(spellings(names)[index[q] as int] == spellings(names)[t]);
        }
    }
    assert(layer_tight(int_edges, layers, n, v));
    if least_named(ids, edges, ranks, i) {
        assert forall|w: int| 0 <= w < n && #[trigger] same_group(int_edges, v, w) implies layers[v] <= layers[w] by {
            let q = choose|q: int| 0 <= q < ids.len() && #[trigger] index[q] == w;
            assert(same_name_group(ids, edges, ids[i]@, ids[q]@));
            assert(ranks[i] <= ranks[q]);
        }
        assert(least_in_group(int_edges, layers, n, v));
        if layers[v] != 0 {
            let k = choose|k: int|
                0 <= k < int_edges.len() && same_group(int_edges, (#[trigger] int_edges[k]).1 as int, v) && !same_group(
                    int_edges,
                    int_edges[k].0 as int,
                    int_edges[k].1 as int,
                ) && layers[int_edges[k].1 as int] == layers[int_edges[k].0 as int] + 1;
            let u = int_edges[k].0 as int;
            let w = int_edges[k].1 as int;
            assert(edge_names_match(edges, names, int_edges[k]));
            let e = choose|e: int| 0 <= e < edges.len() && edges[e].from@ == names[u]@ && edges[e].to@ == names[w]@;
            let a = choose|q: int| 0 <= q < ids.len() && #[trigger] index[q] == u;
            let b = choose|q: int| 0 <= q < ids.len() && #[trigger] index[q] == w;
            assert(same_name_group(ids, edges, names[w]@, names[v]@));
            assert(!same_name_group(ids, edges, names[u]@, names[w]@));
            assert(ids[a]@ == edges[e].from@ && ids[b]@ == edges[e].to@);
            assert(ranks[b] == ranks[a] + 1);
        }
    } else {
        assert(!least_in_group(int_edges, layers, n, v)) by {
            if least_in_group(int_edges, layers, n, v) {
                assert forall|j: int| 0 <= j < ids.len() && #[trigger] same_name_group(ids, edges, ids[i]@, ids[j]@)
                    implies ranks[i] <= ranks[j] by {
                    assert(same_group(int_edges, v, index[j] as int));
                }
            }
        }
        let k = choose|k: int|
            0 <= k < int_edges.len() && (#[trigger] int_edges[k]).1 == v && same_group(int_edges, int_edges[k].0 as int, v)
                && layers[v] == layers[int_edges[k].0 as int] + 1;
        let u = int_edges[k].0 as int;
        assert(edge_names_match(edges, names, int_edges[k]));
        let e = choose|e: int| 0 <= e < edges.len() && edges[e].from@ == names[u]@ && edges[e].to@ == names[v]@;
        let j = choose|q: int| 0 <= q < ids.len() && #[trigger] index[q] == u;
        assert(same_name_group(ids, edges, names[u]@, names[v]@));
        assert(edges[e].to@ == ids[i]@ && ids[j]@ == edges[e].from@);
        assert(ranks[i] == ranks[j] + 1);
    }
}

/// Some edge runs from the node spelled like `names[pair.0]` to the one
/// spelled like `names[pair.1]`.
pub open spec fn edge_names_match(edges: Seq<Edge>, names: Seq<String>, pair: (usize, usize)) -> bool {
    exists|e: int|
        0 <= e < edges.len() && edges[e].from@ == names[pair.0 as int]@ && edges[e].to@ == names[pair.1 as int]@
}

/// The last position in `ids` of an entry spelled `s` (0 when there is none).
pub open spec fn last_spelled(ids: Seq<String>, s: Seq<char>) -> int
    decreases ids.len(),
{
    if ids.len() == 0 {
        0
    } else if ids.last()@ == s {
        ids.len() - 1
    } else {
        last_spelled(ids.drop_last(), s)
    }
}

/// Where the node named `s` stands in line inside its group: its
/// `node_order` value, or, when `node_order` has none, its last position in
/// `ids`.
pub open spec fn subset_key(ids: Seq<String>, node_order: Seq<(String, usize)>, s: Seq<char>) -> int {
    match order_lookup(node_order, s) {
        Some(v) => v as int,
        None => last_spelled(ids, s),
    }
}

/// The node named `a` goes before the one named `b`: a lower `subset_key`,
/// or the same one and a name that sorts first.
pub open spec fn name_key_less(ids: Seq<String>, node_order: Seq<(String, usize)>, a: Seq<char>, b: Seq<char>) -> bool {
    subset_key(ids, node_order, a) < subset_key(ids, node_order, b) || (subset_key(ids, node_order, a) == subset_key(
        ids,
        node_order,
        b,
    ) && lex_less(a, b))
}

/// An edge runs from the node named `a` to the one named `b`, both among
/// `ids` and in one group.
pub open spec fn name_group_edge(ids: Seq<String>, edges: Seq<Edge>, a: Seq<char>, b: Seq<char>) -> bool {
    name_edge(spellings(ids), edges, a, b) && same_name_group(ids, edges, a, b)
}

/// `y` is one of `members`, not in `placed`, and all its predecessors in
/// its group are in `placed`.
pub open spec fn name_ready(
    ids: Seq<String>,
    edges: Seq<Edge>,
    members: Seq<Seq<char>>,
    placed: Seq<Seq<char>>,
    y: Seq<char>,
) -> bool {
    &&& members.contains(y)
    &&& !placed.contains(y)
    &&& forall|p: Seq<char>| #[trigger] name_group_edge(ids, edges, p, y) ==> placed.contains(p)
}

/// After `placed`, `x` is the member that goes next: the first by
/// `name_key_less` among the ready members, or, when none is ready, among
/// all members not yet placed.
pub open spec fn name_picked(
    ids: Seq<String>,
    edges: Seq<Edge>,
    node_order: Seq<(String, usize)>,
    members: Seq<Seq<char>>,
    placed: Seq<Seq<char>>,
    x: Seq<char>,
) -> bool {
    if exists|y: Seq<char>| #[trigger] name_ready(ids, edges, members, placed, y) {
        &&& name_ready(ids, edges, members, placed, x)
        &&& forall|y: Seq<char>| #[trigger] name_ready(ids, edges, members, placed, y) ==> !name_key_less(ids, node_order, y, x)
    } else {
        &&& members.contains(x)
        &&& !placed.contains(x)
        &&& forall|y: Seq<char>| #[trigger] members.contains(y) && !placed.contains(y) ==> !name_key_less(ids, node_order, y, x)
    }
}

/// The rank of the entries named `s`.
pub open spec fn named_rank(ids: Seq<String>, ranks: Seq<usize>, s: Seq<char>) -> int {
    ranks[choose|j: int| 0 <= j < ids.len() && ids[j]@ == s] as int
}

/// `o` lists the names of the group of entry `i` once each, in topological
/// order along the group's own edges, the first by `name_key_less` going
/// next among the ready members (among all unplaced ones when none is
/// ready); and the ranks of the group follow `o`: each member has the rank
/// of `o`'s first, or exactly one more than an earlier member with an edge
/// into it, and every edge forward in `o` goes down at least one rank.
pub open spec fn name_order_ok(
    ids: Seq<String>,
    edges: Seq<Edge>,
    node_order: Seq<(String, usize)>,
    ranks: Seq<usize>,
    i: int,
    o: Seq<Seq<char>>,
) -> bool {
    &&& o.len() >= 1
    &&& o.no_duplicates()
    &&& forall|k: int|
        0 <= k < o.len() ==> spellings(ids).contains(#[trigger] o[k]) && same_name_group(ids, edges, ids[i]@, o[k])
    &&& forall|j: int| 0 <= j < ids.len() && #[trigger] same_name_group(ids, edges, ids[i]@, ids[j]@) ==> o.contains(ids[j]@)
    &&& forall|t: int| 0 <= t < o.len() ==> #[trigger] name_picked(ids, edges, node_order, o, o.take(t), o[t])
    &&& forall|q: int|
        0 <= q < o.len() ==> #[trigger] named_rank(ids, ranks, o[q]) == named_rank(ids, ranks, o[0]) || exists|a: int|
            0 <= a < q && #[trigger] name_group_edge(ids, edges, o[a], o[q]) && named_rank(ids, ranks, o[q]) == named_rank(
                ids,
                ranks,
                o[a],
            ) + 1
    &&& forall|a: int, b: int|
        0 <= a < b < o.len() && #[trigger] name_group_edge(ids, edges, o[a], o[b]) ==> named_rank(ids, ranks, o[b])
            >= named_rank(ids, ranks, o[a]) + 1
}

/// The group of entry `i` is ranked along its order.
pub open spec fn name_group_ordered(
    ids: Seq<String>,
    edges: Seq<Edge>,
    node_order: Seq<(String, usize)>,
    ranks: Seq<usize>,
    i: int,
) -> bool {
    exists|o: Seq<Seq<char>>| #[trigger] name_order_ok(ids, edges, node_order, ranks, i, o)
}

/// How the numbered vertices stand for the named nodes.
spec fn numbering_ok(
    names: Seq<String>,
    ids: Seq<String>,
    index: Seq<usize>,
    edges: Seq<Edge>,
    int_edges: Seq<(usize, usize)>,
) -> bool {
    &&& spellings(names).no_duplicates()
    &&& index.len() == ids.len()
    &&& forall|q: int| 0 <= q < ids.len() ==> #[trigger] index[q] < names.len() && names[index[q] as int]@ == ids[q]@
    &&& forall|t: int| 0 <= t < names.len() ==> #[trigger] crate::names::spelled_in(ids, names[t]@, ids.len() as int)
    &&& edges_below(int_edges, names.len() as int)
    &&& forall|q: int| 0 <= q < int_edges.len() ==> edge_names_match(edges, names, #[trigger] int_edges[q])
    &&& forall|e: int, a: int, b: int|
        #![trigger edges[e], names[a], names[b]]
        0 <= e < edges.len() && 0 <= a < names.len() && 0 <= b < names.len() && names[a]@ == edges[e].from@
            && names[b]@ == edges[e].to@ ==> has_edge(int_edges, a, b)
}

/// The names of the vertices `o`.
spec fn name_list(names: Seq<String>, o: Seq<usize>) -> Seq<Seq<char>> {
    o.map_values(|t: usize| names[t as int]@)
}

proof fn lemma_name_list_has(names: Seq<String>, o: Seq<usize>)
    requires
        spellings(names).no_duplicates(),
        forall|k: int| 0 <= k < o.len() ==> #[trigger] o[k] < names.len(),
    ensures
        forall|y: int|
            #![trigger seq_has(o, y)]
            #![trigger name_list(names, o).contains(names[y]@)]
            0 <= y < names.len() ==> (seq_has(o, y) <==> name_list(names, o).contains(names[y]@)),
{
    let os = name_list(names, o);
    assert forall|y: int| 0 <= y < names.len() implies (seq_has(o, y) <==> os.contains(names[y]@)) by {
        if seq_has(o, y) {
            let k = choose|k: int| 0 <= k < o.len() && o[k] == y;
            assert(os[k] == names[y]@);
        }
        if os.contains(names[y]@) {
            let k = choose|k: int| 0 <= k < os.len() && os[k] == names[y]@;
            if o[k] != y {
                assert(spellings(names)[o[k] as int] == spellings(names)[y]);
            }
        }
    }
}

/// Edges and groups among the numbered vertices are those among the named
/// nodes.
proof fn lemma_group_edge_names(
    names: Seq<String>,
    ids: Seq<String>,
    index: Seq<usize>,
    edges: Seq<Edge>,
    int_edges: Seq<(usize, usize)>,
)
    requires
        numbering_ok(names, ids, index, edges, int_edges),
    ensures
        forall|x: int, y: int|
            #![trigger same_group(int_edges, x, y)]
            #![trigger same_name_group(ids, edges, names[x]@, names[y]@)]
            0 <= x < names.len() && 0 <= y < names.len() ==> (same_group(int_edges, x, y) <==> same_name_group(
                ids,
                edges,
                names[x]@,
                names[y]@,
            )),
        forall|x: int, y: int|
            #![trigger group_edge(int_edges, x, y)]
            #![trigger name_group_edge(ids, edges, names[x]@, names[y]@)]
            0 <= x < names.len() && 0 <= y < names.len() ==> (group_edge(int_edges, x, y) <==> name_group_edge(
                ids,
                edges,
                names[x]@,
                names[y]@,
            )),
{
    let n = names.len() as int;
    assert forall|x: int, y: int| 0 <= x < n && 0 <= y < n implies (same_group(int_edges, x, y)
        <==> same_name_group(ids, edges, names[x]@, names[y]@)) by {
        if same_group(int_edges, x, y) {
            lemma_numbered_reach(names, ids, index, edges, int_edges, x, y);
            lemma_numbered_reach(names, ids, index, edges, int_edges, y, x);
        }
        if same_name_group(ids, edges, names[x]@, names[y]@) {
            lemma_named_reach(names, ids, index, edges, int_edges, x, y);
            lemma_named_reach(names, ids, index, edges, int_edges, y, x);
        }
    }
    assert forall|x: int, y: int| 0 <= x < n && 0 <= y < n implies (has_edge(int_edges, x, y) <==> name_edge(
        spellings(ids),
        edges,
        names[x]@,
        names[y]@,
    )) by {
        if has_edge(int_edges, x, y) {
            let q = choose|q: int| 0 <= q < int_edges.len() && int_edges[q].0 == x && int_edges[q].1 == y;
            assert(edge_names_match(edges, names, int_edges[q]));
            lemma_name_listed(names, ids, x);
            lemma_name_listed(names, ids, y);
        }
        if name_edge(spellings(ids), edges, names[x]@, names[y]@) {
            let e = choose|e: int| 0 <= e < edges.len() && edges[e].from@ == names[x]@ && edges[e].to@ == names[y]@;
            assert(has_edge(int_edges, x, y));
        }
    }
}

/// The order of the numbered vertices by `(key, tie)` is that of their
/// names by `name_key_less`.
proof fn lemma_key_names(
    names: Seq<String>,
    ids: Seq<String>,
    node_order: Seq<(String, usize)>,
    key: Seq<usize>,
    tie: Seq<usize>,
)
    requires
        spellings(names).no_duplicates(),
        key.len() == names.len(),
        tie.len() == names.len(),
        forall|t: int| 0 <= t < names.len() ==> #[trigger] key[t] as int == subset_key(ids, node_order, names[t]@),
        forall|t: int| 0 <= t < names.len() ==> #[trigger] tie[t] as int == name_rank(names, names[t]@),
    ensures
        forall|x: int, y: int|
            #![trigger key_less(key, tie, x, y)]
            #![trigger name_key_less(ids, node_order, names[x]@, names[y]@)]
            0 <= x < names.len() && 0 <= y < names.len() ==> (key_less(key, tie, x, y) <==> name_key_less(
                ids,
                node_order,
                names[x]@,
                names[y]@,
            )),
{
    assert forall|x: int, y: int| 0 <= x < names.len() && 0 <= y < names.len() implies (key_less(key, tie, x, y)
        <==> name_key_less(ids, node_order, names[x]@, names[y]@)) by {
        assert(key[x] as int == subset_key(ids, node_order, names[x]@));
        assert(key[y] as int == subset_key(ids, node_order, names[y]@));
        assert(tie[x] as int == name_rank(names, names[x]@));
        assert(tie[y] as int == name_rank(names, names[y]@));
        if x == y {
            crate::routing::lemma_lex_total(names[x]@, names[x]@);
        } else {
            lemma_name_rank_order(names, x, y);
        }
    }
}

proof fn lemma_named_rank(
    names: Seq<String>,
    ids: Seq<String>,
    index: Seq<usize>,
    layers: Seq<usize>,
    ranks: Seq<usize>,
    t: int,
)
    requires
        spellings(names).no_duplicates(),
        index.len() == ids.len(),
        forall|q: int| 0 <= q < ids.len() ==> #[trigger] index[q] < names.len() && names[index[q] as int]@ == ids[q]@,
        forall|t2: int| 0 <= t2 < names.len() ==> #[trigger] crate::names::spelled_in(ids, names[t2]@, ids.len() as int),
        ranks.len() == ids.len(),
        forall|q: int| 0 <= q < ids.len() ==> #[trigger] ranks[q] == layers[index[q] as int],
        0 <= t < names.len(),
    ensures
        named_rank(ids, ranks, names[t]@) == layers[t],
{
    assert(crate::names::spelled_in(ids, names[t]@, ids.len() as int));
    let j = choose|j: int| 0 <= j < ids.len() && ids[j]@ == names[t]@;
    if index[j] != t {
        assert(spellings(names)[index[j] as int] == spellings(names)[t]);
    }
    assert(ranks[j] == layers[t]);
}

/// The pick of the numbered order at step `t` is the pick among the names.
proof fn lemma_picked_names(
    names: Seq<String>,
    ids: Seq<String>,
    index: Seq<usize>,
    edges: Seq<Edge>,
    int_edges: Seq<(usize, usize)>,
    node_order: Seq<(String, usize)>,
    key: Seq<usize>,
    tie: Seq<usize>,
    o: Seq<usize>,
    t: int,
)
    requires
        numbering_ok(names, ids, index, edges, int_edges),
        key.len() == names.len(),
        tie.len() == names.len(),
        forall|t2: int| 0 <= t2 < names.len() ==> #[trigger] key[t2] as int == subset_key(ids, node_order, names[t2]@),
        forall|t2: int| 0 <= t2 < names.len() ==> #[trigger] tie[t2] as int == name_rank(names, names[t2]@),
        forall|k: int| 0 <= k < o.len() ==> #[trigger] o[k] < names.len(),
        0 <= t < o.len(),
        group_picked(int_edges, key, tie, o, o.take(t), o[t] as int),
    ensures
        name_picked(ids, edges, node_order, name_list(names, o), name_list(names, o).take(t), names[o[t] as int]@),
{
    let n = names.len() as int;
    let os = name_list(names, o);
    let pl = o.take(t);
    let ps = os.take(t);
    assert(ps =~= name_list(names, pl));
    lemma_name_list_has(names, o);
    lemma_name_list_has(names, pl);
    lemma_group_edge_names(names, ids, index, edges, int_edges);
    lemma_key_names(names, ids, node_order, key, tie);
    let x = o[t] as int;
    assert forall|y: int| 0 <= y < n implies (#[trigger] group_ready(int_edges, o, pl, y) <==> name_ready(
        ids,
        edges,
        os,
        ps,
        names[y]@,
    )) by {
        assert(seq_has(o, y) <==> os.contains(names[y]@));
        assert(seq_has(pl, y) <==> ps.contains(names[y]@));
        if group_ready(int_edges, o, pl, y) {
            assert forall|p: Seq<char>| #[trigger] name_group_edge(ids, edges, p, names[y]@) implies ps.contains(p) by {
                assert(spellings(ids).contains(p));
                let j = choose|j: int| 0 <= j < spellings(ids).len() && spellings(ids)[j] == p;
                let q = index[j] as int;
                assert(names[q]@ == p);
                assert(name_group_edge(ids, edges, names[q]@, names[y]@));
                assert(group_edge(int_edges, q, y));
                assert(seq_has(pl, q));
                assert(ps.contains(names[q]@));
            }
        }
        if name_ready(ids, edges, os, ps, names[y]@) {
            assert forall|p: int| #[trigger] group_edge(int_edges, p, y) implies seq_has(pl, p) by {
                let k = choose|k: int| 0 <= k < int_edges.len() && int_edges[k].0 == p && int_edges[k].1 == y;
                assert(int_edges[k].0 < n);
                assert(name_group_edge(ids, edges, names[p]@, names[y]@));
                assert(ps.contains(names[p]@));
            }
        }
    }
    assert forall|s: Seq<char>| #[trigger] os.contains(s) implies exists|y: int|
        0 <= y < n && seq_has(o, y) && #[trigger] names[y]@ == s by {
        let k = choose|k: int| 0 <= k < os.len() && os[k] == s;
        assert(seq_has(o, o[k] as int));
        assert(names[o[k] as int]@ == s);
    }
    assert(seq_has(o, x));
    assert(!seq_has(pl, x) <==> !ps.contains(names[x]@));
    if exists|y: int| #[trigger] group_ready(int_edges, o, pl, y) {
        let y0 = choose|y: int| #[trigger] group_ready(int_edges, o, pl, y);
        let k0 = choose|k: int| 0 <= k < o.len() && o[k] == y0;
        assert(0 <= y0 < n);
        assert(name_ready(ids, edges, os, ps, names[y0]@));
        assert(group_ready(int_edges, o, pl, x));
        assert(name_ready(ids, edges, os, ps, names[x]@));
        assert forall|s: Seq<char>| #[trigger] name_ready(ids, edges, os, ps, s) implies !name_key_less(
            ids,
            node_order,
            s,
            names[x]@,
        ) by {
            let y = choose|y: int| 0 <= y < n && seq_has(o, y) && #[trigger] names[y]@ == s;
            assert(group_ready(int_edges, o, pl, y));
            assert(!key_less(key, tie, y, x));
        }
    } else {
        assert forall|s: Seq<char>| !#[trigger] name_ready(ids, edges, os, ps, s) by {
            if name_ready(ids, edges, os, ps, s) {
                let y = choose|y: int| 0 <= y < n && seq_has(o, y) && #[trigger] names[y]@ == s;
                assert(group_ready(int_edges, o, pl, y));
            }
        }
        assert(!seq_has(pl, x));
        assert forall|s: Seq<char>| #[trigger] os.contains(s) && !ps.contains(s) implies !name_key_less(
            ids,
            node_order,
            s,
            names[x]@,
        ) by {
            let y = choose|y: int| 0 <= y < n && seq_has(o, y) && #[trigger] names[y]@ == s;
            assert(!seq_has(pl, y));
            assert(!key_less(key, tie, y, x));
        }
    }
}

/// The group of entry `i` is ranked along the names of the numbered order
/// of its vertex.
proof fn lemma_name_group_ordered(
    names: Seq<String>,
    ids: Seq<String>,
    index: Seq<usize>,
    edges: Seq<Edge>,
    int_edges: Seq<(usize, usize)>,
    node_order: Seq<(String, usize)>,
    key: Seq<usize>,
    tie: Seq<usize>,
    layers: Seq<usize>,
    ranks: Seq<usize>,
    i: int,
)
    requires
        numbering_ok(names, ids, index, edges, int_edges),
        key.len() == names.len(),
        tie.len() == names.len(),
        forall|t2: int| 0 <= t2 < names.len() ==> #[trigger] key[t2] as int == subset_key(ids, node_order, names[t2]@),
        forall|t2: int| 0 <= t2 < names.len() ==> #[trigger] tie[t2] as int == name_rank(names, names[t2]@),
        layers.len() == names.len(),
        ranks.len() == ids.len(),
        forall|q: int| 0 <= q < ids.len() ==> #[trigger] ranks[q] == layers[index[q] as int],
        0 <= i < ids.len(),
        group_ordered(int_edges, key, tie, layers, names.len() as int, index[i] as int),
    ensures
        name_group_ordered(ids, edges, node_order, ranks, i),
{
    let n = names.len() as int;
    let v = index[i] as int;
    let o = choose|o: Seq<usize>| #[trigger] group_order_ok(int_edges, key, tie, layers, n, v, o);
    let os = name_list(names, o);
    assert forall|k: int| 0 <= k < o.len() implies #[trigger] o[k] < names.len() by {}
    lemma_name_list_has(names, o);
    lemma_group_edge_names(names, ids, index, edges, int_edges);
    assert forall|t: int| 0 <= t < n implies #[trigger] named_rank(ids, ranks, names[t]@) == layers[t] by {
        lemma_named_rank(names, ids, index, layers, ranks, t);
    }
    assert(names[v]@ == ids[i]@);
    assert forall|a: int, b: int| 0 <= a < os.len() && 0 <= b < os.len() && a != b implies os[a] != os[b] by {
        if os[a] == os[b] {
            assert(spellings(names)[o[a] as int] == spellings(names)[o[b] as int]);
        }
    }
    assert forall|k: int| 0 <= k < os.len() implies spellings(ids).contains(#[trigger] os[k]) && same_name_group(
        ids,
        edges,
        ids[i]@,
        os[k],
    ) by {
        lemma_name_listed(names, ids, o[k] as int);
        assert(same_group(int_edges, v, o[k] as int));
    }
    assert forall|j: int| 0 <= j < ids.len() && #[trigger] same_name_group(ids, edges, ids[i]@, ids[j]@) implies os.contains(
        ids[j]@,
    ) by {
        let w = index[j] as int;
        assert(names[w]@ == ids[j]@);
        assert(same_group(int_edges, v, w));
        assert(seq_has(o, w));
    }
    assert forall|t: int| 0 <= t < os.len() implies #[trigger] name_picked(ids, edges, node_order, os, os.take(t), os[t]) by {
        assert(group_picked(int_edges, key, tie, o, o.take(t), o[t] as int));
        lemma_picked_names(names, ids, index, edges, int_edges, node_order, key, tie, o, t);
    }
    assert forall|q: int| 0 <= q < os.len() implies #[trigger] named_rank(ids, ranks, os[q]) == named_rank(ids, ranks, os[0])
        || exists|a: int|
        0 <= a < q && #[trigger] name_group_edge(ids, edges, os[a], os[q]) && named_rank(ids, ranks, os[q]) == named_rank(
            ids,
            ranks,
            os[a],
        ) + 1 by {
        assert(named_rank(ids, ranks, names[o[q] as int]@) == layers[o[q] as int]);
        assert(named_rank(ids, ranks, names[o[0] as int]@) == layers[o[0] as int]);
        if layers[o[q] as int] != layers[o[0] as int] {
            let a = choose|a: int|
                0 <= a < q && #[trigger] group_edge(int_edges, o[a] as int, o[q] as int) && layers[o[q] as int]
                    == layers[o[a] as int] + 1;
            assert(name_group_edge(ids, edges, names[o[a] as int]@, names[o[q] as int]@));
            assert(named_rank(ids, ranks, names[o[a] as int]@) == layers[o[a] as int]);
            assert(name_group_edge(ids, edges, os[a], os[q]));
        }
    }
    assert forall|a: int, b: int|
        0 <= a < b < os.len() && #[trigger] name_group_edge(ids, edges, os[a], os[b]) implies named_rank(ids, ranks, os[b])
            >= named_rank(ids, ranks, os[a]) + 1 by {
        assert(name_group_edge(ids, edges, names[o[a] as int]@, names[o[b] as int]@));
        assert(group_edge(int_edges, o[a] as int, o[b] as int));
        assert(named_rank(ids, ranks, names[o[a] as int]@) == layers[o[a] as int]);
        assert(named_rank(ids, ranks, names[o[b] as int]@) == layers[o[b] as int]);
    }
    assert(name_order_ok(ids, edges, node_order, ranks, i, os));
}

/// Ranks (layers) of the nodes `node_ids`, one per entry, using only the
/// edges between two of them. Strongly connected groups are ordered
/// topologically (ties by the least `node_order` value of their nodes, a
/// node missing from `node_order` counting its last position in
/// `node_ids`); each group is layered along its own topological order (ties
/// by that value, then by name: `name_group_ordered`), and placed so that every edge leaving it
/// goes down at least one rank. Entries with the same name get the same
/// rank, and when those edges have no cycle, every one of them goes down
/// at least one rank. No rank is higher than needed (`rank_tight`): on a
/// graph without cycles this is the longest path from a source.
pub fn compute_ranks_subset(node_ids: &Vec<String>, edges: &Vec<Edge>, node_order: &Vec<(String, usize)>) -> (ranks: Vec<usize>)
    ensures
        ranks.len() == node_ids.len(),
        forall|i: int| 0 <= i < node_ids.len() ==> #[trigger] ranks@[i] < node_ids.len(),
        forall|i: int, j: int|
            0 <= i < node_ids.len() && 0 <= j < node_ids.len() && node_ids@[i]@ == node_ids@[j]@
                ==> #[trigger] ranks@[i] == #[trigger] ranks@[j],
        forall|k: int, i: int, j: int|
            #![trigger edges@[k], ranks@[i], ranks@[j]]
            0 <= k < edges.len() && 0 <= i < node_ids.len() && 0 <= j < node_ids.len()
                && node_ids@[i]@ == edges@[k].from@ && node_ids@[j]@ == edges@[k].to@
                && !names_reach(spellings(node_ids@), edges@, edges@[k].to@, edges@[k].from@)
                ==> ranks@[j] >= ranks@[i] + 1,
        names_acyclic(spellings(node_ids@), edges@) ==> forall|k: int, i: int, j: int|
            #![trigger edges@[k], ranks@[i], ranks@[j]]
            0 <= k < edges.len() && 0 <= i < node_ids.len() && 0 <= j < node_ids.len()
                && node_ids@[i]@ == edges@[k].from@ && node_ids@[j]@ == edges@[k].to@
                ==> ranks@[j] >= ranks@[i] + 1,
        forall|i: int| 0 <= i < node_ids.len() ==> #[trigger] rank_tight(node_ids@, edges@, ranks@, i),
        forall|i: int| 0 <= i < node_ids.len() ==> #[trigger] name_group_ordered(node_ids@, edges@, node_order@, ranks@, i),
{
    let (names, index) = number_names(node_ids);
    let n = names.len();
    proof {
        lemma_distinct_spellings_len(names@, node_ids@, index@);
    }
    // last position of each name in `node_ids`
    let mut last_pos: Vec<usize> = Vec::new();
    let mut t: usize = 0;
    while t < n
        invariant
            t <= n,
            last_pos.len() == t,
            forall|q: int| 0 <= q < t ==> #[trigger] last_pos@[q] == 0,
        decreases n - t,
    {
        last_pos.push(0);
        t += 1;
    }
    let mut i: usize = 0;
    while i < node_ids.len()
        invariant
            i <= node_ids.len(),
            last_pos.len() == n,
            n == names.len(),
            index.len() == node_ids.len(),
            spellings(names@).no_duplicates(),
            forall|q: int|
                0 <= q < node_ids.len() ==> #[trigger] index@[q] < n && names@[index@[q] as int]@ == node_ids@[q]@,
            forall|t2: int|
                0 <= t2 < n ==> #[trigger] last_pos@[t2] as int == last_spelled(node_ids@.take(i as int), names@[t2]@),
        decreases node_ids.len() - i,
    {
        let ghost lp0 = last_pos@;
        last_pos.set(index[i], i);
        proof {
            let tk = node_ids@.take(i + 1);
            assert(tk.drop_last() =~= node_ids@.take(i as int));
            assert(tk.last() == node_ids@[i as int]);
            assert forall|t2: int| 0 <= t2 < n implies #[trigger] last_pos@[t2] as int == last_spelled(tk, names@[t2]@) by {
                if t2 != index@[i as int] as int {
                    assert(last_pos@[t2] == lp0[t2]);
                    if node_ids@[i as int]@ == names@[t2]@ {
                        assert(spellings(names@)[t2] == spellings(names@)[index@[i as int] as int]);
                    }
                }
            }
        }
        i += 1;
    }
    proof {
        assert(node_ids@.take(node_ids.len() as int) =~= node_ids@);
    }
    let mut key: Vec<usize> = Vec::new();
    let mut t: usize = 0;
    while t < n
        invariant
            t <= n,
            key.len() == t,
            last_pos.len() == n,
            names.len() == n,
            forall|t2: int| 0 <= t2 < n ==> #[trigger] last_pos@[t2] as int == last_spelled(node_ids@, names@[t2]@),
            forall|q: int| 0 <= q < t ==> #[trigger] key@[q] as int == subset_key(node_ids@, node_order@, names@[q]@),
        decreases n - t,
    {
        match lookup_order(node_order, &names[t]) {
            Some(v) => key.push(v),
            None => key.push(last_pos[t]),
        }
        t += 1;
    }
    let tie = sort_positions(&names);
    // the edges between two of the nodes, by number
    let mut int_edges: Vec<(usize, usize)> = Vec::new();
    let mut k: usize = 0;
    while k < edges.len()
        invariant
            k <= edges.len(),
            n == names.len(),
            spellings(names@).no_duplicates(),
            edges_below(int_edges@, n as int),
            forall|q: int|
                0 <= q < int_edges@.len() ==> edge_names_match(edges@, names@, #[trigger] int_edges@[q]),
            forall|e: int, a: int, b: int|
                #![trigger edges@[e], names@[a], names@[b]]
                0 <= e < k && 0 <= a < n && 0 <= b < n && names@[a]@ == edges@[e].from@
                    && names@[b]@ == edges@[e].to@ ==> has_edge(int_edges@, a, b),
        decreases edges.len() - k,
    {
        let fa = find_name(&names, &edges[k].from);
        let fb = find_name(&names, &edges[k].to);
        let ghost ie0 = int_edges@;
        match (fa, fb) {
            (Some(a), Some(b)) => {
                int_edges.push((a, b));
            },
            _ => {},
        }
        proof {
            assert forall|q: int|
                0 <= q < int_edges@.len() implies edge_names_match(edges@, names@, #[trigger] int_edges@[q]) by {
                if q < ie0.len() {
                    assert(int_edges@[q] == ie0[q]);
                } else {
                    assert(edges@[k as int].from@ == names@[int_edges@[q].0 as int]@);
                }
            }
            assert forall|e: int, a: int, b: int|
                #![trigger edges@[e], names@[a], names@[b]]
                0 <= e < k + 1 && 0 <= a < n && 0 <= b < n && names@[a]@ == edges@[e].from@
                    && names@[b]@ == edges@[e].to@ implies has_edge(int_edges@, a, b) by {
                if e < k {
                    let q = choose|q: int| 0 <= q < ie0.len() && ie0[q].0 == a && ie0[q].1 == b;
                    assert(int_edges@[q] == ie0[q]);
                } else {
                    match (fa, fb) {
                        (Some(a2), Some(b2)) => {
                            if a2 != a {
                                assert(spellings(names@)[a2 as int] == spellings(names@)[a]);
                            }
                            if b2 != b {
                                assert(spellings(names@)[b2 as int] == spellings(names@)[b]);
                            }
                            assert(int_edges@[ie0.len() as int] == (a2, b2));
                        },
                        (None, _) => {
                            assert(names@[a]@ != edges@[k as int].from@);
                        },
                        (_, None) => {
                            assert(names@[b]@ != edges@[k as int].to@);
                        },
                    }
                }
            }
        }
        k += 1;
    }
    let layers = compute_layers(n, &int_edges, &key, &tie);
    let mut ranks: Vec<usize> = Vec::new();
    let mut i: usize = 0;
    while i < node_ids.len()
        invariant
            i <= node_ids.len(),
            ranks.len() == i,
            layers.len() == n,
            index.len() == node_ids.len(),
            forall|q: int| 0 <= q < node_ids.len() ==> #[trigger] index@[q] < n,
            forall|q: int| 0 <= q < i ==> #[trigger] ranks@[q] == layers@[index@[q] as int],
        decreases node_ids.len() - i,
    {
        ranks.push(layers[index[i]]);
        i += 1;
    }
    proof {
        assert forall|i1: int, j1: int|
            0 <= i1 < node_ids.len() && 0 <= j1 < node_ids.len() && node_ids@[i1]@ == node_ids@[j1]@
                implies #[trigger] ranks@[i1] == #[trigger] ranks@[j1] by {
            if index@[i1] != index@[j1] {
                assert(spellings(names@)[index@[i1] as int] == spellings(names@)[index@[j1] as int]);
            }
        }
        assert forall|k2: int, i1: int, j1: int|
            #![trigger edges@[k2], ranks@[i1], ranks@[j1]]
            0 <= k2 < edges.len() && 0 <= i1 < node_ids.len() && 0 <= j1 < node_ids.len()
                && node_ids@[i1]@ == edges@[k2].from@ && node_ids@[j1]@ == edges@[k2].to@
                && !names_reach(spellings(node_ids@), edges@, edges@[k2].to@, edges@[k2].from@)
                implies ranks@[j1] >= ranks@[i1] + 1 by {
            let a = index@[i1] as int;
            let b = index@[j1] as int;
            assert(names@[a]@ == edges@[k2].from@);
            assert(names@[b]@ == edges@[k2].to@);
            assert(has_edge(int_edges@, a, b));
            let q = choose|q: int| 0 <= q < int_edges@.len() && int_edges@[q].0 == a && int_edges@[q].1 == b;
            if edges_reach(int_edges@, b, a) {
                lemma_numbered_reach(names@, node_ids@, index@, edges@, int_edges@, b, a);
            }
            assert(layers@[int_edges@[q].1 as int] >= layers@[int_edges@[q].0 as int] + 1);
        }
        assert forall|i1: int| 0 <= i1 < node_ids.len() implies #[trigger] rank_tight(node_ids@, edges@, ranks@, i1) by {
            lemma_rank_tight(names@, node_ids@, index@, edges@, int_edges@, layers@, ranks@, i1);
        }
        assert(numbering_ok(names@, node_ids@, index@, edges@, int_edges@));
        assert forall|i1: int| 0 <= i1 < node_ids.len() implies #[trigger] name_group_ordered(
            node_ids@,
            edges@,
            node_order@,
            ranks@,
            i1,
        ) by {
            assert(group_ordered(int_edges@, key@, tie@, layers@, n as int, index@[i1] as int));
            lemma_name_group_ordered(
                names@,
                node_ids@,
                index@,
                edges@,
                int_edges@,
                node_order@,
                key@,
                tie@,
                layers@,
                ranks@,
                i1,
            );
        }
        if names_acyclic(spellings(node_ids@), edges@) {
            lemma_numbered_acyclic(names@, node_ids@, index@, edges@, int_edges@);
            assert forall|k2: int, i1: int, j1: int|
                #![trigger edges@[k2], ranks@[i1], ranks@[j1]]
                0 <= k2 < edges.len() && 0 <= i1 < node_ids.len() && 0 <= j1 < node_ids.len()
                    && node_ids@[i1]@ == edges@[k2].from@ && node_ids@[j1]@ == edges@[k2].to@
                    implies ranks@[j1] >= ranks@[i1] + 1 by {
                let a = index@[i1] as int;
                let b = index@[j1] as int;
                assert(names@[a]@ == edges@[k2].from@);
                assert(names@[b]@ == edges@[k2].to@);
                assert(has_edge(int_edges@, a, b));
                let q = choose|q: int| 0 <= q < int_edges@.len() && int_edges@[q].0 == a && int_edges@[q].1 == b;
                assert(layers@[int_edges@[q].1 as int] >= layers@[int_edges@[q].0 as int] + 1);
            }
        }
    }
    ranks
}

/// The distinct spellings number at most the entries they come from.
proof fn lemma_distinct_spellings_len(names: Seq<String>, ids: Seq<String>, index: Seq<usize>)
    requires
        spellings(names).no_duplicates(),
        index.len() == ids.len(),
        forall|i: int| 0 <= i < ids.len() ==> #[trigger] index[i] < names.len() && names[index[i] as int]@ == ids[i]@,
        forall|t: int| 0 <= t < names.len() ==> #[trigger] crate::names::spelled_in(ids, names[t]@, ids.len() as int),
    ensures
        names.len() <= ids.len(),
{
    // each name has a first position in `ids`; distinct names have distinct positions
    let pos = Seq::new(names.len(), |t: int| choose|i: int| 0 <= i < ids.len() && ids[i]@ == names[t]@);
    assert forall|t: int| 0 <= t < names.len() implies 0 <= #[trigger] pos[t] < ids.len() && ids[pos[t]]@ == names[t]@ by {
        assert(crate::names::spelled_in(ids, names[t]@, ids.len() as int));
    }
    if names.len() > ids.len() {
        crate::digraph::lemma_pigeonhole(pos, ids.len() as int);
        let (a, b) = choose|a: int, b: int| 0 <= a < b < pos.len() && pos[a] == pos[b];
        assert(spellings(names)[a] == spellings(names)[b]);
    }
}

/// A cycle among the numbered edges would be a cycle among the named ones.
proof fn lemma_numbered_acyclic(
    names: Seq<String>,
    ids: Seq<String>,
    index: Seq<usize>,
    edges: Seq<Edge>,
    int_edges: Seq<(usize, usize)>,
)
    requires
        spellings(names).no_duplicates(),
        index.len() == ids.len(),
        forall|i: int| 0 <= i < ids.len() ==> #[trigger] index[i] < names.len() && names[index[i] as int]@ == ids[i]@,
        forall|t: int| 0 <= t < names.len() ==> #[trigger] crate::names::spelled_in(ids, names[t]@, ids.len() as int),
        edges_below(int_edges, names.len() as int),
        forall|q: int| 0 <= q < int_edges.len() ==> edge_names_match(edges, names, #[trigger] int_edges[q]),
        names_acyclic(spellings(ids), edges),
    ensures
        edges_acyclic(int_edges),
{
    assert forall|p: Seq<int>|
        p.len() >= 2 && (forall|i: int| 0 <= i < p.len() - 1 ==> #[trigger] edge_step(int_edges, p, i))
            implies p[0] != p[p.len() - 1] by {
        let sp = Seq::new(p.len(), |i: int| names[p[i]]@);
        assert forall|i: int| 0 <= i < p.len() - 1 implies #[trigger] name_step(spellings(ids), edges, sp, i) by {
            assert(edge_step(int_edges, p, i));
            let q = choose|q: int| 0 <= q < int_edges.len() && int_edges[q].0 == p[i] && int_edges[q].1 == p[i + 1];
            assert(edge_names_match(edges, names, int_edges[q]));
            let e = choose|e: int|
                0 <= e < edges.len() && edges[e].from@ == names[int_edges[q].0 as int]@
                    && edges[e].to@ == names[int_edges[q].1 as int]@;
            assert(int_edges[q].0 < names.len() && int_edges[q].1 < names.len());
            lemma_name_listed(names, ids, p[i]);
            lemma_name_listed(names, ids, p[i + 1]);
        }
        if p[0] == p[p.len() - 1] {
            assert(sp[0] == sp[p.len() - 1]);
        }
        if p[0] != p[p.len() - 1] {
        } else {
            assert(false);
        }
    }
}

/// A walk among the numbered edges is a walk among the named ones.
proof fn lemma_numbered_reach(
    names: Seq<String>,
    ids: Seq<String>,
    index: Seq<usize>,
    edges: Seq<Edge>,
    int_edges: Seq<(usize, usize)>,
    x: int,
    y: int,
)
    requires
        index.len() == ids.len(),
        forall|t: int| 0 <= t < names.len() ==> #[trigger] crate::names::spelled_in(ids, names[t]@, ids.len() as int),
        edges_below(int_edges, names.len() as int),
        forall|q: int| 0 <= q < int_edges.len() ==> edge_names_match(edges, names, #[trigger] int_edges[q]),
        0 <= x < names.len(),
        edges_reach(int_edges, x, y),
    ensures
        names_reach(spellings(ids), edges, names[x]@, names[y]@),
{
    let p = choose|p: Seq<int>| #[trigger] edge_walk(int_edges, p) && p[0] == x && p[p.len() - 1] == y;
    assert forall|i: int| 0 <= i < p.len() implies 0 <= #[trigger] p[i] < names.len() by {
        if i > 0 {
            assert(edge_step(int_edges, p, i - 1));
            let q = choose|q: int| 0 <= q < int_edges.len() && int_edges[q].0 == p[i - 1] && int_edges[q].1 == p[i];
            assert(int_edges[q].1 < names.len());
        }
    }
    let sp = Seq::new(p.len(), |i: int| names[p[i]]@);
    assert forall|i: int| 0 <= i < sp.len() - 1 implies #[trigger] name_step(spellings(ids), edges, sp, i) by {
        assert(edge_step(int_edges, p, i));
        let q = choose|q: int| 0 <= q < int_edges.len() && int_edges[q].0 == p[i] && int_edges[q].1 == p[i + 1];
        assert(edge_names_match(edges, names, int_edges[q]));
        let e = choose|e: int|
            0 <= e < edges.len() && edges[e].from@ == names[int_edges[q].0 as int]@
                && edges[e].to@ == names[int_edges[q].1 as int]@;
        assert(0 <= p[i] < names.len() && 0 <= p[i + 1] < names.len());
        lemma_name_listed(names, ids, p[i]);
        lemma_name_listed(names, ids, p[i + 1]);
    }
    assert(names_walk(spellings(ids), edges, sp));
    assert(0 <= p[p.len() - 1] < names.len());
}

proof fn lemma_name_listed(names: Seq<String>, ids: Seq<String>, t: int)
    requires
        0 <= t < names.len(),
        forall|t2: int| 0 <= t2 < names.len() ==> #[trigger] crate::names::spelled_in(ids, names[t2]@, ids.len() as int),
    ensures
        spellings(ids).contains(names[t]@),
{
    assert(crate::names::spelled_in(ids, names[t]@, ids.len() as int));
    let i = choose|i: int| 0 <= i < ids.len() && ids[i]@ == names[t]@;
    assert(spellings(ids)[i] == names[t]@);
}


/// Number of the name spelled `s` in `names`.
pub open spec fn encode(names: Seq<Seq<char>>, s: Seq<char>) -> usize {
    names.index_of(s) as usize
}

/// The ranks with each node replaced by its number in `names`.
pub open spec fn encoded_ranks(names: Seq<Seq<char>>, rn: Seq<Vec<String>>) -> Seq<Seq<usize>> {
    Seq::new(rn.len(), |q: int| Seq::new(rn[q]@.len(), |k: int| encode(names, rn[q]@[k]@)))
}

/// The edges as pairs of numbers in `names`.
pub open spec fn encoded_edges(names: Seq<Seq<char>>, edges: Seq<Edge>) -> Seq<(usize, usize)> {
    Seq::new(edges.len(), |k: int| (encode(names, edges[k].from@), encode(names, edges[k].to@)))
}

/// The sources of the edges of `es` that end at `y`, in edge order.
pub open spec fn sources_into(es: Seq<(usize, usize)>, y: usize) -> Seq<usize>
    decreases es.len(),
{
    if es.len() == 0 {
        Seq::empty()
    } else if es.last().1 == y {
        sources_into(es.drop_last(), y).push(es.last().0)
    } else {
        sources_into(es.drop_last(), y)
    }
}

/// The targets of the edges of `es` that start at `x`, in edge order.
pub open spec fn targets_from(es: Seq<(usize, usize)>, x: usize) -> Seq<usize>
    decreases es.len(),
{
    if es.len() == 0 {
        Seq::empty()
    } else if es.last().0 == x {
        targets_from(es.drop_last(), x).push(es.last().1)
    } else {
        targets_from(es.drop_last(), x)
    }
}

/// For each name, its value in `node_order`, or `usize::MAX`.
pub open spec fn order_values(names: Seq<Seq<char>>, node_order: Seq<(String, usize)>) -> Seq<usize> {
    Seq::new(
        names.len(),
        |x: int|
            match order_lookup(node_order, names[x]) {
                Some(v) => v,
                None => usize::MAX,
            },
    )
}

/// Spellings of the nodes of each rank.
pub open spec fn rank_spellings(rn: Seq<Vec<String>>) -> Seq<Seq<Seq<char>>> {
    Seq::new(rn.len(), |q: int| spellings(rn[q]@))
}

/// The numbered ranks `bs` spelled out by `names`.
pub open spec fn decoded_ranks(names: Seq<Seq<char>>, bs: Seq<Seq<usize>>) -> Seq<Seq<Seq<char>>> {
    Seq::new(bs.len(), |q: int| bs[q].map_values(|i: usize| names[i as int]))
}

/// `names` extended by the entries of `items`, in order, each unless it is
/// already there.
pub open spec fn add_names(names: Seq<Seq<char>>, items: Seq<Seq<char>>) -> Seq<Seq<char>>
    decreases items.len(),
{
    if items.len() == 0 {
        names
    } else {
        add_name(add_names(names, items.drop_last()), items.last())
    }
}

/// `names` extended by the nodes of the ranks `rn`, rank by rank.
pub open spec fn rank_names(names: Seq<Seq<char>>, rn: Seq<Vec<String>>) -> Seq<Seq<char>>
    decreases rn.len(),
{
    if rn.len() == 0 {
        names
    } else {
        add_names(rank_names(names, rn.drop_last()), spellings(rn.last()@))
    }
}

/// `names` extended by the two ends of each edge, edge by edge.
pub open spec fn edge_names(names: Seq<Seq<char>>, edges: Seq<Edge>) -> Seq<Seq<char>>
    decreases edges.len(),
{
    if edges.len() == 0 {
        names
    } else {
        add_name(add_name(edge_names(names, edges.drop_last()), edges.last().from@), edges.last().to@)
    }
}

/// The names of the nodes of `rn` and of the ends of `edges`, each once, in
/// order of first appearance: ranks first, then edges.
pub open spec fn node_names(rn: Seq<Vec<String>>, edges: Seq<Edge>) -> Seq<Seq<char>> {
    edge_names(rank_names(Seq::empty(), rn), edges)
}

/// The ranks `rn` ordered, with the nodes numbered by `names`: `passes`
/// passes (at least one) of sweeps down by predecessors and up by
/// successors, ties going by `node_order`.
pub open spec fn ordered_ranks(
    names: Seq<Seq<char>>,
    rn: Seq<Vec<String>>,
    edges: Seq<Edge>,
    node_order: Seq<(String, usize)>,
    passes: usize,
) -> Seq<Seq<Seq<char>>> {
    let es = encoded_edges(names, edges);
    decoded_ranks(
        names,
        ordering_passes(
            encoded_ranks(names, rn),
            Seq::new(names.len(), |y: int| sources_into(es, y as usize)),
            Seq::new(names.len(), |x: int| targets_from(es, x as usize)),
            order_values(names, node_order),
            (if passes < 1 {
                1
            } else {
                passes
            }) as nat,
        ),
    )
}

/// With `names` spelling each name once, the number of the name at `i` is `i`.
pub proof fn lemma_encode(names: Seq<Seq<char>>, i: int)
    requires
        names.no_duplicates(),
        0 <= i < names.len(),
        names.len() <= usize::MAX,
    ensures
        encode(names, names[i]) as int == i,
        names.index_of(names[i]) == i,
{
    let j = names.index_of(names[i]);
    assert(names[i] == names[i]);
    assert(0 <= j < names.len() && names[j] == names[i]);
}

/// How many of `edges` end at the node named `s`.
pub open spec fn edges_into(edges: Seq<Edge>, s: Seq<char>) -> nat
    decreases edges.len(),
{
    if edges.len() == 0 {
        0
    } else {
        edges_into(edges.drop_last(), s) + (if edges.last().to@ == s {
            1nat
        } else {
            0nat
        })
    }
}

/// How many of `edges` start at the node named `s`.
pub open spec fn edges_out_of(edges: Seq<Edge>, s: Seq<char>) -> nat
    decreases edges.len(),
{
    if edges.len() == 0 {
        0
    } else {
        edges_out_of(edges.drop_last(), s) + (if edges.last().from@ == s {
            1nat
        } else {
            0nat
        })
    }
}

/// For any two nodes, the numbers of edges into them multiply without
/// overflow, and so do the numbers of edges out of them.
pub open spec fn degree_products_fit(edges: Seq<Edge>) -> bool {
    forall|a: Seq<char>, b: Seq<char>|
        #![trigger edges_into(edges, a), edges_into(edges, b)]
        #![trigger edges_out_of(edges, a), edges_out_of(edges, b)]
        edges_into(edges, a) * edges_into(edges, b) <= usize::MAX && edges_out_of(edges, a) * edges_out_of(edges, b)
            <= usize::MAX
}

/// The numbered neighbour lists are as long as the named edge counts.
proof fn lemma_neighbour_counts(names: Seq<String>, edges: Seq<Edge>, ie: Seq<(usize, usize)>, y: int)
    requires
        spellings(names).no_duplicates(),
        ie.len() == edges.len(),
        edges_below(ie, names.len() as int),
        forall|k: int|
            0 <= k < ie.len() ==> names[(#[trigger] ie[k]).0 as int]@ == edges[k].from@ && names[ie[k].1 as int]@
                == edges[k].to@,
        0 <= y < names.len(),
        names.len() <= usize::MAX,
    ensures
        sources_into(ie, y as usize).len() == edges_into(edges, names[y]@),
        targets_from(ie, y as usize).len() == edges_out_of(edges, names[y]@),
    decreases ie.len(),
{
    if ie.len() > 0 {
        let l = ie.len() - 1;
        assert(ie[l].0 < names.len() && ie[l].1 < names.len());
        assert forall|k: int| 0 <= k < ie.drop_last().len() implies names[(#[trigger] ie.drop_last()[k]).0 as int]@
            == edges.drop_last()[k].from@ && names[ie.drop_last()[k].1 as int]@ == edges.drop_last()[k].to@ by {
            assert(ie.drop_last()[k] == ie[k]);
        }
        lemma_neighbour_counts(names, edges.drop_last(), ie.drop_last(), y);
        assert(names[ie[l].0 as int]@ == edges[l].from@ && names[ie[l].1 as int]@ == edges[l].to@);
        assert(ie.last() == ie[l] && edges.last() == edges[l]);
        assert(edges.drop_last().len() == ie.drop_last().len());
        if ie[l].1 as int != y && edges[l].to@ == names[y]@ {
            assert(spellings(names)[ie[l].1 as int] == spellings(names)[y]);
        }
        if ie[l].0 as int != y && edges[l].from@ == names[y]@ {
            assert(spellings(names)[ie[l].0 as int] == spellings(names)[y]);
        }
    }
}

/// Orders the nodes within each rank so that edges between neighbouring
/// ranks cross little. `passes` times (at least once), a sweep down the
/// ranks sorts each rank by the median position of every node's
/// predecessors, then exchanges neighbouring nodes while that removes
/// crossings; a sweep back up does the same by successors. Ties go by
/// current position, then by `node_order` (missing nodes last). With at
/// most one rank nothing changes; otherwise every rank keeps its nodes, each
/// name as often as before.
/// The numbers of edges into (and out of) any two nodes must multiply
/// without overflow.
pub fn order_rank_nodes(
    rank_nodes: &mut Vec<Vec<String>>,
    edges: &Vec<Edge>,
    node_order: &Vec<(String, usize)>,
    passes: usize,
)
    requires
        degree_products_fit(edges@),
    ensures
        final(rank_nodes)@.len() == old(rank_nodes)@.len(),
        forall|r: int|
            0 <= r < final(rank_nodes)@.len() ==> spellings(#[trigger] final(rank_nodes)@[r]@).to_multiset()
                == spellings(old(rank_nodes)@[r]@).to_multiset(),
        old(rank_nodes)@.len() <= 1 ==> final(rank_nodes)@ == old(rank_nodes)@,
        old(rank_nodes)@.len() > 1 ==> rank_spellings(final(rank_nodes)@) == ordered_ranks(
            node_names(old(rank_nodes)@, edges@),
            old(rank_nodes)@,
            edges@,
            node_order@,
            passes,
        ),
{
    if rank_nodes.len() <= 1 {
        return ;
    }
    let ghost rn0 = rank_nodes@;
    let mut names: Vec<String> = Vec::new();
    let mut ib: Vec<Vec<usize>> = Vec::new();
    let mut r: usize = 0;
    while r < rank_nodes.len()
        invariant
            r <= rank_nodes.len(),
            rn0 == rank_nodes@,
            spellings(names@).no_duplicates(),
            ib@.len() == r,
            forall|q: int, k: int| 0 <= q < r && 0 <= k < rn0[q]@.len() ==> #[trigger] ib@[q]@[k] < names@.len(),
            forall|q: int| 0 <= q < r ==> (#[trigger] ib@[q]@).len() == rn0[q]@.len(),
            forall|q: int, k: int|
                0 <= q < r && 0 <= k < rn0[q]@.len() ==> names@[#[trigger] ib@[q]@[k] as int]@ == rn0[q]@[k]@,
            spellings(names@) == rank_names(Seq::empty(), rn0.take(r as int)),
        decreases rank_nodes.len() - r,
    {
        let mut row: Vec<usize> = Vec::new();
        let mut k: usize = 0;
        while k < rank_nodes[r].len()
            invariant
                r < rank_nodes.len(),
                rn0 == rank_nodes@,
                k <= rn0[r as int]@.len(),
                spellings(names@).no_duplicates(),
                ib@.len() == r,
                row@.len() == k,
                forall|t: int| 0 <= t < k ==> #[trigger] row@[t] < names@.len(),
                forall|t: int| 0 <= t < k ==> names@[#[trigger] row@[t] as int]@ == rn0[r as int]@[t]@,
                forall|q: int, k2: int| 0 <= q < r && 0 <= k2 < rn0[q]@.len() ==> #[trigger] ib@[q]@[k2] < names@.len(),
                forall|q: int| 0 <= q < r ==> (#[trigger] ib@[q]@).len() == rn0[q]@.len(),
                forall|q: int, k2: int|
                    0 <= q < r && 0 <= k2 < rn0[q]@.len() ==> names@[#[trigger] ib@[q]@[k2] as int]@ == rn0[q]@[k2]@,
                spellings(names@) == add_names(
                    rank_names(Seq::empty(), rn0.take(r as int)),
                    spellings(rn0[r as int]@).take(k as int),
                ),
            decreases rn0[r as int]@.len() - k,
        {
            let ghost n0 = names@;
            let idx = intern(&mut names, &rank_nodes[r][k]);
            row.push(idx);
            proof {
                assert forall|t: int| 0 <= t < k + 1 implies names@[#[trigger] row@[t] as int]@ == rn0[r as int]@[t]@ by {
                    if t < k {
                        assert(names@.subrange(0, n0.len() as int)[row@[t] as int] == n0[row@[t] as int]);
                    }
                }
                assert forall|q: int, k2: int|
                    0 <= q < r && 0 <= k2 < rn0[q]@.len() implies names@[#[trigger] ib@[q]@[k2] as int]@ == rn0[q]@[k2]@ by {
                    assert(names@.subrange(0, n0.len() as int)[ib@[q]@[k2] as int] == n0[ib@[q]@[k2] as int]);
                }
                assert(spellings(rn0[r as int]@).take(k + 1).drop_last() =~= spellings(rn0[r as int]@).take(k as int));
                assert(spellings(rn0[r as int]@).take(k + 1).last() == rn0[r as int]@[k as int]@);
            }
            k += 1;
        }
        let ghost ib0 = ib@;
        ib.push(row);
        proof {
            assert forall|q: int| 0 <= q < r implies #[trigger] ib@[q] == ib0[q] by {}
            assert(spellings(rn0[r as int]@).take(rn0[r as int]@.len() as int) =~= spellings(rn0[r as int]@));
            assert(rn0.take(r + 1).drop_last() =~= rn0.take(r as int));
            assert(rn0.take(r + 1).last() == rn0[r as int]);
        }
        r += 1;
    }
    proof {
        assert(rn0.take(rn0.len() as int) =~= rn0);
    }
    let mut int_edges: Vec<(usize, usize)> = Vec::new();
    let mut k: usize = 0;
    while k < edges.len()
        invariant
            k <= edges.len(),
            spellings(names@).no_duplicates(),
            edges_below(int_edges@, names@.len() as int),
            ib@.len() == rn0.len(),
            forall|q: int, k2: int| 0 <= q < rn0.len() && 0 <= k2 < rn0[q]@.len() ==> #[trigger] ib@[q]@[k2] < names@.len(),
            forall|q: int| 0 <= q < rn0.len() ==> (#[trigger] ib@[q]@).len() == rn0[q]@.len(),
            forall|q: int, k2: int|
                0 <= q < rn0.len() && 0 <= k2 < rn0[q]@.len() ==> names@[#[trigger] ib@[q]@[k2] as int]@ == rn0[q]@[k2]@,
            int_edges@.len() == k,
            forall|k2: int|
                0 <= k2 < k ==> names@[(#[trigger] int_edges@[k2]).0 as int]@ == edges@[k2].from@ && names@[int_edges@[k2].1 as int]@
                    == edges@[k2].to@,
            spellings(names@) == edge_names(rank_names(Seq::empty(), rn0), edges@.take(k as int)),
        decreases edges.len() - k,
    {
        let ghost n0 = names@;
        let ghost ie0 = int_edges@;
        let a = intern(&mut names, &edges[k].from);
        let ghost n1 = names@;
        let b = intern(&mut names, &edges[k].to);
        int_edges.push((a, b));
        proof {
            assert forall|q: int, k2: int|
                0 <= q < rn0.len() && 0 <= k2 < rn0[q]@.len() implies names@[#[trigger] ib@[q]@[k2] as int]@ == rn0[q]@[k2]@ by {
                assert(names@.subrange(0, n0.len() as int)[ib@[q]@[k2] as int] == n0[ib@[q]@[k2] as int]);
            }
            assert(names@.subrange(0, n1.len() as int)[a as int] == n1[a as int]);
            assert forall|k2: int|
                0 <= k2 < k + 1 implies names@[(#[trigger] int_edges@[k2]).0 as int]@ == edges@[k2].from@ && names@[int_edges@[k2].1 as int]@
                    == edges@[k2].to@ by {
                if k2 < k {
                    assert(int_edges@[k2] == ie0[k2]);
                    assert(names@.subrange(0, n0.len() as int)[ie0[k2].0 as int] == n0[ie0[k2].0 as int]);
                    assert(names@.subrange(0, n0.len() as int)[ie0[k2].1 as int] == n0[ie0[k2].1 as int]);
                }
            }
            assert(edges@.take(k + 1).drop_last() =~= edges@.take(k as int));
            assert(edges@.take(k + 1).last() == edges@[k as int]);
        }
        k += 1;
    }
    proof {
        assert(edges@.take(edges.len() as int) =~= edges@);
    }
    let m = names.len();
    let mut inc: Vec<Vec<usize>> = Vec::new();
    let mut out: Vec<Vec<usize>> = Vec::new();
    let mut ord: Vec<usize> = Vec::new();
    let mut x: usize = 0;
    while x < m
        invariant
            x <= m,
            m == names.len(),
            inc.len() == x,
            out.len() == x,
            ord.len() == x,
            forall|y: int| 0 <= y < x ==> (#[trigger] inc@[y]@).len() == 0,
            forall|y: int| 0 <= y < x ==> (#[trigger] out@[y]@).len() == 0,
            forall|y: int| 0 <= y < x ==> #[trigger] ord@[y] == order_values(spellings(names@), node_order@)[y],
        decreases m - x,
    {
        inc.push(Vec::new());
        out.push(Vec::new());
        match lookup_order(node_order, &names[x]) {
            Some(v) => ord.push(v),
            None => ord.push(usize::MAX),
        }
        x += 1;
    }
    let mut k: usize = 0;
    while k < int_edges.len()
        invariant
            k <= int_edges.len(),
            int_edges@.len() == edges.len(),
            edges_below(int_edges@, m as int),
            inc.len() == m,
            out.len() == m,
            forall|y: int, t: int| 0 <= y < m && 0 <= t < inc@[y]@.len() ==> #[trigger] inc@[y]@[t] < m,
            forall|y: int, t: int| 0 <= y < m && 0 <= t < out@[y]@.len() ==> #[trigger] out@[y]@[t] < m,
            forall|y: int| 0 <= y < m ==> (#[trigger] inc@[y]@).len() <= k,
            forall|y: int| 0 <= y < m ==> (#[trigger] out@[y]@).len() <= k,
            forall|y: int| 0 <= y < m ==> #[trigger] inc@[y]@ == sources_into(int_edges@.take(k as int), y as usize),
            forall|y: int| 0 <= y < m ==> #[trigger] out@[y]@ == targets_from(int_edges@.take(k as int), y as usize),
        decreases int_edges.len() - k,
    {
        proof {
            assert(int_edges@.take(k + 1).drop_last() =~= int_edges@.take(k as int));
        }
        let (a, b) = int_edges[k];
        proof {
            assert(int_edges@[k as int].0 < m && int_edges@[k as int].1 < m);
        }
        let ghost i0 = inc@;
        let ghost o0 = out@;
        out[a].push(b);
        inc[b].push(a);
        proof {
            assert forall|y: int, t: int| 0 <= y < m && 0 <= t < inc@[y]@.len() implies #[trigger] inc@[y]@[t] < m by {
                if y != b || t < i0[y]@.len() {
                    assert(inc@[y]@[t] == i0[y]@[t]);
                }
            }
            assert forall|y: int, t: int| 0 <= y < m && 0 <= t < out@[y]@.len() implies #[trigger] out@[y]@[t] < m by {
                if y != a || t < o0[y]@.len() {
                    assert(out@[y]@[t] == o0[y]@[t]);
                }
            }
            assert forall|y: int| 0 <= y < m implies (#[trigger] inc@[y]@).len() <= k + 1 by {
                assert(i0[y]@.len() <= k);
            }
            assert forall|y: int| 0 <= y < m implies (#[trigger] out@[y]@).len() <= k + 1 by {
                assert(o0[y]@.len() <= k);
            }
            assert forall|y: int| 0 <= y < m implies #[trigger] inc@[y]@ == sources_into(int_edges@.take(k + 1), y as usize) by {
                if y != b {
                    assert(inc@[y] == i0[y]);
                }
            }
            assert forall|y: int| 0 <= y < m implies #[trigger] out@[y]@ == targets_from(int_edges@.take(k + 1), y as usize) by {
                if y != a {
                    assert(out@[y] == o0[y]);
                }
            }
        }
        k += 1;
    }
    let ghost ib0 = ib@;
    let ghost ibd0 = ib.deep_view();
    proof {
        assert forall|q: int, k2: int|
            0 <= q < ib.deep_view().len() && 0 <= k2 < ib.deep_view()[q].len() implies #[trigger] ib.deep_view()[q][k2] < ord.len() by {
            assert(ib.deep_view()[q] == ib@[q]@);
        }
    }
    proof {
        assert(int_edges@.take(int_edges@.len() as int) =~= int_edges@);
        assert forall|y: int| 0 <= y < m implies (#[trigger] inc@[y]@).len() == edges_into(edges@, names@[y]@) by {
            lemma_neighbour_counts(names@, edges@, int_edges@, y);
        }
        assert forall|y: int| 0 <= y < m implies (#[trigger] out@[y]@).len() == edges_out_of(edges@, names@[y]@) by {
            lemma_neighbour_counts(names@, edges@, int_edges@, y);
        }
        assert forall|x: int, y: int|
            0 <= x < inc.deep_view().len() && 0 <= y < inc.deep_view().len() implies #[trigger] inc.deep_view()[x].len()
                * #[trigger] inc.deep_view()[y].len() <= usize::MAX by {
            assert(inc.deep_view()[x] == inc@[x]@ && inc.deep_view()[y] == inc@[y]@);
            assert(edges_into(edges@, names@[x]@) * edges_into(edges@, names@[y]@) <= usize::MAX);
        }
        assert forall|x: int, y: int|
            0 <= x < out.deep_view().len() && 0 <= y < out.deep_view().len() implies #[trigger] out.deep_view()[x].len()
                * #[trigger] out.deep_view()[y].len() <= usize::MAX by {
            assert(out.deep_view()[x] == out@[x]@ && out.deep_view()[y] == out@[y]@);
            assert(edges_out_of(edges@, names@[x]@) * edges_out_of(edges@, names@[y]@) <= usize::MAX);
        }
    }
    order_buckets(&mut ib, &inc, &out, &ord, passes);
    let mut result: Vec<Vec<String>> = Vec::new();
    let mut r: usize = 0;
    while r < ib.len()
        invariant
            r <= ib@.len(),
            ib@.len() == rn0.len(),
            buckets_below(ib.deep_view(), names@.len() as int),
            result@.len() == r,
            forall|q: int| 0 <= q < r ==> (#[trigger] result@[q])@.len() == ib@[q]@.len(),
            forall|q: int, k2: int|
                0 <= q < r && 0 <= k2 < ib@[q]@.len() ==> (#[trigger] result@[q]@[k2])@ == names@[ib@[q]@[k2] as int]@,
        decreases ib@.len() - r,
    {
        let mut row: Vec<String> = Vec::new();
        let mut k: usize = 0;
        while k < ib[r].len()
            invariant
                r < ib@.len(),
                k <= ib@[r as int]@.len(),
                buckets_below(ib.deep_view(), names@.len() as int),
                row@.len() == k,
                forall|t: int| 0 <= t < k ==> (#[trigger] row@[t])@ == names@[ib@[r as int]@[t] as int]@,
            decreases ib@[r as int]@.len() - k,
        {
            proof {
                assert(ib.deep_view()[r as int][k as int] == ib@[r as int]@[k as int]);
            }
            row.push(names[ib[r][k]].clone());
            k += 1;
        }
        let ghost res0 = result@;
        result.push(row);
        proof {
            assert forall|q: int| 0 <= q < r implies #[trigger] result@[q] == res0[q] by {}
        }
        r += 1;
    }
    proof {
        let sp = spellings(names@);
        assert(sp.no_duplicates());
        assert(names@.len() <= usize::MAX);
        assert forall|q: int, k2: int| 0 <= q < rn0.len() && 0 <= k2 < rn0[q]@.len() implies #[trigger] ib0[q]@[k2] == encode(
            sp,
            rn0[q]@[k2]@,
        ) by {
            assert(sp[ib0[q]@[k2] as int] == rn0[q]@[k2]@);
            lemma_encode(sp, ib0[q]@[k2] as int);
        }
        assert forall|q: int| 0 <= q < rn0.len() implies #[trigger] ibd0[q] == encoded_ranks(sp, rn0)[q] by {
            assert(ibd0[q] == ib0[q]@);
            assert(ibd0[q] =~= encoded_ranks(sp, rn0)[q]);
        }
        assert(ibd0 =~= encoded_ranks(sp, rn0));
        assert forall|k2: int| 0 <= k2 < edges.len() implies #[trigger] int_edges@[k2] == encoded_edges(sp, edges@)[k2] by {
            assert(sp[int_edges@[k2].0 as int] == edges@[k2].from@);
            assert(sp[int_edges@[k2].1 as int] == edges@[k2].to@);
            lemma_encode(sp, int_edges@[k2].0 as int);
            lemma_encode(sp, int_edges@[k2].1 as int);
        }
        let es = encoded_edges(sp, edges@);
        assert(int_edges@ =~= es);
        assert(int_edges@.take(int_edges@.len() as int) =~= int_edges@);
        assert forall|y: int| 0 <= y < sp.len() implies #[trigger] inc.deep_view()[y] == sources_into(es, y as usize) by {
            assert(inc.deep_view()[y] == inc@[y]@);
        }
        assert forall|y: int| 0 <= y < sp.len() implies #[trigger] out.deep_view()[y] == targets_from(es, y as usize) by {
            assert(out.deep_view()[y] == out@[y]@);
        }
        assert(inc.deep_view() =~= Seq::new(sp.len(), |y: int| sources_into(es, y as usize)));
        assert(out.deep_view() =~= Seq::new(sp.len(), |x: int| targets_from(es, x as usize)));
        assert(ord@ =~= order_values(sp, node_order@));
        assert forall|q: int| 0 <= q < result@.len() implies #[trigger] rank_spellings(result@)[q] == decoded_ranks(
            sp,
            ib.deep_view(),
        )[q] by {
            assert(ib.deep_view()[q] == ib@[q]@);
            assert(rank_spellings(result@)[q] =~= decoded_ranks(sp, ib.deep_view())[q]);
        }
        assert(rank_spellings(result@) =~= decoded_ranks(sp, ib.deep_view()));
        assert(sp == node_names(rn0, edges@));
        assert(rank_spellings(result@) == ordered_ranks(sp, rn0, edges@, node_order@, passes));
        let f = |i: usize| names@[i as int]@;
        assert forall|q: int|
            0 <= q < result@.len() implies spellings(#[trigger] result@[q]@).to_multiset() == spellings(rn0[q]@).to_multiset() by {
            assert(spellings(result@[q]@) =~= ib@[q]@.map_values(f));
            assert(spellings(rn0[q]@) =~= ib0[q]@.map_values(f));
            lemma_multiset_map(ib@[q]@, ib0[q]@, f);
        }
    }
    *rank_nodes = result;
}

/// An edge that is not drawn dotted.
pub open spec fn is_primary(e: Edge) -> bool {
    e.style != EdgeStyle::Dotted
}

/// The test of `is_primary`, as a value.
pub open spec fn primary_pred() -> spec_fn(Edge) -> bool {
    |e: Edge| is_primary(e)
}

/// The end names of `es`, edge by edge, source first.
pub open spec fn endpoint_names(es: Seq<Edge>) -> Seq<String>
    decreases es.len(),
{
    if es.len() == 0 {
        Seq::empty()
    } else {
        endpoint_names(es.drop_last()) + seq![es.last().from, es.last().to]
    }
}

/// The edges that rank a manually laid out flowchart of `n` nodes: with
/// three edges or more, the edges not drawn dotted, where they touch at least
/// half of the nodes (rounded up); all edges otherwise.
pub open spec fn manual_rank_edges(kind: DiagramKind, n: nat, edges: Seq<Edge>) -> Seq<Edge> {
    if kind != DiagramKind::Flowchart || edges.len() < 3 {
        edges
    } else {
        let primary = edges.filter(primary_pred());
        if primary.len() == 0 {
            edges
        } else if distinct_upto(endpoint_names(primary), (2 * primary.len()) as int) >= (n + 1) / 2 {
            primary
        } else {
            edges
        }
    }
}

/// A copy of `edges`.
fn copy_edges(edges: &Vec<Edge>) -> (r: Vec<Edge>)
    ensures
        r@ == edges@,
{
    let mut r: Vec<Edge> = Vec::new();
    let mut i: usize = 0;
    while i < edges.len()
        invariant
            i <= edges.len(),
            r@ == edges@.take(i as int),
        decreases edges.len() - i,
    {
        r.push(copy_edge(&edges[i]));
        i += 1;
        proof {
            assert(r@ =~= edges@.take(i as int));
        }
    }
    proof {
        assert(edges@.take(edges.len() as int) =~= edges@);
    }
    r
}

/// The edges that decide the ranks of a manually laid out diagram: for a
/// flowchart with three edges or more, those not drawn dotted, provided
/// they touch at least half of the layout's nodes (rounded up); otherwise
/// all of them.
pub fn rank_edges_for_manual_layout(graph: &Graph, layout_node_ids: &Vec<String>, layout_edges: &Vec<Edge>) -> (ranked: Vec<Edge>)
    ensures
        ranked@ == manual_rank_edges(graph.kind, layout_node_ids.len() as nat, layout_edges@),
{
    if graph.kind != DiagramKind::Flowchart || layout_edges.len() < 3 {
        return copy_edges(layout_edges);
    }
    let mut primary: Vec<Edge> = Vec::new();
    let mut ends: Vec<String> = Vec::new();
    let mut i: usize = 0;
    proof {
        reveal(Seq::filter);
        assert(layout_edges@.take(0).filter(primary_pred()) =~= Seq::<Edge>::empty());
        assert(endpoint_names(Seq::<Edge>::empty()) =~= Seq::<String>::empty());
    }
    while i < layout_edges.len()
        invariant
            i <= layout_edges.len(),
            primary@ == layout_edges@.take(i as int).filter(primary_pred()),
            ends@ == endpoint_names(primary@),
            primary.len() <= i,
        decreases layout_edges.len() - i,
    {
        let ghost p0 = primary@;
        let ghost e0 = ends@;
        let e = &layout_edges[i];
        let ghost pre = layout_edges@.take(i + 1);
        proof {
            assert(pre.drop_last() =~= layout_edges@.take(i as int));
            assert(pre.last() == *e);
        }
        let dotted = match e.style {
            EdgeStyle::Dotted => true,
            _ => false,
        };
        if !dotted {
            primary.push(copy_edge(e));
            ends.push(e.from.clone());
            ends.push(e.to.clone());
            proof {
                assert(primary@.drop_last() =~= p0);
                assert(ends@ =~= e0 + seq![e.from, e.to]);
            }
        }
        proof {
            reveal(Seq::filter);
            assert(pre.filter(primary_pred()) == if is_primary(*e) {
                p0.push(*e)
            } else {
                p0
            });
        }
        i += 1;
    }
    proof {
        assert(layout_edges@.take(layout_edges.len() as int) =~= layout_edges@);
        lemma_endpoint_names_len(primary@);
    }
    if primary.len() == 0 {
        return copy_edges(layout_edges);
    }
    let covered = distinct_count(&ends);
    let n = layout_node_ids.len();
    let min_covered = n / 2 + n % 2;
    if covered >= min_covered {
        primary
    } else {
        copy_edges(layout_edges)
    }
}

/// Each edge has two end names.
pub proof fn lemma_endpoint_names_len(es: Seq<Edge>)
    ensures
        endpoint_names(es).len() == 2 * es.len(),
    decreases es.len(),
{
    if es.len() > 0 {
        lemma_endpoint_names_len(es.drop_last());
    }
}

} // verus!
